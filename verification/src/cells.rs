//! Cell edits: the value an edited cell takes, by the type of its column and
//! the JSON value the user interface sends.
use vstd::prelude::*;
use vstd::string::*;
use vstd::utf8::encode_utf8;
use crate::json::Json;

verus! {

/// An ASCII decimal digit.
pub open spec fn is_digit(b: u8) -> bool {
    48 <= b <= 57
}

pub open spec fn all_digits(b: Seq<u8>) -> bool {
    forall|i: int| 0 <= i < b.len() ==> is_digit(#[trigger] b[i])
}

/// The value of a string of decimal digits.
pub open spec fn digits_value(b: Seq<u8>) -> int
    decreases b.len(),
{
    if b.len() == 0 {
        0
    } else {
        10 * digits_value(b.drop_last()) + (b.last() - 48)
    }
}

/// The text as an `i64` the way `str::parse::<i64>` reads it: an optional `+`
/// or `-`, then one or more ASCII digits, with a value in the range of `i64`.
pub open spec fn spec_parse_i64(s: Seq<char>) -> Option<i64> {
    let b = encode_utf8(s);
    let signed = b.len() > 0 && (b[0] == 45 || b[0] == 43);
    let body = if signed { b.drop_first() } else { b };
    if body.len() == 0 || !all_digits(body) {
        None
    } else {
        let v = if b[0] == 45 { -digits_value(body) } else { digits_value(body) };
        if i64::MIN <= v <= i64::MAX {
            Some(v as i64)
        } else {
            None
        }
    }
}

proof fn lemma_digits_prefix(b: Seq<u8>, k: int)
    requires
        all_digits(b),
        0 <= k <= b.len(),
    ensures
        0 <= digits_value(b.take(k)) <= digits_value(b),
    decreases b.len(),
{
    if b.len() > 0 {
        assert(all_digits(b.drop_last()));
        if k < b.len() {
            assert(b.drop_last().take(k) =~= b.take(k));
            lemma_digits_prefix(b.drop_last(), k);
        } else {
            assert(b.take(k) =~= b);
            lemma_digits_prefix(b.drop_last(), k - 1);
        }
        assert(is_digit(b.last()));
    } else {
        assert(b.take(k) =~= b);
    }
}

/// Reads an `i64` from text as `str::parse::<i64>` does.
pub fn parse_i64(s: &str) -> (r: Option<i64>)
    ensures
        r == spec_parse_i64(s@),
{
    let b = s.as_bytes();
    let ghost bs = encode_utf8(s@);
    assert(b@ == bs);
    let n = b.len();
    let mut start: usize = 0;
    if n > 0 && (b[0] == 45 || b[0] == 43) {
        start = 1;
    }
    let ghost body = bs.skip(start as int);
    proof {
        if start == 1 {
            assert(body =~= bs.drop_first());
        } else {
            assert(body =~= bs);
        }
    }
    if start == n {
        return None;
    }
    let limit: u64 = 0x8000_0000_0000_0000;
    let mut acc: u64 = 0;
    let mut i: usize = start;
    assert(bs.subrange(start as int, start as int) =~= Seq::<u8>::empty());
    while i < n
        invariant
            bs == encode_utf8(s@),
            b@ == bs,
            n == bs.len(),
            start <= i <= n,
            start < n,
            start == (if bs.len() > 0 && (bs[0] == 45 || bs[0] == 43) { 1usize } else { 0usize }),
            body == bs.skip(start as int),
            body == (if bs.len() > 0 && (bs[0] == 45 || bs[0] == 43) { bs.drop_first() } else { bs }),
            all_digits(bs.subrange(start as int, i as int)),
            acc == digits_value(bs.subrange(start as int, i as int)),
            acc <= limit,
            limit == 0x8000_0000_0000_0000,
        decreases n - i,
    {
        let d = b[i];
        if d < 48 || d > 57 {
            proof {
                assert(body[i - start] == bs[i as int]);
                assert(!is_digit(body[i - start]));
            }
            return None;
        }
        let dd = (d - 48) as u64;
        let ghost prefix = bs.subrange(start as int, i + 1);
        proof {
            assert(prefix.drop_last() =~= bs.subrange(start as int, i as int));
            assert(prefix.last() == d);
            assert(all_digits(prefix));
            assert(digits_value(prefix) == 10 * acc + dd);
        }
        if acc > (limit - dd) / 10 {
            proof {
                assert(acc * 10 + dd > limit) by (nonlinear_arith)
                    requires acc > (limit - dd) / 10, dd <= 9, limit == 0x8000_0000_0000_0000;
                if all_digits(body) {
                    assert(body.take(i + 1 - start) =~= prefix);
                    lemma_digits_prefix(body, i + 1 - start);
                    assert(digits_value(body) > 0x8000_0000_0000_0000);
                }
            }
            return None;
        }
        proof {
            assert(acc * 10 + dd <= limit) by (nonlinear_arith)
                requires acc <= (limit - dd) / 10, dd <= 9, limit == 0x8000_0000_0000_0000;
        }
        acc = acc * 10 + dd;
        i = i + 1;
    }
    assert(bs.subrange(start as int, n as int) =~= body);
    if b[0] == 45 {
        if acc == limit {
            Some(i64::MIN)
        } else {
            Some(-(acc as i64))
        }
    } else {
        if acc == limit {
            None
        } else {
            Some(acc as i64)
        }
    }
}

/// The type of a column as a cell edit sees it.
#[derive(Debug, Clone, Copy, PartialEq, Eq, Structural)]
pub enum CellType {
    /// 32- and 64-bit integers, signed or not.
    Integer,
    /// 32- and 64-bit floats.
    Float,
    /// Booleans.
    Boolean,
    /// Everything else, edited as text.
    Text,
}

/// The new value of an edited cell.
#[derive(Debug)]
pub enum CellEdit {
    /// For an integer column: the integer, or none (a missing value).
    Integer(Option<i64>),
    /// For a float column: the value read as a float, a number or numeric
    /// text (floating point, so read by the caller).
    Float,
    /// For a boolean column: the boolean, or none.
    Boolean(Option<bool>),
    /// For a text column: the text.
    Text(String),
    /// For a text column given a number, a boolean, an array or an object: the
    /// value's JSON text.
    JsonText,
}

/// The integer a value gives: an integral number that fits, or text that reads
/// as one; anything else gives none.
pub open spec fn spec_integer_of(v: Json) -> Option<i64> {
    match v {
        Json::Number(n) => n.as_i64,
        Json::Text(s) => spec_parse_i64(s@),
        _ => None,
    }
}

/// The new value of a cell of a column of type `t` edited to `value`.
pub fn cell_edit(t: CellType, value: &Json) -> (r: CellEdit)
    ensures
        match t {
            CellType::Integer => r matches CellEdit::Integer(x) && x == spec_integer_of(*value),
            CellType::Float => r is Float,
            CellType::Boolean => r matches CellEdit::Boolean(x) && x == (match *value {
                Json::Bool(b) => Some(b),
                _ => None,
            }),
            CellType::Text => match *value {
                Json::Text(s) => r matches CellEdit::Text(x) && x@ == s@,
                Json::Null => r matches CellEdit::Text(x) && x@ == Seq::<char>::empty(),
                _ => r is JsonText,
            },
        },
{
    match t {
        CellType::Integer => CellEdit::Integer(
            match value {
                Json::Number(n) => n.as_i64,
                Json::Text(s) => parse_i64(s.as_str()),
                _ => None,
            },
        ),
        CellType::Float => CellEdit::Float,
        CellType::Boolean => CellEdit::Boolean(
            match value {
                Json::Bool(b) => Some(*b),
                _ => None,
            },
        ),
        CellType::Text => match value {
            Json::Text(s) => CellEdit::Text(s.clone()),
            Json::Null => CellEdit::Text(String::new()),
            _ => CellEdit::JsonText,
        },
    }
}

} // verus!
