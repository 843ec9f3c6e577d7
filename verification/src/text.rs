//! Text comparison, ASCII case folding, and decimal rendering of counts.
use vstd::prelude::*;
use vstd::string::*;
use vstd::utf8::{encode_utf8, decode_utf8, encode_utf8_decode_utf8};
use crate::order::{bytes_lt, text_lt, lemma_bytes_lt_irreflexive, lemma_bytes_lt_asymmetric};

verus! {

/// Two byte strings that differ are ordered one way or the other.
pub proof fn lemma_bytes_lt_total(a: Seq<u8>, b: Seq<u8>)
    requires
        a != b,
    ensures
        bytes_lt(a, b) || bytes_lt(b, a),
    decreases a.len(),
{
    if a.len() > 0 && b.len() > 0 && a[0] == b[0] {
        assert(a.drop_first() != b.drop_first()) by {
            if a.drop_first() == b.drop_first() {
                assert(a =~= seq![a[0]] + a.drop_first());
                assert(b =~= seq![b[0]] + b.drop_first());
            }
        }
        lemma_bytes_lt_total(a.drop_first(), b.drop_first());
    } else if a.len() == 0 && b.len() == 0 {
        assert(a =~= b);
    }
}

/// Texts with the same UTF-8 bytes are the same text.
pub proof fn lemma_encode_injective(a: Seq<char>, b: Seq<char>)
    requires
        encode_utf8(a) == encode_utf8(b),
    ensures
        a == b,
{
    encode_utf8_decode_utf8(a);
    encode_utf8_decode_utf8(b);
}

/// Text order is total on distinct texts.
pub proof fn lemma_text_lt_total(a: Seq<char>, b: Seq<char>)
    requires
        a != b,
    ensures
        text_lt(a, b) || text_lt(b, a),
{
    if encode_utf8(a) == encode_utf8(b) {
        lemma_encode_injective(a, b);
    }
    lemma_bytes_lt_total(encode_utf8(a), encode_utf8(b));
}

/// Compares two texts as `String`'s `Ord` does: negative, zero or positive.
pub fn compare_text(a: &str, b: &str) -> (c: i8)
    ensures
        c == 0 <==> a@ == b@,
        c < 0 <==> text_lt(a@, b@),
        c > 0 <==> text_lt(b@, a@),
        -1 <= c <= 1,
{
    let x = a.as_bytes();
    let y = b.as_bytes();
    let ghost xs = encode_utf8(a@);
    let ghost ys = encode_utf8(b@);
    assert(x@ == xs);
    assert(y@ == ys);
    let n = x.len();
    let m = y.len();
    let mut i: usize = 0;
    let mut res: i8 = 0;
    let mut done = false;
    assert(xs.skip(0) =~= xs);
    assert(ys.skip(0) =~= ys);
    while i < n && i < m && !done
        invariant
            n == x@.len(),
            m == y@.len(),
            x@ == xs,
            y@ == ys,
            i <= n,
            i <= m,
            !done ==> xs.take(i as int) == ys.take(i as int),
            !done ==> (bytes_lt(xs, ys) == bytes_lt(xs.skip(i as int), ys.skip(i as int))),
            !done ==> (bytes_lt(ys, xs) == bytes_lt(ys.skip(i as int), xs.skip(i as int))),
            done ==> (res < 0 <==> bytes_lt(xs, ys)),
            done ==> (res > 0 <==> bytes_lt(ys, xs)),
            done ==> res != 0 && xs != ys,
            !done ==> res == 0,
            -1 <= res <= 1,
        decreases n - i + (if done { 0int } else { 1int }),
    {
        let p = x[i];
        let q = y[i];
        let ghost xr = xs.skip(i as int);
        let ghost yr = ys.skip(i as int);
        assert(xr[0] == p && yr[0] == q);
        if p < q {
            res = -1;
            done = true;
            proof {
                assert(bytes_lt(xr, yr));
                lemma_bytes_lt_asymmetric(xs, ys);
            }
        } else if p > q {
            res = 1;
            done = true;
            proof {
                assert(bytes_lt(yr, xr));
                lemma_bytes_lt_asymmetric(ys, xs);
            }
        } else {
            assert(xr.drop_first() =~= xs.skip(i + 1));
            assert(yr.drop_first() =~= ys.skip(i + 1));
            assert(xs.take(i + 1) =~= xs.take(i as int).push(p));
            assert(ys.take(i + 1) =~= ys.take(i as int).push(q));
            i = i + 1;
        }
    }
    if !done {
        if n < m {
            res = -1;
            assert(xs.skip(i as int).len() == 0);
            assert(bytes_lt(xs.skip(i as int), ys.skip(i as int)));
            assert(!bytes_lt(ys.skip(i as int), xs.skip(i as int)));
            assert(xs != ys);
        } else if n > m {
            res = 1;
            assert(ys.skip(i as int).len() == 0);
            assert(bytes_lt(ys.skip(i as int), xs.skip(i as int)));
            assert(!bytes_lt(xs.skip(i as int), ys.skip(i as int)));
            assert(xs != ys);
        } else {
            assert(xs =~= xs.take(i as int));
            assert(ys =~= ys.take(i as int));
            assert(xs == ys);
            proof {
                lemma_bytes_lt_irreflexive(xs);
                lemma_encode_injective(a@, b@);
            }
        }
    }
    proof {
        if res != 0 {
            if a@ == b@ {
                assert(xs == ys);
            }
        }
    }
    res
}

/// ASCII lowercase of a byte; other bytes are unchanged.
pub open spec fn ascii_lower(b: u8) -> u8 {
    if 65 <= b <= 90 {
        (b + 32) as u8
    } else {
        b
    }
}

/// An ASCII case-insensitive match of the UTF-8 bytes of two texts.
pub open spec fn ascii_ci_eq(a: Seq<char>, b: Seq<char>) -> bool {
    let x = encode_utf8(a);
    let y = encode_utf8(b);
    x.len() == y.len() && forall|i: int| 0 <= i < x.len() ==> ascii_lower(#[trigger] x[i]) == ascii_lower(y[i])
}

/// Whether two texts are equal when ASCII letters are taken without case, as
/// `str::eq_ignore_ascii_case` compares them.
pub fn eq_ignore_ascii_case(a: &str, b: &str) -> (r: bool)
    ensures
        r == ascii_ci_eq(a@, b@),
{
    let x = a.as_bytes();
    let y = b.as_bytes();
    if x.len() != y.len() {
        return false;
    }
    let mut i: usize = 0;
    while i < x.len()
        invariant
            x@ == encode_utf8(a@),
            y@ == encode_utf8(b@),
            x.len() == y.len(),
            i <= x.len(),
            forall|k: int| 0 <= k < i ==> ascii_lower(#[trigger] x@[k]) == ascii_lower(y@[k]),
        decreases x.len() - i,
    {
        let p = x[i];
        let q = y[i];
        let lp = if 65 <= p && p <= 90 { p + 32 } else { p };
        let lq = if 65 <= q && q <= 90 { q + 32 } else { q };
        if lp != lq {
            return false;
        }
        i = i + 1;
    }
    true
}

/// The decimal digit character of `d`.
pub open spec fn digit_char(d: nat) -> char {
    if d == 0 { '0' } else if d == 1 { '1' } else if d == 2 { '2' } else if d == 3 { '3' }
    else if d == 4 { '4' } else if d == 5 { '5' } else if d == 6 { '6' } else if d == 7 { '7' }
    else if d == 8 { '8' } else { '9' }
}

/// Decimal notation of `n`, without leading zeros.
pub open spec fn decimal(n: nat) -> Seq<char>
    decreases n,
{
    if n < 10 {
        seq![digit_char(n)]
    } else {
        decimal(n / 10) + seq![digit_char(n % 10)]
    }
}

fn digit_text(d: usize) -> (s: &'static str)
    requires
        d < 10,
    ensures
        s@ == seq![digit_char(d as nat)],
{
    proof {
        reveal_strlit("0");
        reveal_strlit("1");
        reveal_strlit("2");
        reveal_strlit("3");
        reveal_strlit("4");
        reveal_strlit("5");
        reveal_strlit("6");
        reveal_strlit("7");
        reveal_strlit("8");
        reveal_strlit("9");
    }
    if d == 0 { "0" } else if d == 1 { "1" } else if d == 2 { "2" } else if d == 3 { "3" }
    else if d == 4 { "4" } else if d == 5 { "5" } else if d == 6 { "6" } else if d == 7 { "7" }
    else if d == 8 { "8" } else { "9" }
}

/// Writes `n` in decimal, as `usize`'s `Display` does.
pub fn decimal_text(n: usize) -> (s: String)
    ensures
        s@ == decimal(n as nat),
    decreases n,
{
    if n < 10 {
        String::from_str(digit_text(n))
    } else {
        let mut s = decimal_text(n / 10);
        s.append(digit_text(n % 10));
        s
    }
}

} // verus!
