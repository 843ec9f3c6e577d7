//! Sorting keys, their order, and sums over sequences that do not depend on
//! the order of the elements.
use vstd::prelude::*;
use vstd::multiset::*;
use vstd::seq_lib::*;
use vstd::utf8::encode_utf8;

verus! {

/// A sort record: two integer keys, a text key and the row it came from.
/// Records are ordered lexicographically, field by field.
pub type SortRecord = (u64, u64, String, usize);

/// Lexicographic order on byte strings (a proper prefix comes first).
pub open spec fn bytes_lt(a: Seq<u8>, b: Seq<u8>) -> bool
    decreases a.len(),
{
    if b.len() == 0 {
        false
    } else if a.len() == 0 {
        true
    } else if a[0] < b[0] {
        true
    } else if a[0] > b[0] {
        false
    } else {
        bytes_lt(a.drop_first(), b.drop_first())
    }
}

/// Order of `String` values: lexicographic on their UTF-8 bytes.
pub open spec fn text_lt(a: Seq<char>, b: Seq<char>) -> bool {
    bytes_lt(encode_utf8(a), encode_utf8(b))
}

pub open spec fn record_same(a: SortRecord, b: SortRecord) -> bool {
    a.0 == b.0 && a.1 == b.1 && a.2@ == b.2@ && a.3 == b.3
}

pub open spec fn record_lt(a: SortRecord, b: SortRecord) -> bool {
    ||| a.0 < b.0
    ||| a.0 == b.0 && a.1 < b.1
    ||| a.0 == b.0 && a.1 == b.1 && text_lt(a.2@, b.2@)
    ||| a.0 == b.0 && a.1 == b.1 && a.2@ == b.2@ && a.3 < b.3
}

pub open spec fn record_le(a: SortRecord, b: SortRecord) -> bool {
    record_lt(a, b) || record_same(a, b)
}

/// Every record is at most every later one.
pub open spec fn records_sorted(s: Seq<SortRecord>) -> bool {
    forall|i: int, j: int| 0 <= i < j < s.len() ==> record_le(#[trigger] s[i], #[trigger] s[j])
}

/// Calls `slice::sort` of std on the records. Its documentation promises a sort in
/// ascending order by `Ord`, which for tuples is lexicographic and for `String`
/// compares the UTF-8 bytes lexicographically; the elements are only moved.
#[verifier::external_body]
pub(crate) fn sort_records(v: &mut Vec<SortRecord>)
    ensures
        final(v)@.to_multiset() == old(v)@.to_multiset(),
        records_sorted(final(v)@),
{
    v.sort();
}

pub proof fn lemma_bytes_lt_irreflexive(a: Seq<u8>)
    ensures
        !bytes_lt(a, a),
    decreases a.len(),
{
    if a.len() > 0 {
        lemma_bytes_lt_irreflexive(a.drop_first());
    }
}

pub proof fn lemma_bytes_lt_asymmetric(a: Seq<u8>, b: Seq<u8>)
    requires
        bytes_lt(a, b),
    ensures
        !bytes_lt(b, a),
        a != b,
    decreases a.len(),
{
    if a.len() > 0 && b.len() > 0 && a[0] == b[0] {
        lemma_bytes_lt_asymmetric(a.drop_first(), b.drop_first());
    }
    if a == b {
        lemma_bytes_lt_irreflexive(a);
    }
}

pub proof fn lemma_bytes_lt_transitive(a: Seq<u8>, b: Seq<u8>, c: Seq<u8>)
    requires
        bytes_lt(a, b),
        bytes_lt(b, c),
    ensures
        bytes_lt(a, c),
    decreases a.len(),
{
    if a.len() > 0 && b.len() > 0 && c.len() > 0 && a[0] == b[0] && b[0] == c[0] {
        lemma_bytes_lt_transitive(a.drop_first(), b.drop_first(), c.drop_first());
    }
}

/// Two texts in both orders are equal.
pub proof fn lemma_text_antisymmetric(a: Seq<char>, b: Seq<char>)
    requires
        text_lt(a, b) || a == b,
        text_lt(b, a) || a == b,
    ensures
        a == b,
{
    if text_lt(a, b) {
        lemma_bytes_lt_asymmetric(encode_utf8(a), encode_utf8(b));
    }
}

pub proof fn lemma_text_lt_ne(a: Seq<char>, b: Seq<char>)
    requires
        text_lt(a, b),
    ensures
        a != b,
{
    if a == b {
        lemma_bytes_lt_irreflexive(encode_utf8(a));
    }
}

pub proof fn lemma_text_lt_transitive(a: Seq<char>, b: Seq<char>, c: Seq<char>)
    requires
        text_lt(a, b),
        text_lt(b, c),
    ensures
        text_lt(a, c),
{
    lemma_bytes_lt_transitive(encode_utf8(a), encode_utf8(b), encode_utf8(c));
}

/// Sum of `f` over the elements of `s`.
pub open spec fn sum_of<A>(s: Seq<A>, f: spec_fn(A) -> int) -> int
    decreases s.len(),
{
    if s.len() == 0 {
        0
    } else {
        sum_of(s.drop_last(), f) + f(s.last())
    }
}

pub proof fn lemma_sum_of_append<A>(a: Seq<A>, b: Seq<A>, f: spec_fn(A) -> int)
    ensures
        sum_of(a + b, f) == sum_of(a, f) + sum_of(b, f),
    decreases b.len(),
{
    if b.len() == 0 {
        assert(a + b =~= a);
    } else {
        assert((a + b).drop_last() =~= a + b.drop_last());
        lemma_sum_of_append(a, b.drop_last(), f);
    }
}

pub proof fn lemma_sum_of_split<A>(s: Seq<A>, i: int, f: spec_fn(A) -> int)
    requires
        0 <= i <= s.len(),
    ensures
        sum_of(s, f) == sum_of(s.take(i), f) + sum_of(s.skip(i), f),
{
    assert(s =~= s.take(i) + s.skip(i));
    lemma_sum_of_append(s.take(i), s.skip(i), f);
}

pub proof fn lemma_sum_of_remove<A>(s: Seq<A>, i: int, f: spec_fn(A) -> int)
    requires
        0 <= i < s.len(),
    ensures
        sum_of(s, f) == sum_of(s.remove(i), f) + f(s[i]),
{
    let a = s.take(i);
    let b = s.skip(i + 1);
    assert(s =~= a + seq![s[i]] + b);
    assert(s.remove(i) =~= a + b);
    lemma_sum_of_append(a + seq![s[i]], b, f);
    lemma_sum_of_append(a, seq![s[i]], f);
    lemma_sum_of_append(a, b, f);
    let one = seq![s[i]];
    assert(one.drop_last() =~= Seq::<A>::empty());
    assert(sum_of(one.drop_last(), f) == 0);
    assert(sum_of(one, f) == f(s[i]));
}

/// The sum does not depend on the order of the elements.
pub proof fn lemma_sum_of_permutation<A>(a: Seq<A>, b: Seq<A>, f: spec_fn(A) -> int)
    requires
        a.to_multiset() == b.to_multiset(),
    ensures
        sum_of(a, f) == sum_of(b, f),
    decreases a.len(),
{
    broadcast use group_multiset_axioms;

    to_multiset_len(a);
    to_multiset_len(b);
    if a.len() > 0 {
        let x = a.last();
        to_multiset_contains(a, x);
        assert(a.contains(x)) by {
            assert(a[a.len() - 1] == x);
        }
        to_multiset_contains(b, x);
        let j = choose|j: int| 0 <= j < b.len() && b[j] == x;
        to_multiset_remove(a, a.len() - 1);
        to_multiset_remove(b, j);
        assert(a.remove(a.len() - 1) =~= a.drop_last());
        lemma_sum_of_permutation(a.drop_last(), b.remove(j), f);
        lemma_sum_of_remove(b, j, f);
    }
}

pub proof fn lemma_sum_of_update<A>(s: Seq<A>, i: int, x: A, f: spec_fn(A) -> int)
    requires
        0 <= i < s.len(),
    ensures
        sum_of(s.update(i, x), f) == sum_of(s, f) - f(s[i]) + f(x),
{
    lemma_sum_of_remove(s, i, f);
    lemma_sum_of_remove(s.update(i, x), i, f);
    assert(s.update(i, x).remove(i) =~= s.remove(i));
}

/// Mapping both sides of a permutation gives a permutation.
pub proof fn lemma_map_permutation<A, B>(a: Seq<A>, b: Seq<A>, f: spec_fn(A) -> B)
    requires
        a.to_multiset() == b.to_multiset(),
    ensures
        a.map_values(f).to_multiset() == b.map_values(f).to_multiset(),
    decreases a.len(),
{
    broadcast use group_multiset_axioms;

    to_multiset_len(a);
    to_multiset_len(b);
    if a.len() == 0 {
        assert(a.map_values(f) =~= Seq::<B>::empty());
        assert(b.map_values(f) =~= Seq::<B>::empty());
    } else {
        let x = a.last();
        to_multiset_contains(a, x);
        assert(a.contains(x)) by {
            assert(a[a.len() - 1] == x);
        }
        to_multiset_contains(b, x);
        let j = choose|j: int| 0 <= j < b.len() && b[j] == x;
        to_multiset_remove(a, a.len() - 1);
        to_multiset_remove(b, j);
        assert(a.remove(a.len() - 1) =~= a.drop_last());
        lemma_map_permutation(a.drop_last(), b.remove(j), f);
        let fa = a.map_values(f);
        let fb = b.map_values(f);
        assert(fa.remove(fa.len() - 1) =~= a.drop_last().map_values(f));
        assert(fb.remove(j) =~= b.remove(j).map_values(f));
        to_multiset_remove(fa, fa.len() - 1);
        to_multiset_remove(fb, j);
        to_multiset_contains(fa, f(x));
        assert(fa.contains(f(x))) by {
            assert(fa[fa.len() - 1] == f(x));
        }
        to_multiset_contains(fb, f(x));
        assert(fb[j] == f(x));
        assert(fa.to_multiset() =~= fa.remove(fa.len() - 1).to_multiset().insert(f(x)));
        assert(fb.to_multiset() =~= fb.remove(j).to_multiset().insert(f(x)));
    }
}

/// Sums of two functions that agree position by position are equal.
pub proof fn lemma_sum_of_pointwise<A, B>(
    a: Seq<A>,
    b: Seq<B>,
    f: spec_fn(A) -> int,
    g: spec_fn(B) -> int,
)
    requires
        a.len() == b.len(),
        forall|i: int| 0 <= i < a.len() ==> f(#[trigger] a[i]) == g(b[i]),
    ensures
        sum_of(a, f) == sum_of(b, g),
    decreases a.len(),
{
    if a.len() > 0 {
        assert(f(a[a.len() - 1]) == g(b[b.len() - 1]));
        lemma_sum_of_pointwise(a.drop_last(), b.drop_last(), f, g);
    }
}

/// A sum of terms that add up pointwise is the sum of the sums.
pub proof fn lemma_sum_of_add<A>(s: Seq<A>, f: spec_fn(A) -> int, g: spec_fn(A) -> int, h: spec_fn(A) -> int)
    requires
        forall|i: int| 0 <= i < s.len() ==> h(#[trigger] s[i]) == f(s[i]) + g(s[i]),
    ensures
        sum_of(s, h) == sum_of(s, f) + sum_of(s, g),
    decreases s.len(),
{
    if s.len() > 0 {
        assert(h(s[s.len() - 1]) == f(s[s.len() - 1]) + g(s[s.len() - 1]));
        lemma_sum_of_add(s.drop_last(), f, g, h);
    }
}

/// Sums are monotone in their terms.
pub proof fn lemma_sum_of_le<A>(s: Seq<A>, f: spec_fn(A) -> int, g: spec_fn(A) -> int)
    requires
        forall|i: int| 0 <= i < s.len() ==> f(#[trigger] s[i]) <= g(s[i]),
    ensures
        sum_of(s, f) <= sum_of(s, g),
    decreases s.len(),
{
    if s.len() > 0 {
        assert(f(s[s.len() - 1]) <= g(s[s.len() - 1]));
        lemma_sum_of_le(s.drop_last(), f, g);
    }
}

/// A sum of a constant term.
pub proof fn lemma_sum_of_const<A>(s: Seq<A>, f: spec_fn(A) -> int, c: int)
    requires
        forall|i: int| 0 <= i < s.len() ==> f(#[trigger] s[i]) == c,
    ensures
        sum_of(s, f) == c * s.len(),
    decreases s.len(),
{
    if s.len() > 0 {
        assert(f(s[s.len() - 1]) == c);
        lemma_sum_of_const(s.drop_last(), f, c);
        let n = s.len() as int;
        assert(c * (n - 1) + c == c * n) by (nonlinear_arith);
    }
}

/// A sum of non-negative terms is non-negative, and zero only when every term is.
pub proof fn lemma_sum_of_nonneg<A>(s: Seq<A>, f: spec_fn(A) -> int)
    requires
        forall|i: int| 0 <= i < s.len() ==> f(#[trigger] s[i]) >= 0,
    ensures
        sum_of(s, f) >= 0,
        sum_of(s, f) == 0 <==> forall|i: int| 0 <= i < s.len() ==> f(#[trigger] s[i]) == 0,
    decreases s.len(),
{
    if s.len() > 0 {
        assert forall|i: int| 0 <= i < s.len() - 1 implies f(#[trigger] s.drop_last()[i]) >= 0 by {
            assert(s.drop_last()[i] == s[i]);
        }
        lemma_sum_of_nonneg(s.drop_last(), f);
        assert(f(s[s.len() - 1]) >= 0);
        if sum_of(s, f) == 0 {
            assert forall|i: int| 0 <= i < s.len() implies f(#[trigger] s[i]) == 0 by {
                if i < s.len() - 1 {
                    assert(s.drop_last()[i] == s[i]);
                }
            }
        }
        if forall|i: int| 0 <= i < s.len() ==> f(#[trigger] s[i]) == 0 {
            assert forall|i: int| 0 <= i < s.len() - 1 implies f(#[trigger] s.drop_last()[i])
                == 0 by {
                assert(s.drop_last()[i] == s[i]);
            }
        }
    }
}

/// Some record carries row `m`.
pub open spec fn has_row(recs: Seq<SortRecord>, m: int) -> bool {
    exists|k: int| 0 <= k < recs.len() && (#[trigger] recs[k]).3 == m
}

/// Each record carries its own position as its row.
pub open spec fn indexed(orig: Seq<SortRecord>) -> bool {
    forall|i: int| 0 <= i < orig.len() ==> (#[trigger] orig[i]).3 == i
}

/// What a permutation of records that carry their own positions gives: every
/// record is the one first given for its row, rows do not repeat, and every row occurs.
pub open spec fn permuted_rows(orig: Seq<SortRecord>, recs: Seq<SortRecord>) -> bool {
    &&& recs.len() == orig.len()
    &&& forall|k: int|
        0 <= k < recs.len() ==> (#[trigger] recs[k]).3 < orig.len() && orig[recs[k].3 as int] == recs[k]
    &&& forall|k: int, l: int|
        0 <= k < recs.len() && 0 <= l < recs.len() && k != l ==> (#[trigger] recs[k]).3
            != (#[trigger] recs[l]).3
    &&& forall|m: int| 0 <= m < orig.len() ==> #[trigger] has_row(recs, m)
}

pub proof fn lemma_permuted_rows(orig: Seq<SortRecord>, recs: Seq<SortRecord>)
    requires
        indexed(orig),
        recs.to_multiset() == orig.to_multiset(),
    ensures
        permuted_rows(orig, recs),
{
    broadcast use group_multiset_axioms;

    to_multiset_len(recs);
    to_multiset_len(orig);
    assert forall|k: int| 0 <= k < recs.len() implies (#[trigger] recs[k]).3 < orig.len()
        && orig[recs[k].3 as int] == recs[k] by {
        to_multiset_contains(recs, recs[k]);
        assert(recs.contains(recs[k]));
        to_multiset_contains(orig, recs[k]);
        let m = choose|m: int| 0 <= m < orig.len() && orig[m] == recs[k];
        assert(orig[m].3 == m);
    }
    assert(orig.no_duplicates()) by {
        assert forall|a: int, b: int| 0 <= a < orig.len() && 0 <= b < orig.len() && a != b implies orig[a]
            != orig[b] by {
            assert(orig[a].3 == a && orig[b].3 == b);
        }
    }
    orig.lemma_multiset_has_no_duplicates();
    recs.lemma_multiset_has_no_duplicates_conv();
    assert forall|k: int, l: int|
        0 <= k < recs.len() && 0 <= l < recs.len() && k != l implies (#[trigger] recs[k]).3
        != (#[trigger] recs[l]).3 by {
        if recs[k].3 == recs[l].3 {
            assert(orig[recs[k].3 as int] == recs[k]);
            assert(orig[recs[l].3 as int] == recs[l]);
        }
    }
    assert forall|m: int| 0 <= m < orig.len() implies #[trigger] has_row(recs, m) by {
        assert(orig[m].3 == m);
        to_multiset_contains(orig, orig[m]);
        assert(orig.contains(orig[m]));
        to_multiset_contains(recs, orig[m]);
        let k = choose|k: int| 0 <= k < recs.len() && recs[k] == orig[m];
        assert(recs[k].3 == m);
    }
}

/// The key of a record: all of it but the row.
pub open spec fn record_key_eq(a: SortRecord, b: SortRecord) -> bool {
    a.0 == b.0 && a.1 == b.1 && a.2@ == b.2@
}

/// In a sorted run `a <= b <= c`, if `a` and `c` share their key, so does `b`.
pub proof fn lemma_record_sandwich(a: SortRecord, b: SortRecord, c: SortRecord)
    requires
        record_le(a, b),
        record_le(b, c),
        record_key_eq(a, c),
    ensures
        record_key_eq(a, b),
{
    if a.0 == b.0 && a.1 == b.1 && b.0 == c.0 && b.1 == c.1 {
        if text_lt(a.2@, b.2@) && text_lt(b.2@, c.2@) {
            lemma_text_lt_transitive(a.2@, b.2@, c.2@);
            lemma_text_lt_ne(a.2@, c.2@);
        } else if text_lt(a.2@, b.2@) {
            lemma_text_antisymmetric(b.2@, c.2@);
        } else if text_lt(b.2@, c.2@) {
            lemma_text_antisymmetric(a.2@, b.2@);
        }
    }
}

/// A record before `b` in order, with a different key, has a smaller key.
pub open spec fn record_key_lt(a: SortRecord, b: SortRecord) -> bool {
    ||| a.0 < b.0
    ||| a.0 == b.0 && a.1 < b.1
    ||| a.0 == b.0 && a.1 == b.1 && text_lt(a.2@, b.2@)
}

pub proof fn lemma_record_key_lt(a: SortRecord, b: SortRecord)
    requires
        record_le(a, b),
        !record_key_eq(a, b),
    ensures
        record_key_lt(a, b),
{
}

} // verus!
