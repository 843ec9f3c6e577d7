//! Frequency tables: how often each distinct value occurs, in value order.
//!
//! A value is either a number, given by an order key (an integer whose order
//! and equality are those of the number), or a text. Numbers come before texts;
//! numbers are ordered numerically and texts as `String`s.
use vstd::prelude::*;
use crate::order::{
    SortRecord, sort_records, records_sorted, record_le, sum_of, indexed, permuted_rows, has_row,
    lemma_permuted_rows, record_key_eq, record_key_lt, lemma_record_sandwich, lemma_record_key_lt,
    text_lt, lemma_text_lt_transitive, lemma_sum_of_split, lemma_sum_of_const,
    lemma_sum_of_permutation, lemma_sum_of_pointwise, lemma_text_lt_ne,
};
use crate::text::compare_text;

verus! {

/// A tallied value: a number (by its order key) or a text.
#[derive(Debug)]
pub enum FreqKey {
    Num(u64),
    Text(String),
}

/// The two keys denote the same value.
pub open spec fn same_key(a: FreqKey, b: FreqKey) -> bool {
    match (a, b) {
        (FreqKey::Num(x), FreqKey::Num(y)) => x == y,
        (FreqKey::Text(s), FreqKey::Text(t)) => s@ == t@,
        _ => false,
    }
}

/// Order of values: numbers first, by key; then texts, as `String`s.
pub open spec fn key_lt(a: FreqKey, b: FreqKey) -> bool {
    match (a, b) {
        (FreqKey::Num(x), FreqKey::Num(y)) => x < y,
        (FreqKey::Num(_), FreqKey::Text(_)) => true,
        (FreqKey::Text(_), FreqKey::Num(_)) => false,
        (FreqKey::Text(s), FreqKey::Text(t)) => text_lt(s@, t@),
    }
}

/// The values that are present, in row order.
pub open spec fn present_keys(keys: Seq<Option<FreqKey>>) -> Seq<FreqKey>
    decreases keys.len(),
{
    if keys.len() == 0 {
        Seq::empty()
    } else {
        let rest = present_keys(keys.drop_last());
        match keys.last() {
            Some(k) => rest.push(k),
            None => rest,
        }
    }
}

pub open spec fn match_ind(k: FreqKey) -> spec_fn(FreqKey) -> int {
    |x: FreqKey| if same_key(x, k) { 1int } else { 0int }
}

/// Number of occurrences of the value `k` in `s`.
pub open spec fn occurrences(s: Seq<FreqKey>, k: FreqKey) -> int {
    sum_of(s, match_ind(k))
}

/// A frequency table.
#[derive(Debug)]
pub struct Tally {
    /// Number of rows.
    pub total: usize,
    /// Number of rows with a value.
    pub valid: usize,
    /// Each distinct value with its count, in value order.
    pub counts: Vec<(FreqKey, usize)>,
}

/// The tally of `keys`: exact counts of each distinct value, values strictly
/// increasing, every present value listed and every listed value present.
pub open spec fn is_tally_of(t: Tally, keys: Seq<Option<FreqKey>>) -> bool {
    let p = present_keys(keys);
    &&& t.total == keys.len()
    &&& t.valid == p.len()
    &&& forall|g: int, h: int|
        0 <= g < h < t.counts.len() ==> key_lt((#[trigger] t.counts@[g]).0, (#[trigger] t.counts@[h]).0)
    &&& forall|g: int|
        0 <= g < t.counts.len() ==> (#[trigger] t.counts@[g]).1 == occurrences(p, t.counts@[g].0)
    &&& forall|g: int| 0 <= g < t.counts.len() ==> (#[trigger] t.counts@[g]).1 > 0
    &&& forall|q: int| 0 <= q < p.len() ==> #[trigger] listed(t.counts@, p[q])
    &&& counted(t.counts@) == t.valid
}

pub open spec fn count_of() -> spec_fn((FreqKey, usize)) -> int {
    |e: (FreqKey, usize)| e.1 as int
}

/// The sum of the counts of a table.
pub open spec fn counted(c: Seq<(FreqKey, usize)>) -> int {
    sum_of(c, count_of())
}

/// Some entry of the table has the value `k`.
pub open spec fn listed(c: Seq<(FreqKey, usize)>, k: FreqKey) -> bool {
    exists|g: int| 0 <= g < c.len() && same_key(#[trigger] c[g].0, k)
}

/// The record `r` stands for the value `k`.
pub open spec fn rec_of(r: SortRecord, k: FreqKey) -> bool {
    match k {
        FreqKey::Num(c) => r.0 == 0 && r.1 == c && r.2@ == Seq::<char>::empty(),
        FreqKey::Text(s) => r.0 == 1 && r.1 == 0 && r.2@ == s@,
    }
}

pub open spec fn rec_ind(r0: SortRecord) -> spec_fn(SortRecord) -> int {
    |r: SortRecord| if record_key_eq(r, r0) { 1int } else { 0int }
}

pub proof fn lemma_key_lt_transitive(a: FreqKey, b: FreqKey, c: FreqKey)
    requires
        key_lt(a, b),
        key_lt(b, c),
    ensures
        key_lt(a, c),
{
    match (a, b, c) {
        (FreqKey::Text(x), FreqKey::Text(y), FreqKey::Text(z)) => {
            lemma_text_lt_transitive(x@, y@, z@);
        },
        _ => {},
    }
}

/// A value is not below a value that is the same.
proof fn lemma_key_lt_same(x: FreqKey, y: FreqKey)
    requires
        same_key(x, y),
    ensures
        !key_lt(x, y),
        !key_lt(y, x),
{
    match (x, y) {
        (FreqKey::Text(s), FreqKey::Text(t)) => {
            if text_lt(s@, t@) {
                lemma_text_lt_ne(s@, t@);
            }
            if text_lt(t@, s@) {
                lemma_text_lt_ne(t@, s@);
            }
        },
        _ => {},
    }
}

pub open spec fn strictly_ordered(c: Seq<(FreqKey, usize)>) -> bool {
    forall|g: int, h: int| 0 <= g < h < c.len() ==> key_lt((#[trigger] c[g]).0, (#[trigger] c[h]).0)
}

/// Two strictly ordered tables that list each other's values agree place by
/// place on the first `n` values.
proof fn lemma_same_places(a: Seq<(FreqKey, usize)>, b: Seq<(FreqKey, usize)>, n: int)
    requires
        strictly_ordered(a),
        strictly_ordered(b),
        forall|g: int| 0 <= g < a.len() ==> #[trigger] listed(b, a[g].0),
        forall|h: int| 0 <= h < b.len() ==> #[trigger] listed(a, b[h].0),
        0 <= n <= a.len(),
    ensures
        forall|g: int| 0 <= g < n ==> g < b.len() && same_key(#[trigger] a[g].0, b[g].0),
    decreases n,
{
    if n > 0 {
        lemma_same_places(a, b, n - 1);
        let g = n - 1;
        assert(listed(b, a[g].0));
        let h = choose|h: int| 0 <= h < b.len() && same_key(#[trigger] b[h].0, a[g].0);
        if h < g {
            assert(same_key(a[h].0, b[h].0));
            assert(key_lt(a[h].0, a[g].0));
            lemma_key_lt_same(a[h].0, a[g].0);
        } else if h > g {
            assert(listed(a, b[g].0));
            let g2 = choose|g2: int| 0 <= g2 < a.len() && same_key(#[trigger] a[g2].0, b[g].0);
            if g2 < g {
                assert(same_key(a[g2].0, b[g2].0));
                assert(key_lt(b[g2].0, b[g].0));
                lemma_key_lt_same(b[g2].0, b[g].0);
            } else if g2 > g {
                assert(key_lt(a[g].0, a[g2].0));
                assert(key_lt(b[g].0, b[h].0));
                assert(key_lt(a[g].0, b[g].0));
                assert(key_lt(b[g].0, a[g].0));
                lemma_key_lt_transitive(a[g].0, b[g].0, a[g].0);
                lemma_key_lt_same(a[g].0, a[g].0);
            }
        }
    }
}

/// A value that occurs is listed in every tally of the data.
proof fn lemma_occurring_listed(t: Tally, keys: Seq<Option<FreqKey>>, k: FreqKey)
    requires
        is_tally_of(t, keys),
        occurrences(present_keys(keys), k) > 0,
    ensures
        listed(t.counts@, k),
{
    let p = present_keys(keys);
    if forall|q: int| 0 <= q < p.len() ==> !same_key(#[trigger] p[q], k) {
        assert forall|q: int| 0 <= q < p.len() implies (match_ind(k))(#[trigger] p[q]) == 0 by {}
        lemma_sum_of_const(p, match_ind(k), 0);
    }
    let q = choose|q: int| 0 <= q < p.len() && same_key(#[trigger] p[q], k);
    assert(listed(t.counts@, p[q]));
    let g = choose|g: int| 0 <= g < t.counts.len() && same_key(#[trigger] t.counts@[g].0, p[q]);
    assert(same_key(t.counts@[g].0, k));
}

/// A frequency table is determined by the data: two tallies of the same values
/// list the same values in the same order, with the same counts.
pub proof fn lemma_tally_unique(t1: Tally, t2: Tally, keys: Seq<Option<FreqKey>>)
    requires
        is_tally_of(t1, keys),
        is_tally_of(t2, keys),
    ensures
        t1.counts.len() == t2.counts.len(),
        forall|g: int|
            0 <= g < t1.counts.len() ==> same_key((#[trigger] t1.counts@[g]).0, t2.counts@[g].0)
                && t1.counts@[g].1 == t2.counts@[g].1,
{
    let a = t1.counts@;
    let b = t2.counts@;
    let p = present_keys(keys);
    assert forall|g: int| 0 <= g < a.len() implies #[trigger] listed(b, a[g].0) by {
        assert(a[g].1 > 0);
        lemma_occurring_listed(t2, keys, a[g].0);
    }
    assert forall|h: int| 0 <= h < b.len() implies #[trigger] listed(a, b[h].0) by {
        assert(b[h].1 > 0);
        lemma_occurring_listed(t1, keys, b[h].0);
    }
    lemma_same_places(a, b, a.len() as int);
    lemma_same_places(b, a, b.len() as int);
    assert forall|g: int| 0 <= g < a.len() implies same_key((#[trigger] a[g]).0, b[g].0) && a[g].1 == b[g].1 by {
        assert(match_ind(a[g].0) =~= match_ind(b[g].0));
    }
}

fn key_record(k: &FreqKey, row: usize) -> (r: SortRecord)
    ensures
        rec_of(r, *k),
        r.3 == row,
{
    match k {
        FreqKey::Num(c) => (0u64, *c, String::new(), row),
        FreqKey::Text(s) => (1u64, 0u64, s.clone(), row),
    }
}

fn record_key(r: &SortRecord) -> (k: FreqKey)
    requires
        r.0 == 0 && r.2@ == Seq::<char>::empty() || r.0 == 1 && r.1 == 0,
    ensures
        rec_of(*r, k),
{
    if r.0 == 0 {
        FreqKey::Num(r.1)
    } else {
        FreqKey::Text(r.2.clone())
    }
}

fn same_record_key(a: &SortRecord, b: &SortRecord) -> (res: bool)
    ensures
        res == record_key_eq(*a, *b),
{
    a.0 == b.0 && a.1 == b.1 && compare_text(a.2.as_str(), b.2.as_str()) == 0
}

/// Counts how often each distinct value occurs.
pub fn tally(keys: &Vec<Option<FreqKey>>) -> (t: Tally)
    ensures
        is_tally_of(t, keys@),
{
    let n = keys.len();
    let mut recs: Vec<SortRecord> = Vec::new();
    let mut i: usize = 0;
    while i < n
        invariant
            n == keys.len(),
            i <= n,
            recs.len() == present_keys(keys@.take(i as int)).len(),
            indexed(recs@),
            forall|q: int| 0 <= q < recs.len() ==> rec_of(#[trigger] recs@[q], present_keys(keys@.take(i as int))[q]),
        decreases n - i,
    {
        assert(keys@.take(i + 1).drop_last() =~= keys@.take(i as int));
        match &keys[i] {
            Some(k) => {
                let r = key_record(k, recs.len());
                recs.push(r);
            },
            None => {},
        }
        i = i + 1;
    }
    assert(keys@.take(n as int) =~= keys@);
    let ghost p = present_keys(keys@);
    let m = recs.len();
    let ghost orig = recs@;
    sort_records(&mut recs);
    proof {
        lemma_permuted_rows(orig, recs@);
    }
    let mut counts: Vec<(FreqKey, usize)> = Vec::new();
    let mut i: usize = 0;
    while i < m
        invariant
            m == recs.len(),
            m == p.len(),
            orig.len() == m,
            permuted_rows(orig, recs@),
            recs@.to_multiset() == orig.to_multiset(),
            records_sorted(recs@),
            forall|q: int| 0 <= q < m ==> rec_of(#[trigger] orig[q], p[q]),
            i <= m,
            i == 0 <==> counts.len() == 0,
            0 < i < m ==> !record_key_eq(recs@[i - 1], recs@[i as int]),
            i > 0 ==> rec_of(recs@[i - 1], counts@.last().0),
            forall|g: int, h: int|
                0 <= g < h < counts.len() ==> key_lt((#[trigger] counts@[g]).0, (#[trigger] counts@[h]).0),
            forall|g: int| 0 <= g < counts.len() ==> (#[trigger] counts@[g]).1 == occurrences(p, counts@[g].0),
            forall|g: int| 0 <= g < counts.len() ==> (#[trigger] counts@[g]).1 > 0,
            forall|k: int| 0 <= k < i ==> exists|g: int| 0 <= g < counts.len() && rec_of(#[trigger] recs@[k], counts@[g].0),
            counted(counts@) == i,
        decreases m - i,
    {
        let mut j = i;
        while j + 1 < m && same_record_key(&recs[j + 1], &recs[i])
            invariant
                m == recs.len(),
                i <= j < m,
                forall|k: int| i <= k <= j ==> record_key_eq(#[trigger] recs@[k], recs@[i as int]),
            decreases m - j,
        {
            j = j + 1;
        }
        let ghost r0 = recs@[i as int];
        proof {
            assert(orig[r0.3 as int] == r0);
        }
        let key = record_key(&recs[i]);
        proof {
            // the count of the run is the number of occurrences
            lemma_sum_of_pointwise(orig, p, rec_ind(r0), match_ind(key));
            lemma_sum_of_permutation(orig, recs@, rec_ind(r0));
            let s = recs@;
            lemma_sum_of_split(s, i as int, rec_ind(r0));
            let rest = s.skip(i as int);
            lemma_sum_of_split(rest, j - i + 1, rec_ind(r0));
            let pre = s.take(i as int);
            let mid = rest.take(j - i + 1);
            let post = rest.skip(j - i + 1);
            assert forall|k: int| 0 <= k < pre.len() implies (rec_ind(r0))(#[trigger] pre[k]) == 0 by {
                assert(pre[k] == s[k]);
                if record_key_eq(s[k], r0) {
                    if k < i - 1 {
                        assert(record_le(s[k], s[i - 1]));
                    }
                    assert(record_le(s[i - 1], s[i as int]));
                    if k < i - 1 {
                        lemma_record_sandwich(s[k], s[i - 1], s[i as int]);
                    }
                }
            }
            lemma_sum_of_const(pre, rec_ind(r0), 0);
            assert forall|k: int| 0 <= k < mid.len() implies (rec_ind(r0))(#[trigger] mid[k]) == 1 by {
                assert(mid[k] == s[i + k]);
            }
            lemma_sum_of_const(mid, rec_ind(r0), 1);
            assert forall|k: int| 0 <= k < post.len() implies (rec_ind(r0))(#[trigger] post[k]) == 0 by {
                assert(post[k] == s[j + 1 + k]);
                if record_key_eq(s[j + 1 + k], r0) {
                    assert(record_le(s[j as int], s[j + 1]));
                    if k > 0 {
                        assert(record_le(s[j + 1], s[j + 1 + k]));
                        lemma_record_sandwich(s[j as int], s[j + 1], s[j + 1 + k]);
                    }
                }
            }
            lemma_sum_of_const(post, rec_ind(r0), 0);
            // order against the previous value
            if i > 0 {
                assert(record_le(s[i - 1], s[i as int]));
                lemma_record_key_lt(s[i - 1], s[i as int]);
                assert(key_lt(counts@.last().0, key));
            }
        }
        let ghost old_counts = counts@;
        counts.push((key, j - i + 1));
        proof {
            assert(counts@.drop_last() =~= old_counts);
            assert forall|g: int, h: int|
                0 <= g < h < counts.len() implies key_lt((#[trigger] counts@[g]).0, (#[trigger] counts@[h]).0) by {
                if h == counts.len() - 1 && g < h - 1 {
                    assert(key_lt(old_counts[g].0, old_counts[h - 1].0));
                    lemma_key_lt_transitive(old_counts[g].0, old_counts[h - 1].0, key);
                } else if h < counts.len() - 1 {
                    assert(counts@[g] == old_counts[g]);
                    assert(counts@[h] == old_counts[h]);
                }
            }
            assert forall|g: int| 0 <= g < counts.len() implies (#[trigger] counts@[g]).1 == occurrences(p, counts@[g].0) by {
                if g < counts.len() - 1 {
                    assert(counts@[g] == old_counts[g]);
                }
            }
            assert forall|g: int| 0 <= g < counts.len() implies (#[trigger] counts@[g]).1 > 0 by {
                if g < counts.len() - 1 {
                    assert(counts@[g] == old_counts[g]);
                }
            }
            assert forall|k: int| 0 <= k < j + 1 implies exists|g: int| 0 <= g < counts.len() && rec_of(#[trigger] recs@[k], counts@[g].0) by {
                if k < i {
                    let g = choose|g: int| 0 <= g < old_counts.len() && rec_of(recs@[k], old_counts[g].0);
                    assert(counts@[g] == old_counts[g]);
                } else {
                    assert(record_key_eq(recs@[k], r0));
                    assert(rec_of(recs@[k], counts@[counts.len() - 1].0));
                }
            }
        }
        i = j + 1;
    }
    proof {
        assert forall|q: int| 0 <= q < p.len() implies #[trigger] listed(counts@, p[q]) by {
            assert(has_row(recs@, q));
            let k = choose|k: int| 0 <= k < m && (#[trigger] recs@[k]).3 == q;
            assert(orig[q] == recs@[k]);
            let g = choose|g: int| 0 <= g < counts.len() && rec_of(#[trigger] recs@[k], counts@[g].0);
            assert(same_key(counts@[g].0, p[q]));
        }
    }
    Tally { total: n, valid: m, counts }
}


/// A row counts in a frequency table exactly when it has a value.
pub proof fn lemma_present_keys_step(keys: Seq<Option<FreqKey>>, k: Option<FreqKey>)
    ensures
        present_keys(Seq::<Option<FreqKey>>::empty()) == Seq::<FreqKey>::empty(),
        present_keys(keys.push(k)) == (match k {
            Some(x) => present_keys(keys).push(x),
            None => present_keys(keys),
        }),
{
    assert(keys.push(k).drop_last() =~= keys);
}

/// In a frequency table, numbers come before texts, numbers in increasing
/// order and texts in increasing `String` order, each value once.
pub proof fn lemma_tally_order(t: Tally, keys: Seq<Option<FreqKey>>, g: int, h: int)
    requires
        is_tally_of(t, keys),
        0 <= g < h < t.counts.len(),
    ensures
        t.counts@[h].0 is Num ==> t.counts@[g].0 is Num,
        (t.counts@[g].0, t.counts@[h].0) matches (FreqKey::Num(x), FreqKey::Num(y)) ==> x < y,
        (t.counts@[g].0, t.counts@[h].0) matches (FreqKey::Text(x), FreqKey::Text(y)) ==> text_lt(x@, y@),
{
    assert(key_lt(t.counts@[g].0, t.counts@[h].0));
}

} // verus!
