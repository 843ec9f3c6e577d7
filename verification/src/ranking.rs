//! Midranks with ties, and the tie correction term of rank-based tests.
//!
//! Values are given by order keys: integers whose order and equality are those
//! of the values they stand for. Ranks are returned doubled, so that a midrank
//! such as 2.5 is the exact integer 5.
use vstd::prelude::*;
use crate::order::{
    SortRecord, sort_records, records_sorted, record_le, sum_of, lemma_sum_of_split, lemma_sum_of_const,
    lemma_sum_of_permutation, lemma_sum_of_pointwise, has_row, lemma_permuted_rows,
    lemma_sum_of_update, lemma_sum_of_remove, lemma_sum_of_nonneg, text_lt, lemma_sum_of_add,
    lemma_sum_of_le,
};
use crate::grouping::{distinct_texts, find_text, distinct_sorted, texts_of};

verus! {

pub open spec fn lt_ind(v: u64) -> spec_fn(u64) -> int {
    |k: u64| if k < v { 1int } else { 0int }
}

pub open spec fn eq_ind(v: u64) -> spec_fn(u64) -> int {
    |k: u64| if k == v { 1int } else { 0int }
}

/// Number of keys in `s` below `v`.
pub open spec fn count_lt(s: Seq<u64>, v: u64) -> int {
    sum_of(s, lt_ind(v))
}

/// Number of keys in `s` equal to `v`.
pub open spec fn count_eq(s: Seq<u64>, v: u64) -> int {
    sum_of(s, eq_ind(v))
}

/// Twice the midrank of `v` among `s`: the ranks of a tie group are averaged, so
/// the midrank is (number below) + (size of the tie group + 1) / 2.
pub open spec fn midrank2(s: Seq<u64>, v: u64) -> int {
    2 * count_lt(s, v) + count_eq(s, v) + 1
}

pub open spec fn as_int() -> spec_fn(u64) -> int {
    |x: u64| x as int
}

/// Sum of a sequence of integers.
pub open spec fn total(s: Seq<u64>) -> int {
    sum_of(s, as_int())
}

/// Tie correction: the sum over tie groups of t^3 - t, written as the sum over
/// the elements of (size of its tie group)^2 - 1.
pub open spec fn tie_total(s: Seq<u64>) -> int {
    sum_of(s, tie_term(s))
}

pub open spec fn tie_term(s: Seq<u64>) -> spec_fn(u64) -> int {
    |k: u64| count_eq(s, k) * count_eq(s, k) - 1
}

pub open spec fn tie_of(keys: Seq<u64>) -> spec_fn(SortRecord) -> int {
    |rec: SortRecord| count_eq(keys, rec.0) * count_eq(keys, rec.0) - 1
}

pub open spec fn rec_lt_ind(v: u64) -> spec_fn(SortRecord) -> int {
    |r: SortRecord| if r.0 < v { 1int } else { 0int }
}

pub open spec fn rec_eq_ind(v: u64) -> spec_fn(SortRecord) -> int {
    |r: SortRecord| if r.0 == v { 1int } else { 0int }
}

pub open spec fn rank_of(keys: Seq<u64>) -> spec_fn(SortRecord) -> int {
    |rec: SortRecord| midrank2(keys, rec.0)
}

/// The records made for `keys`: one per row, carrying the row's key and index.
pub open spec fn keyed(recs: Seq<SortRecord>, keys: Seq<u64>) -> bool {
    &&& recs.len() == keys.len()
    &&& forall|i: int|
        0 <= i < recs.len() ==> (#[trigger] recs[i]).0 == keys[i] && recs[i].1 == 0 && recs[i].3
            == i
}

/// What a sorted permutation of the keyed records gives.
pub open spec fn sorted_rows(recs: Seq<SortRecord>, keys: Seq<u64>) -> bool {
    &&& recs.len() == keys.len()
    &&& forall|k: int|
        0 <= k < recs.len() ==> (#[trigger] recs[k]).3 < keys.len() && recs[k].0 == keys[recs[k].3 as int]
    &&& forall|k: int, l: int|
        0 <= k < recs.len() && 0 <= l < recs.len() && k != l ==> (#[trigger] recs[k]).3
            != (#[trigger] recs[l]).3
    &&& forall|m: int| 0 <= m < keys.len() ==> #[trigger] has_row(recs, m)
    &&& forall|k: int, l: int|
        0 <= k <= l < recs.len() ==> (#[trigger] recs[k]).0 <= (#[trigger] recs[l]).0
}

fn keyed_records(keys: &Vec<u64>) -> (recs: Vec<SortRecord>)
    ensures
        keyed(recs@, keys@),
{
    let mut recs: Vec<SortRecord> = Vec::new();
    let n = keys.len();
    let mut i: usize = 0;
    while i < n
        invariant
            n == keys.len(),
            i <= n,
            recs.len() == i,
            forall|m: int|
                0 <= m < i ==> (#[trigger] recs@[m]).0 == keys@[m] && recs@[m].1 == 0
                    && recs@[m].3 == m,
        decreases n - i,
    {
        recs.push((keys[i], 0u64, String::new(), i));
        i = i + 1;
    }
    recs
}

proof fn lemma_sorted_rows(orig: Seq<SortRecord>, recs: Seq<SortRecord>, keys: Seq<u64>)
    requires
        keyed(orig, keys),
        recs.to_multiset() == orig.to_multiset(),
        records_sorted(recs),
    ensures
        sorted_rows(recs, keys),
{
    lemma_permuted_rows(orig, recs);
    assert forall|k: int, l: int| 0 <= k <= l < recs.len() implies (#[trigger] recs[k]).0
        <= (#[trigger] recs[l]).0 by {
        if k < l {
            assert(record_le(recs[k], recs[l]));
        }
    }
}

/// Counts over the keys equal counts over the sorted records.
proof fn lemma_counts_carry(
    orig: Seq<SortRecord>,
    recs: Seq<SortRecord>,
    keys: Seq<u64>,
    v: u64,
)
    requires
        keyed(orig, keys),
        recs.to_multiset() == orig.to_multiset(),
    ensures
        count_lt(keys, v) == sum_of(recs, rec_lt_ind(v)),
        count_eq(keys, v) == sum_of(recs, rec_eq_ind(v)),
{
    lemma_sum_of_pointwise(orig, keys, rec_lt_ind(v), lt_ind(v));
    lemma_sum_of_pointwise(orig, keys, rec_eq_ind(v), eq_ind(v));
    lemma_sum_of_permutation(orig, recs, rec_lt_ind(v));
    lemma_sum_of_permutation(orig, recs, rec_eq_ind(v));
}

/// In sorted records, a maximal run `i..=j` of key `v` has `i` records below it
/// and `j - i + 1` records equal to it.
proof fn lemma_group_counts(recs: Seq<SortRecord>, i: int, j: int, v: u64)
    requires
        0 <= i <= j < recs.len(),
        forall|k: int, l: int|
            0 <= k <= l < recs.len() ==> (#[trigger] recs[k]).0 <= (#[trigger] recs[l]).0,
        forall|k: int| i <= k <= j ==> (#[trigger] recs[k]).0 == v,
        i == 0 || recs[i - 1].0 != v,
        j + 1 == recs.len() || recs[j + 1].0 != v,
    ensures
        sum_of(recs, rec_lt_ind(v)) == i,
        sum_of(recs, rec_eq_ind(v)) == j - i + 1,
{
    let pre = recs.take(i);
    let rest = recs.skip(i);
    let mid = rest.take(j - i + 1);
    let post = rest.skip(j - i + 1);
    lemma_sum_of_split(recs, i, rec_lt_ind(v));
    lemma_sum_of_split(recs, i, rec_eq_ind(v));
    lemma_sum_of_split(rest, j - i + 1, rec_lt_ind(v));
    lemma_sum_of_split(rest, j - i + 1, rec_eq_ind(v));
    assert forall|k: int| 0 <= k < pre.len() implies (rec_lt_ind(v))(#[trigger] pre[k]) == 1
        && (rec_eq_ind(v))(pre[k]) == 0 by {
        assert(pre[k] == recs[k]);
        assert(recs[k].0 <= recs[i - 1].0);
        assert(recs[i - 1].0 <= recs[i].0);
    }
    lemma_sum_of_const(pre, rec_lt_ind(v), 1);
    lemma_sum_of_const(pre, rec_eq_ind(v), 0);
    assert forall|k: int| 0 <= k < mid.len() implies (rec_lt_ind(v))(#[trigger] mid[k]) == 0
        && (rec_eq_ind(v))(mid[k]) == 1 by {
        assert(mid[k] == recs[i + k]);
    }
    lemma_sum_of_const(mid, rec_lt_ind(v), 0);
    lemma_sum_of_const(mid, rec_eq_ind(v), 1);
    assert forall|k: int| 0 <= k < post.len() implies (rec_lt_ind(v))(#[trigger] post[k]) == 0
        && (rec_eq_ind(v))(post[k]) == 0 by {
        assert(post[k] == recs[j + 1 + k]);
        assert(recs[j].0 <= recs[j + 1].0);
        assert(recs[j + 1].0 <= recs[j + 1 + k].0);
    }
    lemma_sum_of_const(post, rec_lt_ind(v), 0);
    lemma_sum_of_const(post, rec_eq_ind(v), 0);
}

/// End of the run of equal keys that starts at `i`.
fn run_end(recs: &Vec<SortRecord>, i: usize) -> (j: usize)
    requires
        i < recs.len(),
    ensures
        i <= j < recs.len(),
        forall|k: int| i <= k <= j ==> (#[trigger] recs@[k]).0 == recs@[i as int].0,
        j + 1 == recs.len() || recs@[j + 1].0 != recs@[i as int].0,
{
    let n = recs.len();
    let mut j = i;
    while j + 1 < n && recs[j + 1].0 == recs[i].0
        invariant
            n == recs.len(),
            i <= j < n,
            forall|k: int| i <= k <= j ==> (#[trigger] recs@[k]).0 == recs@[i as int].0,
        decreases n - j,
    {
        j = j + 1;
    }
    j
}

/// Midranks of the keys, doubled: tied keys share the average of the ranks
/// 1..=n that they occupy in ascending order. The doubled ranks sum to n(n+1).
pub fn midranks2(keys: &Vec<u64>) -> (r: Vec<u64>)
    requires
        keys.len() < 0x4000_0000_0000_0000,
    ensures
        r.len() == keys.len(),
        forall|i: int| 0 <= i < keys.len() ==> r@[i] == midrank2(keys@, #[trigger] keys@[i]),
        total(r@) == keys.len() * (keys.len() + 1),
{
    let n = keys.len();
    let mut recs = keyed_records(keys);
    let ghost orig = recs@;
    sort_records(&mut recs);
    proof {
        lemma_sorted_rows(orig, recs@, keys@);
    }
    let mut r: Vec<u64> = Vec::new();
    let mut z: usize = 0;
    while z < n
        invariant
            n == keys.len(),
            z <= n,
            r.len() == z,
        decreases n - z,
    {
        r.push(0);
        z = z + 1;
    }
    let mut i: usize = 0;
    while i < n
        invariant
            n == keys.len(),
            n < 0x4000_0000_0000_0000,
            keyed(orig, keys@),
            recs@.to_multiset() == orig.to_multiset(),
            sorted_rows(recs@, keys@),
            r.len() == n,
            i <= n,
            i == 0 || i == n || recs@[i - 1].0 != recs@[i as int].0,
            forall|k: int| 0 <= k < i ==> r@[(#[trigger] recs@[k]).3 as int] == midrank2(keys@, recs@[k].0),
            sum_of(recs@.take(i as int), rank_of(keys@)) == i * (i + 1),
        decreases n - i,
    {
        let j = run_end(&recs, i);
        let ghost v = recs@[i as int].0;
        proof {
            assert(i == 0 || recs@[i - 1].0 != v);
            lemma_group_counts(recs@, i as int, j as int, v);
            lemma_counts_carry(orig, recs@, keys@, v);
        }
        let avg: u64 = i as u64 + j as u64 + 2;
        let mut k = i;
        while k <= j
            invariant
                n == keys.len(),
                i <= k <= j + 1,
                j < n,
                r.len() == n,
                sorted_rows(recs@, keys@),
                avg == midrank2(keys@, v),
                forall|m: int| i <= m <= j ==> (#[trigger] recs@[m]).0 == v,
                forall|m: int| 0 <= m < k ==> r@[(#[trigger] recs@[m]).3 as int] == midrank2(keys@, recs@[m].0),
            decreases j + 1 - k,
        {
            let row = recs[k].3;
            proof {
                assert(recs@[k as int].3 == row);
            }
            r.set(row, avg);
            proof {
                assert forall|m: int| 0 <= m < k + 1 implies r@[(#[trigger] recs@[m]).3 as int]
                    == midrank2(keys@, recs@[m].0) by {
                    if m < k {
                        assert(recs@[m].3 != recs@[k as int].3);
                    }
                }
            }
            k = k + 1;
        }
        proof {
            let t = recs@.take(j + 1);
            assert(t.take(i as int) =~= recs@.take(i as int));
            lemma_sum_of_split(t, i as int, rank_of(keys@));
            let g = t.skip(i as int);
            assert forall|m: int| 0 <= m < g.len() implies rank_of(keys@)(#[trigger] g[m]) == (i + j + 2) as int by {
                assert(g[m] == recs@[i + m]);
                assert(recs@[i + m].0 == v);
                assert(rank_of(keys@)(g[m]) == midrank2(keys@, v));
            }
            lemma_sum_of_const(g, rank_of(keys@), (i + j + 2) as int);
            let ii = i as int;
            let jj = j as int;
            assert(ii * (ii + 1) + (ii + jj + 2) * (jj - ii + 1) == (jj + 1) * (jj + 2)) by (nonlinear_arith);
        }
        i = j + 1;
    }
    proof {
        assert forall|m: int| 0 <= m < n implies r@[m] == midrank2(keys@, #[trigger] keys@[m]) by {
            assert(has_row(recs@, m));
            let k = choose|k: int| 0 <= k < recs@.len() && (#[trigger] recs@[k]).3 == m;
        }
        assert(recs@.take(n as int) =~= recs@);
        lemma_sum_of_permutation(orig, recs@, rank_of(keys@));
        assert forall|m: int| 0 <= m < n implies rank_of(keys@)(#[trigger] orig[m]) == (as_int())(r@[m]) by {
        }
        lemma_sum_of_pointwise(orig, r@, rank_of(keys@), as_int());
    }
    r
}

/// Tie correction of rank-based variances: the sum over groups of tied keys of
/// t^3 - t, where t is the size of the group. Exact in integers.
pub fn tie_correction(keys: &Vec<u64>) -> (c: u128)
    requires
        keys.len() <= 0x3FF_FFFF_FFFF,
    ensures
        c == tie_total(keys@),
{
    let n = keys.len();
    let mut recs = keyed_records(keys);
    let ghost orig = recs@;
    sort_records(&mut recs);
    proof {
        lemma_sorted_rows(orig, recs@, keys@);
    }
    let mut acc: u128 = 0;
    let mut i: usize = 0;
    while i < n
        invariant
            n == keys.len(),
            n <= 0x3FF_FFFF_FFFF,
            keyed(orig, keys@),
            recs@.to_multiset() == orig.to_multiset(),
            sorted_rows(recs@, keys@),
            i <= n,
            i == 0 || i == n || recs@[i - 1].0 != recs@[i as int].0,
            acc == sum_of(recs@.take(i as int), tie_of(keys@)),
            acc <= (i as int) * (i as int) * (i as int),
        decreases n - i,
    {
        let j = run_end(&recs, i);
        let ghost v = recs@[i as int].0;
        proof {
            lemma_group_counts(recs@, i as int, j as int, v);
            lemma_counts_carry(orig, recs@, keys@, v);
        }
        let t: u128 = (j - i + 1) as u128;
        proof {
            let tt = t as int;
            assert(0 < tt <= 0x3FF_FFFF_FFFF);
            assert(tt * tt <= 0x3FF_FFFF_FFFF * 0x3FF_FFFF_FFFF) by (nonlinear_arith)
                requires 0 < tt <= 0x3FF_FFFF_FFFF;
            assert(tt * tt * tt <= 0x3FF_FFFF_FFFF * 0x3FF_FFFF_FFFF * 0x3FF_FFFF_FFFF) by (nonlinear_arith)
                requires 0 < tt <= 0x3FF_FFFF_FFFF;
            assert(tt <= tt * tt * tt) by (nonlinear_arith)
                requires 0 < tt;
            let ii = i as int;
            let e = ii + tt;
            assert(e <= 0x3FF_FFFF_FFFF);
            assert(ii * ii * ii + tt * tt * tt <= e * e * e) by (nonlinear_arith)
                requires 0 <= ii, 0 < tt, e == ii + tt;
            assert(e * e * e <= 0x3FF_FFFF_FFFF * 0x3FF_FFFF_FFFF * 0x3FF_FFFF_FFFF) by (nonlinear_arith)
                requires 0 <= e <= 0x3FF_FFFF_FFFF;
        }
        let cube = t * t * t;
        acc = acc + cube - t;
        proof {
            let tt = t as int;
            let tk = recs@.take(j + 1);
            assert(tk.take(i as int) =~= recs@.take(i as int));
            lemma_sum_of_split(tk, i as int, tie_of(keys@));
            let g = tk.skip(i as int);
            assert forall|m: int| 0 <= m < g.len() implies (tie_of(keys@))(#[trigger] g[m]) == tt * tt - 1 by {
                assert(g[m] == recs@[i + m]);
                assert(recs@[i + m].0 == v);
            }
            lemma_sum_of_const(g, tie_of(keys@), tt * tt - 1);
            assert((tt * tt - 1) * tt == tt * tt * tt - tt) by (nonlinear_arith);
        }
        i = j + 1;
    }
    proof {
        assert(recs@.take(n as int) =~= recs@);
        lemma_sum_of_permutation(orig, recs@, tie_of(keys@));
        lemma_sum_of_pointwise(orig, keys@, tie_of(keys@), tie_term(keys@));
    }
    acc
}

/// The doubled midranks of `keys`, position by position.
pub open spec fn ranks_of(keys: Seq<u64>) -> Seq<int> {
    Seq::new(keys.len(), |i: int| midrank2(keys, keys[i]))
}

/// Sum of the entries of `v` whose flag is `want`.
pub open spec fn flagged_sum(v: Seq<int>, f: Seq<bool>, want: bool) -> int
    decreases v.len(),
{
    if v.len() == 0 {
        0
    } else {
        flagged_sum(v.drop_last(), f.take(v.len() - 1), want) + if f[v.len() - 1] == want {
            v.last()
        } else {
            0
        }
    }
}

/// Number of flags equal to `want`.
pub open spec fn flag_count(f: Seq<bool>, want: bool) -> int
    decreases f.len(),
{
    if f.len() == 0 {
        0
    } else {
        flag_count(f.drop_last(), want) + if f.last() == want { 1int } else { 0int }
    }
}

/// Doubled rank sums of two samples ranked together.
#[derive(Debug)]
pub struct RankSums {
    pub n_first: usize,
    pub n_second: usize,
    pub sum_first_x2: u128,
    pub sum_second_x2: u128,
}

/// Ranks all values together and sums the doubled ranks of each sample; the
/// flag is `true` for the first sample. The two sums add up to n(n+1).
pub fn flagged_rank_sums(keys: &Vec<u64>, first: &Vec<bool>) -> (s: RankSums)
    requires
        keys.len() == first.len(),
        keys.len() < 0x4000_0000_0000_0000,
    ensures
        s.n_first == flag_count(first@, true),
        s.n_second == flag_count(first@, false),
        s.n_first + s.n_second == keys.len(),
        s.sum_first_x2 == flagged_sum(ranks_of(keys@), first@, true),
        s.sum_second_x2 == flagged_sum(ranks_of(keys@), first@, false),
        s.sum_first_x2 + s.sum_second_x2 == keys.len() * (keys.len() + 1),
{
    let n = keys.len();
    let r = midranks2(keys);
    let ghost ro = ranks_of(keys@);
    let ghost rr = r@.map_values(|x: u64| x as int);
    assert(rr =~= ro);
    let mut n1: usize = 0;
    let mut n2: usize = 0;
    let mut s1: u128 = 0;
    let mut s2: u128 = 0;
    let mut i: usize = 0;
    while i < n
        invariant
            n == keys.len(),
            n == first.len(),
            n == r.len(),
            n < 0x4000_0000_0000_0000,
            ro == ranks_of(keys@),
            forall|m: int| 0 <= m < n ==> r@[m] as int == #[trigger] ro[m],
            total(r@) == n * (n + 1),
            i <= n,
            n1 == flag_count(first@.take(i as int), true),
            n2 == flag_count(first@.take(i as int), false),
            n1 + n2 == i,
            s1 == flagged_sum(ro.take(i as int), first@.take(i as int), true),
            s2 == flagged_sum(ro.take(i as int), first@.take(i as int), false),
            s1 + s2 == total(r@.take(i as int)),
        decreases n - i,
    {
        proof {
            lemma_sum_of_split(r@, i + 1, as_int());
            assert forall|m: int| 0 <= m < r@.skip(i + 1).len() implies (as_int())(#[trigger] r@.skip(i + 1)[m]) >= 0 by {}
            lemma_sum_of_nonneg(r@.skip(i + 1), as_int());
            assert(r@.take(i + 1).drop_last() =~= r@.take(i as int));
            assert(ro.take(i + 1).drop_last() =~= ro.take(i as int));
            assert(first@.take(i + 1).take(i as int) =~= first@.take(i as int));
            assert(first@.take(i + 1).drop_last() =~= first@.take(i as int));
            let nn = n as int;
            assert(nn * (nn + 1) < 0x1000_0000_0000_0000_0000_0000_0000_0000) by (nonlinear_arith)
                requires 0 <= nn < 0x4000_0000_0000_0000;
        }
        if first[i] {
            s1 = s1 + r[i] as u128;
            n1 = n1 + 1;
        } else {
            s2 = s2 + r[i] as u128;
            n2 = n2 + 1;
        }
        i = i + 1;
    }
    proof {
        assert(first@.take(n as int) =~= first@);
        assert(ro.take(n as int) =~= ro);
        assert(r@.take(n as int) =~= r@);
    }
    RankSums { n_first: n1, n_second: n2, sum_first_x2: s1, sum_second_x2: s2 }
}

/// Mann-Whitney statistics, doubled so that they are exact integers.
#[derive(Debug)]
pub struct MannWhitney {
    pub sums: RankSums,
    /// 2 U1 = 2 R1 - n1(n1 + 1), and likewise for the second sample.
    pub u1_x2: i128,
    pub u2_x2: i128,
    /// 2 U = min(2 U1, 2 U2).
    pub u_x2: i128,
    /// 2 W = min(2 R1, 2 R2).
    pub w_x2: u128,
}

/// The keys whose flag is `want`, in order.
pub open spec fn picked_keys(s: Seq<u64>, f: Seq<bool>, want: bool) -> Seq<u64>
    decreases s.len(),
{
    if s.len() == 0 {
        Seq::empty()
    } else {
        let rest = picked_keys(s.drop_last(), f.take(s.len() - 1), want);
        if f[s.len() - 1] == want {
            rest.push(s.last())
        } else {
            rest
        }
    }
}

proof fn lemma_flagged_sum_picked(s: Seq<u64>, f: Seq<bool>, want: bool, g: spec_fn(u64) -> int)
    requires
        s.len() <= f.len(),
    ensures
        flagged_sum(s.map_values(g), f, want) == sum_of(picked_keys(s, f, want), g),
    decreases s.len(),
{
    if s.len() > 0 {
        let n = s.len() - 1;
        assert(s.map_values(g).drop_last() =~= s.drop_last().map_values(g));
        lemma_flagged_sum_picked(s.drop_last(), f.take(n), want, g);
        let rest = picked_keys(s.drop_last(), f.take(n), want);
        assert(rest.push(s.last()).drop_last() =~= rest);
    }
}

proof fn lemma_picked_split(s: Seq<u64>, f: Seq<bool>, want: bool, h: spec_fn(u64) -> int)
    requires
        s.len() <= f.len(),
    ensures
        sum_of(s, h) == sum_of(picked_keys(s, f, want), h) + sum_of(picked_keys(s, f, !want), h),
    decreases s.len(),
{
    if s.len() > 0 {
        let n = s.len() - 1;
        lemma_picked_split(s.drop_last(), f.take(n), want, h);
        let a = picked_keys(s.drop_last(), f.take(n), want);
        let b = picked_keys(s.drop_last(), f.take(n), !want);
        assert(a.push(s.last()).drop_last() =~= a);
        assert(b.push(s.last()).drop_last() =~= b);
    }
}

proof fn lemma_picked_len(s: Seq<u64>, f: Seq<bool>, want: bool)
    requires
        s.len() == f.len(),
    ensures
        picked_keys(s, f, want).len() == flag_count(f, want),
    decreases s.len(),
{
    if s.len() > 0 {
        assert(f.take(s.len() - 1) =~= f.drop_last());
        lemma_picked_len(s.drop_last(), f.drop_last(), want);
    }
}

pub open spec fn pair_weight(s: Seq<u64>) -> spec_fn(u64) -> int {
    |x: u64| 2 * count_lt(s, x) + count_eq(s, x)
}

/// Over all ordered pairs of a sequence, twice the pairs in increasing order
/// plus the equal pairs count every pair once: the total is n².
proof fn lemma_pair_total(s: Seq<u64>)
    ensures
        sum_of(s, pair_weight(s)) == s.len() * s.len(),
    decreases s.len(),
{
    if s.len() > 0 {
        let t = s.drop_last();
        let z = s.last();
        lemma_pair_total(t);
        let c = |x: u64| 2 * (lt_ind(x))(z) + (eq_ind(x))(z);
        let e = |y: u64| 2 * (lt_ind(z))(y) + (eq_ind(z))(y);
        assert forall|i: int| 0 <= i < t.len() implies (pair_weight(s))(#[trigger] t[i]) == (pair_weight(t))(t[i]) + c(t[i]) by {
            assert(s.drop_last() == t);
        }
        lemma_sum_of_add(t, pair_weight(t), c, pair_weight(s));
        assert forall|i: int| 0 <= i < t.len() implies (|y: u64| 2int)(#[trigger] t[i]) == c(t[i]) + e(t[i]) by {}
        lemma_sum_of_add(t, c, e, |y: u64| 2int);
        lemma_sum_of_const(t, |y: u64| 2int, 2);
        let lt2 = |y: u64| (lt_ind(z))(y) + (lt_ind(z))(y);
        assert forall|i: int| 0 <= i < t.len() implies e(#[trigger] t[i]) == lt2(t[i]) + (eq_ind(z))(t[i]) by {}
        lemma_sum_of_add(t, lt2, eq_ind(z), e);
        lemma_sum_of_add(t, lt_ind(z), lt_ind(z), lt2);
        assert(s.drop_last() == t);
        let n = t.len() as int;
        assert(n * n + 2 * n + 1 == (n + 1) * (n + 1)) by (nonlinear_arith);
    }
}

/// A sample's doubled rank sum among all the values is at least n(n + 1) for
/// its n values: they rank at least as high as among themselves.
pub proof fn lemma_rank_sum_lower_bound(keys: Seq<u64>, first: Seq<bool>, want: bool)
    requires
        keys.len() == first.len(),
    ensures
        flagged_sum(ranks_of(keys), first, want) >= flag_count(first, want) * (flag_count(first, want) + 1),
{
    let s = picked_keys(keys, first, want);
    let o = picked_keys(keys, first, !want);
    let g = |x: u64| midrank2(keys, x);
    assert(ranks_of(keys) =~= keys.map_values(g));
    lemma_flagged_sum_picked(keys, first, want, g);
    let gs = |x: u64| 2 * count_lt(s, x) + count_eq(s, x) + 1;
    assert forall|i: int| 0 <= i < s.len() implies gs(#[trigger] s[i]) <= g(s[i]) by {
        let x = s[i];
        lemma_picked_split(keys, first, want, lt_ind(x));
        lemma_picked_split(keys, first, want, eq_ind(x));
        lemma_sum_of_nonneg(o, lt_ind(x));
        lemma_sum_of_nonneg(o, eq_ind(x));
    }
    lemma_sum_of_le(s, gs, g);
    lemma_pair_total(s);
    assert forall|i: int| 0 <= i < s.len() implies gs(#[trigger] s[i]) == (pair_weight(s))(s[i]) + (|y: u64| 1int)(s[i]) by {}
    lemma_sum_of_add(s, pair_weight(s), |y: u64| 1int, gs);
    lemma_sum_of_const(s, |y: u64| 1int, 1);
    lemma_picked_len(keys, first, want);
    let n = s.len() as int;
    assert(n * n + n == n * (n + 1)) by (nonlinear_arith);
}

/// The flags negated: the two samples swapped.
pub open spec fn flipped(f: Seq<bool>) -> Seq<bool> {
    f.map_values(|b: bool| !b)
}

/// Doubled Mann-Whitney U: the smaller of 2 R1 - n1(n1 + 1) and 2 R2 - n2(n2 + 1).
pub open spec fn spec_u_x2(keys: Seq<u64>, first: Seq<bool>) -> int {
    let n1 = flag_count(first, true);
    let n2 = flag_count(first, false);
    let u1 = flagged_sum(ranks_of(keys), first, true) - n1 * (n1 + 1);
    let u2 = flagged_sum(ranks_of(keys), first, false) - n2 * (n2 + 1);
    if u1 <= u2 { u1 } else { u2 }
}

/// Doubled Wilcoxon W: the smaller doubled rank sum.
pub open spec fn spec_w_x2(keys: Seq<u64>, first: Seq<bool>) -> int {
    let r1 = flagged_sum(ranks_of(keys), first, true);
    let r2 = flagged_sum(ranks_of(keys), first, false);
    if r1 <= r2 { r1 } else { r2 }
}

proof fn lemma_flip_count(f: Seq<bool>, want: bool)
    ensures
        flag_count(flipped(f), want) == flag_count(f, !want),
    decreases f.len(),
{
    if f.len() > 0 {
        assert(flipped(f).drop_last() =~= flipped(f.drop_last()));
        lemma_flip_count(f.drop_last(), want);
    }
}

proof fn lemma_flip_sum(v: Seq<int>, f: Seq<bool>, want: bool)
    requires
        v.len() <= f.len(),
    ensures
        flagged_sum(v, flipped(f), want) == flagged_sum(v, f, !want),
    decreases v.len(),
{
    if v.len() > 0 {
        assert(flipped(f).take(v.len() - 1) =~= flipped(f.take(v.len() - 1)));
        lemma_flip_sum(v.drop_last(), f.take(v.len() - 1), want);
    }
}

/// Swapping the two groups leaves the Mann-Whitney U and the Wilcoxon W unchanged.
pub proof fn lemma_mann_whitney_swap(keys: Seq<u64>, first: Seq<bool>)
    requires
        keys.len() == first.len(),
    ensures
        spec_u_x2(keys, flipped(first)) == spec_u_x2(keys, first),
        spec_w_x2(keys, flipped(first)) == spec_w_x2(keys, first),
{
    lemma_flip_count(first, true);
    lemma_flip_count(first, false);
    lemma_flip_sum(ranks_of(keys), first, true);
    lemma_flip_sum(ranks_of(keys), first, false);
}

/// Mann-Whitney U and Wilcoxon W of two samples ranked together. The two U
/// statistics add up to n1 n2.
pub fn mann_whitney(keys: &Vec<u64>, first: &Vec<bool>) -> (m: MannWhitney)
    requires
        keys.len() == first.len(),
        keys.len() < 0x4000_0000_0000_0000,
    ensures
        m.sums.n_first == flag_count(first@, true),
        m.sums.n_second == flag_count(first@, false),
        m.sums.sum_first_x2 == flagged_sum(ranks_of(keys@), first@, true),
        m.sums.sum_second_x2 == flagged_sum(ranks_of(keys@), first@, false),
        m.u1_x2 == m.sums.sum_first_x2 - m.sums.n_first * (m.sums.n_first + 1),
        m.u2_x2 == m.sums.sum_second_x2 - m.sums.n_second * (m.sums.n_second + 1),
        m.u_x2 == if m.u1_x2 <= m.u2_x2 { m.u1_x2 } else { m.u2_x2 },
        m.w_x2 == if m.sums.sum_first_x2 <= m.sums.sum_second_x2 { m.sums.sum_first_x2 } else { m.sums.sum_second_x2 },
        m.u1_x2 + m.u2_x2 == 2 * m.sums.n_first * m.sums.n_second,
        m.u_x2 == spec_u_x2(keys@, first@),
        m.w_x2 == spec_w_x2(keys@, first@),
        0 <= m.u_x2 <= m.sums.n_first * m.sums.n_second,
        m.sums.sum_first_x2 + m.sums.sum_second_x2 == keys.len() * (keys.len() + 1),
{
    let s = flagged_rank_sums(keys, first);
    proof {
        lemma_rank_sum_lower_bound(keys@, first@, true);
        lemma_rank_sum_lower_bound(keys@, first@, false);
    }
    let n1 = s.n_first as u128;
    let n2 = s.n_second as u128;
    proof {
        let a = n1 as int;
        let b = n2 as int;
        assert(a + b < 0x4000_0000_0000_0000);
        assert(a * (a + 1) < 0x1000_0000_0000_0000_0000_0000_0000_0000) by (nonlinear_arith)
            requires 0 <= a < 0x4000_0000_0000_0000;
        assert(b * (b + 1) < 0x1000_0000_0000_0000_0000_0000_0000_0000) by (nonlinear_arith)
            requires 0 <= b < 0x4000_0000_0000_0000;
        assert((a + b) * (a + b + 1) - a * (a + 1) - b * (b + 1) == 2 * a * b) by (nonlinear_arith);
        assert((a + b) * (a + b + 1) < 0x1000_0000_0000_0000_0000_0000_0000_0000) by (nonlinear_arith)
            requires 0 <= a + b < 0x4000_0000_0000_0000;
    }
    let u1 = s.sum_first_x2 as i128 - (n1 * (n1 + 1)) as i128;
    let u2 = s.sum_second_x2 as i128 - (n2 * (n2 + 1)) as i128;
    let u = if u1 <= u2 { u1 } else { u2 };
    let w = if s.sum_first_x2 <= s.sum_second_x2 { s.sum_first_x2 } else { s.sum_second_x2 };
    proof {
        let p = (n1 as int) * (n2 as int);
        assert(2 * (n1 as int) * (n2 as int) == 2 * p) by (nonlinear_arith)
            requires p == (n1 as int) * (n2 as int);
        assert(u1 + u2 == 2 * p);
    }
    MannWhitney { sums: s, u1_x2: u1, u2_x2: u2, u_x2: u, w_x2: w }
}

/// Number of labels equal to `l`.
pub open spec fn label_count(labels: Seq<String>, l: Seq<char>) -> int
    decreases labels.len(),
{
    if labels.len() == 0 {
        0
    } else {
        label_count(labels.drop_last(), l) + if labels.last()@ == l { 1int } else { 0int }
    }
}

/// Sum of the entries of `v` at the rows labelled `l`.
pub open spec fn label_sum(labels: Seq<String>, v: Seq<int>, l: Seq<char>) -> int
    decreases labels.len(),
{
    if labels.len() == 0 {
        0
    } else {
        label_sum(labels.drop_last(), v.take(labels.len() - 1), l) + if labels.last()@ == l {
            v[labels.len() - 1]
        } else {
            0
        }
    }
}

/// One level of a factor with its number of rows and doubled rank sum.
#[derive(Debug)]
pub struct LevelRanks {
    pub level: String,
    pub count: usize,
    pub rank_sum_x2: u128,
}

pub open spec fn level_texts(v: Seq<LevelRanks>) -> Seq<Seq<char>> {
    v.map_values(|l: LevelRanks| l.level@)
}

pub open spec fn as_int128() -> spec_fn(u128) -> int {
    |x: u128| x as int
}

pub open spec fn as_int_usize() -> spec_fn(usize) -> int {
    |x: usize| x as int
}

/// Ranks all values together and, for each level (in `String` order), counts its
/// rows and sums their doubled ranks.
pub fn level_rank_sums(labels: &Vec<String>, keys: &Vec<u64>) -> (levels: Vec<LevelRanks>)
    requires
        labels.len() == keys.len(),
        keys.len() < 0x4000_0000_0000_0000,
    ensures
        distinct_sorted(level_texts(levels@), texts_of(labels@)),
        forall|g: int| 0 <= g < levels.len() ==> (#[trigger] levels@[g]).count == label_count(labels@, levels@[g].level@),
        forall|g: int| 0 <= g < levels.len() ==> (#[trigger] levels@[g]).rank_sum_x2 == label_sum(labels@, ranks_of(keys@), levels@[g].level@),
        sum_of(levels@, level_count_of()) == keys.len(),
        sum_of(levels@, level_rank_of()) == keys.len() * (keys.len() + 1),
{
    let n = keys.len();
    let r = midranks2(keys);
    let ghost ro = ranks_of(keys@);
    let d = distinct_texts(labels);
    let k = d.len();
    let mut counts: Vec<usize> = Vec::new();
    let mut sums: Vec<u128> = Vec::new();
    let mut g: usize = 0;
    while g < k
        invariant
            k == d.len(),
            g <= k,
            counts.len() == g,
            sums.len() == g,
            forall|h: int| 0 <= h < g ==> counts@[h] == 0 && sums@[h] == 0,
        decreases k - g,
    {
        counts.push(0);
        sums.push(0);
        g = g + 1;
    }
    proof {
        assert forall|h: int| 0 <= h < k implies counts@[h] == label_count(labels@.take(0), d@[h]@) && sums@[h] == label_sum(labels@.take(0), ro.take(0), d@[h]@) by {}
        lemma_sum_of_const(sums@, as_int128(), 0);
        lemma_sum_of_const(counts@, as_int_usize(), 0);
    }
    let mut q: usize = 0;
    while q < n
        invariant
            n == keys.len(),
            n == labels.len(),
            n == r.len(),
            n < 0x4000_0000_0000_0000,
            ro == ranks_of(keys@),
            forall|m: int| 0 <= m < n ==> r@[m] as int == #[trigger] ro[m],
            total(r@) == n * (n + 1),
            k == d.len(),
            counts.len() == k,
            sums.len() == k,
            distinct_sorted(texts_of(d@), texts_of(labels@)),
            q <= n,
            forall|h: int| 0 <= h < k ==> (#[trigger] counts@[h]) == label_count(labels@.take(q as int), d@[h]@),
            forall|h: int| 0 <= h < k ==> (#[trigger] sums@[h]) == label_sum(labels@.take(q as int), ro.take(q as int), d@[h]@),
            sum_of(sums@, as_int128()) == total(r@.take(q as int)),
            sum_of(counts@, as_int_usize()) == q,
        decreases n - q,
    {
        assert(texts_of(d@).contains(texts_of(labels@)[q as int]));
        assert(texts_of(labels@)[q as int] == labels@[q as int]@);
        let gi = find_text(&d, labels[q].as_str()).unwrap();
        proof {
            lemma_sum_of_split(r@, q + 1, as_int());
            assert forall|m: int| 0 <= m < r@.skip(q + 1).len() implies (as_int())(#[trigger] r@.skip(q + 1)[m]) >= 0 by {}
            lemma_sum_of_nonneg(r@.skip(q + 1), as_int());
            assert(r@.take(q + 1).drop_last() =~= r@.take(q as int));
            lemma_sum_of_remove(sums@, gi as int, as_int128());
            assert forall|m: int| 0 <= m < sums@.remove(gi as int).len() implies (as_int128())(#[trigger] sums@.remove(gi as int)[m]) >= 0 by {}
            lemma_sum_of_nonneg(sums@.remove(gi as int), as_int128());
            lemma_sum_of_remove(counts@, gi as int, as_int_usize());
            assert forall|m: int| 0 <= m < counts@.remove(gi as int).len() implies (as_int_usize())(#[trigger] counts@.remove(gi as int)[m]) >= 0 by {}
            lemma_sum_of_nonneg(counts@.remove(gi as int), as_int_usize());
            let nn = n as int;
            assert(nn * (nn + 1) < 0x1000_0000_0000_0000_0000_0000_0000_0000) by (nonlinear_arith)
                requires 0 <= nn < 0x4000_0000_0000_0000;
        }
        let ghost old_counts = counts@;
        let ghost old_sums = sums@;
        let c = counts[gi] + 1;
        counts.set(gi, c);
        let s = sums[gi] + r[q] as u128;
        sums.set(gi, s);
        proof {
            lemma_sum_of_update(old_sums, gi as int, s, as_int128());
            lemma_sum_of_update(old_counts, gi as int, c, as_int_usize());
            assert(labels@.take(q + 1).drop_last() =~= labels@.take(q as int));
            assert(ro.take(q + 1).take(q as int) =~= ro.take(q as int));
            assert(labels@.take(q + 1).last() == labels@[q as int]);
            assert(ro.take(q + 1)[q as int] == ro[q as int]);
            assert(r@[q as int] as int == ro[q as int]);
            assert(labels@[q as int]@ == d@[gi as int]@);
            assert forall|h: int| #![trigger counts@[h]] #![trigger sums@[h]] 0 <= h < k implies counts@[h] == label_count(labels@.take(q + 1), d@[h]@)
                && sums@[h] == label_sum(labels@.take(q + 1), ro.take(q + 1), d@[h]@) by {
                let lq = labels@.take(q + 1);
                assert(lq.len() == q + 1);
                assert(label_sum(lq, ro.take(q + 1), d@[h]@) == label_sum(lq.drop_last(), ro.take(q + 1).take(q as int), d@[h]@)
                    + if lq.last()@ == d@[h]@ { ro.take(q + 1)[q as int] } else { 0 });
                if h != gi {
                    if labels@[q as int]@ == d@[h]@ {
                        if h < gi {
                            assert(text_lt(texts_of(d@)[h], texts_of(d@)[gi as int]));
                        } else {
                            assert(text_lt(texts_of(d@)[gi as int], texts_of(d@)[h]));
                        }
                        crate::order::lemma_text_lt_ne(d@[h]@, d@[gi as int]@);
                        crate::order::lemma_text_lt_ne(d@[gi as int]@, d@[h]@);
                    }
                }
            }
        }
        q = q + 1;
    }
    let mut levels: Vec<LevelRanks> = Vec::new();
    let mut g: usize = 0;
    while g < k
        invariant
            k == d.len(),
            counts.len() == k,
            sums.len() == k,
            g <= k,
            levels.len() == g,
            forall|h: int| 0 <= h < g ==> (#[trigger] levels@[h]).level@ == d@[h]@ && levels@[h].count == counts@[h] && levels@[h].rank_sum_x2 == sums@[h],
        decreases k - g,
    {
        levels.push(LevelRanks { level: d[g].clone(), count: counts[g], rank_sum_x2: sums[g] });
        g = g + 1;
    }
    proof {
        assert(labels@.take(n as int) =~= labels@);
        assert(ro.take(n as int) =~= ro);
        assert(r@.take(n as int) =~= r@);
        assert(level_texts(levels@) =~= texts_of(d@));
        lemma_sum_of_pointwise(levels@, counts@, level_count_of(), as_int_usize());
        lemma_sum_of_pointwise(levels@, sums@, level_rank_of(), as_int128());
    }
    levels
}

pub open spec fn level_count_of() -> spec_fn(LevelRanks) -> int {
    |l: LevelRanks| l.count as int
}

pub open spec fn level_rank_of() -> spec_fn(LevelRanks) -> int {
    |l: LevelRanks| l.rank_sum_x2 as int
}

/// Each key occurs at least once among the keys, and at least twice exactly
/// when another position holds the same key.
pub proof fn lemma_count_eq_self(s: Seq<u64>, i: int)
    requires
        0 <= i < s.len(),
    ensures
        count_eq(s, s[i]) >= 1,
        count_eq(s, s[i]) == 1 <==> forall|j: int| 0 <= j < s.len() && j != i ==> s[j] != s[i],
{
    let v = s[i];
    lemma_sum_of_remove(s, i, eq_ind(v));
    let r = s.remove(i);
    assert forall|k: int| 0 <= k < r.len() implies (eq_ind(v))(#[trigger] r[k]) >= 0 by {}
    lemma_sum_of_nonneg(r, eq_ind(v));
    if sum_of(r, eq_ind(v)) == 0 {
        assert forall|j: int| 0 <= j < s.len() && j != i implies s[j] != s[i] by {
            let k = if j < i { j } else { j - 1 };
            assert(r[k] == s[j]);
            assert((eq_ind(v))(r[k]) == 0);
        }
    } else {
        let k = choose|k: int| 0 <= k < r.len() && (eq_ind(v))(#[trigger] r[k]) != 0;
        let j = if k < i { k } else { k + 1 };
        assert(s[j] == r[k]);
        assert(j != i && s[j] == s[i]);
    }
}

/// The tie correction is never negative, and it is zero exactly when no two
/// keys are equal.
pub proof fn lemma_tie_total_zero(s: Seq<u64>)
    ensures
        tie_total(s) >= 0,
        tie_total(s) == 0 <==> s.no_duplicates(),
{
    assert forall|i: int| 0 <= i < s.len() implies (tie_term(s))(#[trigger] s[i]) >= 0 by {
        lemma_count_eq_self(s, i);
        let c = count_eq(s, s[i]);
        assert(c * c >= 1) by (nonlinear_arith) requires c >= 1;
    }
    lemma_sum_of_nonneg(s, tie_term(s));
    if tie_total(s) == 0 {
        assert forall|i: int, j: int| 0 <= i < s.len() && 0 <= j < s.len() && i != j implies s[i] != s[j] by {
            assert((tie_term(s))(s[i]) == 0);
            lemma_count_eq_self(s, i);
            let c = count_eq(s, s[i]);
            assert(c == 1) by (nonlinear_arith) requires c >= 1, c * c - 1 == 0;
        }
    }
    if s.no_duplicates() {
        assert forall|i: int| 0 <= i < s.len() implies (tie_term(s))(#[trigger] s[i]) == 0 by {
            lemma_count_eq_self(s, i);
        }
    }
}

pub open spec fn one_ind() -> spec_fn(u64) -> int {
    |k: u64| 1int
}

pub open spec fn le_ind(v: u64) -> spec_fn(u64) -> int {
    |k: u64| if k <= v { 1int } else { 0int }
}

/// Midranks keep the order of the keys: a smaller key has a smaller midrank,
/// and every midrank lies between 1 and n (doubled: between 2 and 2n).
pub proof fn lemma_midrank_order(s: Seq<u64>, i: int, j: int)
    requires
        0 <= i < s.len(),
        0 <= j < s.len(),
    ensures
        s[i] < s[j] ==> midrank2(s, s[i]) < midrank2(s, s[j]),
        s[i] == s[j] ==> midrank2(s, s[i]) == midrank2(s, s[j]),
        2 <= midrank2(s, s[i]) <= 2 * s.len(),
{
    let v = s[i];
    let w = s[j];
    lemma_count_eq_self(s, i);
    lemma_count_eq_self(s, j);
    lemma_sum_of_add(s, lt_ind(v), eq_ind(v), le_ind(v));
    assert forall|k: int| 0 <= k < s.len() implies (le_ind(v))(#[trigger] s[k]) <= 1 by {}
    lemma_sum_of_le(s, le_ind(v), one_ind());
    lemma_sum_of_const(s, one_ind(), 1);
    assert forall|k: int| 0 <= k < s.len() implies (lt_ind(v))(#[trigger] s[k]) >= 0 by {}
    lemma_sum_of_nonneg(s, lt_ind(v));
    if v < w {
        assert forall|k: int| 0 <= k < s.len() implies (le_ind(v))(#[trigger] s[k]) <= (lt_ind(w))(s[k]) by {}
        lemma_sum_of_le(s, le_ind(v), lt_ind(w));
    }
}

} // verus!
