//! Grouping rows by a text label: the distinct labels in `String` order, and the
//! values of each group in row order.
use vstd::prelude::*;
use crate::order::{
    SortRecord, sort_records, records_sorted, record_le, record_lt, text_lt, indexed, permuted_rows,
    has_row, lemma_permuted_rows, lemma_text_lt_transitive, lemma_text_antisymmetric,
    lemma_text_lt_ne, sum_of, lemma_sum_of_const, lemma_sum_of_update,
};
use crate::text::{compare_text, lemma_text_lt_total};

verus! {

/// The texts are in strictly increasing `String` order.
pub open spec fn strictly_increasing(d: Seq<Seq<char>>) -> bool {
    forall|i: int, j: int| 0 <= i < j < d.len() ==> text_lt(#[trigger] d[i], #[trigger] d[j])
}

pub open spec fn texts_of(v: Seq<String>) -> Seq<Seq<char>> {
    v.map_values(|s: String| s@)
}

/// `d` holds each text of `labels` exactly once, in increasing order.
pub open spec fn distinct_sorted(d: Seq<Seq<char>>, labels: Seq<Seq<char>>) -> bool {
    &&& strictly_increasing(d)
    &&& forall|i: int| 0 <= i < labels.len() ==> #[trigger] d.contains(labels[i])
    &&& forall|g: int| 0 <= g < d.len() ==> #[trigger] labels.contains(d[g])
}

fn text_records(labels: &Vec<String>) -> (recs: Vec<SortRecord>)
    ensures
        recs.len() == labels.len(),
        indexed(recs@),
        forall|i: int|
            0 <= i < recs.len() ==> (#[trigger] recs@[i]).0 == 0 && recs@[i].1 == 0 && recs@[i].2@
                == labels@[i]@,
{
    let mut recs: Vec<SortRecord> = Vec::new();
    let mut i: usize = 0;
    while i < labels.len()
        invariant
            i <= labels.len(),
            recs.len() == i,
            forall|m: int|
                0 <= m < i ==> (#[trigger] recs@[m]).0 == 0 && recs@[m].1 == 0 && recs@[m].2@
                    == labels@[m]@ && recs@[m].3 == m,
        decreases labels.len() - i,
    {
        recs.push((0u64, 0u64, labels[i].clone(), i));
        i = i + 1;
    }
    recs
}

/// The distinct labels, in increasing `String` order (as the keys of a
/// `BTreeMap<String, _>` come out).
pub fn distinct_texts(labels: &Vec<String>) -> (d: Vec<String>)
    ensures
        distinct_sorted(texts_of(d@), texts_of(labels@)),
{
    let n = labels.len();
    let mut recs = text_records(labels);
    let ghost orig = recs@;
    sort_records(&mut recs);
    proof {
        lemma_permuted_rows(orig, recs@);
    }
    let mut d: Vec<String> = Vec::new();
    let mut k: usize = 0;
    while k < n
        invariant
            n == labels.len(),
            recs.len() == n,
            orig.len() == n,
            permuted_rows(orig, recs@),
            records_sorted(recs@),
            forall|i: int|
                0 <= i < n ==> (#[trigger] orig[i]).0 == 0 && orig[i].1 == 0 && orig[i].2@
                    == labels@[i]@,
            k <= n,
            k == 0 <==> d.len() == 0,
            k > 0 ==> d@.last()@ == recs@[k - 1].2@,
            strictly_increasing(texts_of(d@)),
            forall|m: int| 0 <= m < k ==> #[trigger] texts_of(d@).contains(recs@[m].2@),
            forall|g: int|
                0 <= g < d.len() ==> exists|m: int| 0 <= m < k && (#[trigger] d@[g])@ == recs@[m].2@,
        decreases n - k,
    {
        let ghost old_d = d@;
        let fresh = if k == 0 {
            true
        } else {
            let c = compare_text(recs[k - 1].2.as_str(), recs[k].2.as_str());
            c != 0
        };
        if fresh {
            proof {
                if k > 0 {
                    let a = recs@[k - 1];
                    let b = recs@[k as int];
                    assert(record_le(a, b));
                    assert(a.2@ != b.2@);
                    assert(a.0 == 0 && b.0 == 0 && a.1 == 0 && b.1 == 0) by {
                        assert(orig[a.3 as int] == a);
                        assert(orig[b.3 as int] == b);
                    }
                    assert(text_lt(a.2@, b.2@));
                    assert forall|i: int, j: int|
                        0 <= i < j < old_d.len() + 1 implies text_lt(
                        #[trigger] texts_of(old_d.push(recs[k as int].2))[i],
                        #[trigger] texts_of(old_d.push(recs[k as int].2))[j],
                    ) by {
                        if j == old_d.len() {
                            if i < old_d.len() - 1 {
                                assert(text_lt(texts_of(old_d)[i], texts_of(old_d)[old_d.len() - 1]));
                                lemma_text_lt_transitive(
                                    texts_of(old_d)[i],
                                    a.2@,
                                    b.2@,
                                );
                            }
                        } else {
                            assert(text_lt(texts_of(old_d)[i], texts_of(old_d)[j]));
                        }
                    }
                }
            }
            d.push(recs[k].2.clone());
            proof {
                assert(texts_of(d@) =~= texts_of(old_d).push(recs@[k as int].2@));
                assert forall|i: int, j: int|
                    0 <= i < j < d.len() implies text_lt(
                    #[trigger] texts_of(d@)[i],
                    #[trigger] texts_of(d@)[j],
                ) by {
                    if k > 0 {
                        assert(texts_of(old_d.push(recs[k as int].2))[i] == texts_of(d@)[i]);
                        assert(texts_of(old_d.push(recs[k as int].2))[j] == texts_of(d@)[j]);
                    }
                }
                assert forall|m: int| 0 <= m < k + 1 implies #[trigger] texts_of(d@).contains(
                    recs@[m].2@,
                ) by {
                    if m < k {
                        assert(texts_of(old_d).contains(recs@[m].2@));
                        let g = choose|g: int| 0 <= g < old_d.len() && texts_of(old_d)[g] == recs@[m].2@;
                        assert(texts_of(d@)[g] == recs@[m].2@);
                    } else {
                        assert(texts_of(d@)[d.len() - 1] == recs@[m].2@);
                    }
                }
                assert forall|g: int| 0 <= g < d.len() implies exists|m: int|
                    0 <= m < k + 1 && (#[trigger] d@[g])@ == recs@[m].2@ by {
                    if g < old_d.len() {
                        assert(d@[g] == old_d[g]);
                    } else {
                        assert(d@[g]@ == recs@[k as int].2@);
                    }
                }
            }
        } else {
            proof {
                assert forall|m: int| 0 <= m < k + 1 implies #[trigger] texts_of(d@).contains(
                    recs@[m].2@,
                ) by {
                    if m == k {
                        assert(texts_of(d@)[d.len() - 1] == recs@[k - 1].2@);
                    }
                }
            }
        }
        k = k + 1;
    }
    proof {
        assert forall|i: int| 0 <= i < n implies #[trigger] texts_of(d@).contains(
            texts_of(labels@)[i],
        ) by {
            assert(has_row(recs@, i));
            let m = choose|m: int| 0 <= m < n && (#[trigger] recs@[m]).3 == i;
            assert(orig[i] == recs@[m]);
        }
        assert forall|g: int| 0 <= g < d.len() implies #[trigger] texts_of(labels@).contains(
            texts_of(d@)[g],
        ) by {
            let m = choose|m: int| 0 <= m < n && (#[trigger] d@[g])@ == recs@[m].2@;
            let i = recs@[m].3 as int;
            assert(orig[i] == recs@[m]);
            assert(texts_of(labels@)[i] == texts_of(d@)[g]);
        }
    }
    d
}

/// Two strictly increasing sequences of the same texts are equal.
pub proof fn lemma_increasing_unique(a: Seq<Seq<char>>, b: Seq<Seq<char>>)
    requires
        strictly_increasing(a),
        strictly_increasing(b),
        forall|x: Seq<char>| a.contains(x) <==> b.contains(x),
    ensures
        a == b,
    decreases a.len(),
{
    if a.len() == 0 {
        if b.len() > 0 {
            assert(b.contains(b[0]));
        }
        assert(a =~= b);
    } else {
        assert(a.contains(a[0]));
        assert(b.len() > 0);
        assert(b.contains(b[0]));
        let k = choose|k: int| 0 <= k < b.len() && b[k] == a[0];
        let l = choose|l: int| 0 <= l < a.len() && a[l] == b[0];
        if a[0] != b[0] {
            assert(k > 0 && l > 0);
            assert(text_lt(b[0], b[k]));
            assert(text_lt(a[0], a[l]));
            lemma_text_lt_transitive(a[0], b[0], a[0]);
            crate::order::lemma_text_lt_ne(a[0], a[0]);
        }
        let a1 = a.drop_first();
        let b1 = b.drop_first();
        assert forall|x: Seq<char>| a1.contains(x) <==> b1.contains(x) by {
            if a1.contains(x) {
                let i = choose|i: int| 0 <= i < a1.len() && a1[i] == x;
                assert(text_lt(a[0], a[i + 1]));
                lemma_text_lt_ne(a[0], x);
                assert(a.contains(x));
                let j = choose|j: int| 0 <= j < b.len() && b[j] == x;
                assert(j != 0);
                assert(b1[j - 1] == x);
            }
            if b1.contains(x) {
                let i = choose|i: int| 0 <= i < b1.len() && b1[i] == x;
                assert(text_lt(b[0], b[i + 1]));
                lemma_text_lt_ne(b[0], x);
                assert(b.contains(x));
                let j = choose|j: int| 0 <= j < a.len() && a[j] == x;
                assert(j != 0);
                assert(a1[j - 1] == x);
            }
        }
        assert forall|i: int, j: int| 0 <= i < j < a1.len() implies text_lt(#[trigger] a1[i], #[trigger] a1[j]) by {
            assert(text_lt(a[i + 1], a[j + 1]));
        }
        assert forall|i: int, j: int| 0 <= i < j < b1.len() implies text_lt(#[trigger] b1[i], #[trigger] b1[j]) by {
            assert(text_lt(b[i + 1], b[j + 1]));
        }
        lemma_increasing_unique(a1, b1);
        assert(a.len() == b.len());
        assert forall|i: int| 0 <= i < a.len() implies a[i] == b[i] by {
            if i > 0 {
                assert(a[i] == a1[i - 1]);
                assert(b[i] == b1[i - 1]);
            }
        }
        assert(a =~= b);
    }
}

/// The distinct sorted labels of a sequence are unique.
pub proof fn lemma_distinct_sorted_unique(a: Seq<Seq<char>>, b: Seq<Seq<char>>, labels: Seq<Seq<char>>)
    requires
        distinct_sorted(a, labels),
        distinct_sorted(b, labels),
    ensures
        a == b,
{
    assert forall|x: Seq<char>| a.contains(x) <==> b.contains(x) by {
        if a.contains(x) {
            let g = choose|g: int| 0 <= g < a.len() && a[g] == x;
            assert(labels.contains(a[g]));
            let i = choose|i: int| 0 <= i < labels.len() && labels[i] == x;
            assert(b.contains(labels[i]));
        }
        if b.contains(x) {
            let g = choose|g: int| 0 <= g < b.len() && b[g] == x;
            assert(labels.contains(b[g]));
            let i = choose|i: int| 0 <= i < labels.len() && labels[i] == x;
            assert(a.contains(labels[i]));
        }
    }
    lemma_increasing_unique(a, b);
}

/// Position of `x` among strictly increasing texts, found by bisection.
pub fn find_text(d: &Vec<String>, x: &str) -> (r: Option<usize>)
    requires
        strictly_increasing(texts_of(d@)),
    ensures
        r matches Some(g) ==> g < d.len() && d@[g as int]@ == x@,
        r is None ==> !texts_of(d@).contains(x@),
{
    let mut lo: usize = 0;
    let mut hi: usize = d.len();
    while lo < hi
        invariant
            lo <= hi <= d.len(),
            strictly_increasing(texts_of(d@)),
            forall|g: int| 0 <= g < lo ==> text_lt(#[trigger] texts_of(d@)[g], x@),
            forall|g: int| hi <= g < d.len() ==> text_lt(x@, #[trigger] texts_of(d@)[g]),
        decreases hi - lo,
    {
        let mid = lo + (hi - lo) / 2;
        let c = compare_text(d[mid].as_str(), x);
        if c == 0 {
            return Some(mid);
        } else if c < 0 {
            proof {
                assert forall|g: int| 0 <= g < mid + 1 implies text_lt(#[trigger] texts_of(d@)[g], x@) by {
                    if g < mid {
                        assert(text_lt(texts_of(d@)[g], texts_of(d@)[mid as int]));
                        lemma_text_lt_transitive(texts_of(d@)[g], texts_of(d@)[mid as int], x@);
                    }
                }
            }
            lo = mid + 1;
        } else {
            proof {
                assert forall|g: int| mid <= g < d.len() implies text_lt(x@, #[trigger] texts_of(d@)[g]) by {
                    if g > mid {
                        assert(text_lt(texts_of(d@)[mid as int], texts_of(d@)[g]));
                        lemma_text_lt_transitive(x@, texts_of(d@)[mid as int], texts_of(d@)[g]);
                    }
                }
            }
            hi = mid;
        }
    }
    proof {
        if texts_of(d@).contains(x@) {
            let g = choose|g: int| 0 <= g < d.len() && texts_of(d@)[g] == x@;
            if g < lo {
                lemma_text_lt_ne(texts_of(d@)[g], x@);
            } else {
                lemma_text_lt_ne(x@, texts_of(d@)[g]);
            }
        }
    }
    None
}

/// The rows that have both a label and a value, as (label, value), in row order.
pub open spec fn labelled<T>(labels: Seq<Option<String>>, values: Seq<Option<T>>) -> Seq<(Seq<char>, T)>
    decreases labels.len(),
{
    if labels.len() == 0 {
        Seq::empty()
    } else {
        let rest = labelled(labels.drop_last(), values.drop_last());
        match (labels.last(), values[labels.len() - 1]) {
            (Some(l), Some(v)) => rest.push((l@, v)),
            _ => rest,
        }
    }
}

/// The values of the entries labelled `l`, in order.
pub open spec fn picked<T>(p: Seq<(Seq<char>, T)>, l: Seq<char>) -> Seq<T>
    decreases p.len(),
{
    if p.len() == 0 {
        Seq::empty()
    } else {
        let rest = picked(p.drop_last(), l);
        if p.last().0 == l {
            rest.push(p.last().1)
        } else {
            rest
        }
    }
}

pub open spec fn zipped<T>(pl: Seq<String>, pv: Seq<T>) -> Seq<(Seq<char>, T)> {
    Seq::new(pl.len(), |q: int| (pl[q]@, pv[q]))
}

pub open spec fn group_labels<T>(groups: Seq<(String, Vec<T>)>) -> Seq<Seq<char>> {
    groups.map_values(|g: (String, Vec<T>)| g.0@)
}

/// The number of values in a group.
pub open spec fn group_size<T>() -> spec_fn((String, Vec<T>)) -> int {
    |g: (String, Vec<T>)| g.1@.len() as int
}

pub open spec fn entry_labels<T>(p: Seq<(Seq<char>, T)>) -> Seq<Seq<char>> {
    p.map_values(|e: (Seq<char>, T)| e.0)
}

/// The rows that have both a label and a value: their labels and their values,
/// in row order.
pub fn labelled_cases<T: Copy>(labels: &Vec<Option<String>>, values: &Vec<Option<T>>) -> (res: (Vec<String>, Vec<T>))
    requires
        labels.len() == values.len(),
    ensures
        res.0.len() == res.1.len(),
        zipped(res.0@, res.1@) == labelled(labels@, values@),
{
    let n = labels.len();
    let mut pl: Vec<String> = Vec::new();
    let mut pv: Vec<T> = Vec::new();
    let mut i: usize = 0;
    while i < n
        invariant
            n == labels.len(),
            n == values.len(),
            i <= n,
            pl.len() == pv.len(),
            zipped(pl@, pv@) == labelled(labels@.take(i as int), values@.take(i as int)),
        decreases n - i,
    {
        let ghost before = zipped(pl@, pv@);
        assert(labels@.take(i + 1).drop_last() =~= labels@.take(i as int));
        assert(values@.take(i + 1).drop_last() =~= values@.take(i as int));
        match &labels[i] {
            Some(l) => {
                match values[i] {
                    Some(v) => {
                        pl.push(l.clone());
                        pv.push(v);
                        assert(zipped(pl@, pv@) =~= before.push((l@, v)));
                    },
                    None => {},
                }
            },
            None => {},
        }
        i = i + 1;
    }
    assert(labels@.take(n as int) =~= labels@);
    assert(values@.take(n as int) =~= values@);
    (pl, pv)
}

/// Groups the values by label: one group per distinct label, in increasing
/// `String` order, holding the values of the rows that have both a label and a
/// value, in row order. Every such row lands in exactly one group.
pub fn group_by_label<T: Copy>(labels: &Vec<Option<String>>, values: &Vec<Option<T>>) -> (groups: Vec<(String, Vec<T>)>)
    requires
        labels.len() == values.len(),
    ensures
        distinct_sorted(group_labels(groups@), entry_labels(labelled(labels@, values@))),
        forall|g: int|
            0 <= g < groups.len() ==> (#[trigger] groups@[g]).1@ == picked(
                labelled(labels@, values@),
                groups@[g].0@,
            ),
        sum_of(groups@, group_size::<T>()) == labelled(labels@, values@).len(),
{
    let (pl, pv) = labelled_cases(labels, values);
    let ghost p = zipped(pl@, pv@);
    let d = distinct_texts(&pl);
    assert(texts_of(pl@) =~= entry_labels(p));
    let mut groups: Vec<(String, Vec<T>)> = Vec::new();
    let mut g: usize = 0;
    while g < d.len()
        invariant
            g <= d.len(),
            groups.len() == g,
            forall|h: int| 0 <= h < g ==> (#[trigger] groups@[h]).0@ == d@[h]@ && groups@[h].1@ == Seq::<T>::empty(),
        decreases d.len() - g,
    {
        groups.push((d[g].clone(), Vec::new()));
        g = g + 1;
    }
    proof {
        assert forall|h: int| 0 <= h < d.len() implies (#[trigger] groups@[h]).1@ == picked(p.take(0), groups@[h].0@) by {
            assert(p.take(0) =~= Seq::<(Seq<char>, T)>::empty());
        }
        lemma_sum_of_const(groups@, group_size::<T>(), 0);
    }
    let m = pl.len();
    let mut q: usize = 0;
    while q < m
        invariant
            m == pl.len(),
            m == pv.len(),
            p == zipped(pl@, pv@),
            q <= m,
            groups.len() == d.len(),
            distinct_sorted(texts_of(d@), texts_of(pl@)),
            forall|h: int| 0 <= h < groups.len() ==> (#[trigger] groups@[h]).0@ == d@[h]@,
            forall|h: int| 0 <= h < groups.len() ==> (#[trigger] groups@[h]).1@ == picked(p.take(q as int), groups@[h].0@),
            sum_of(groups@, group_size::<T>()) == q,
        decreases m - q,
    {
        assert(texts_of(d@).contains(texts_of(pl@)[q as int]));
        assert(texts_of(pl@)[q as int] == pl@[q as int]@);
        let gi = find_text(&d, pl[q].as_str()).unwrap();
        let ghost old_groups = groups@;
        groups[gi].1.push(pv[q]);
        proof {
            assert(groups@ =~= old_groups.update(gi as int, groups@[gi as int]));
            lemma_sum_of_update(old_groups, gi as int, groups@[gi as int], group_size::<T>());
            assert(p.take(q + 1).drop_last() =~= p.take(q as int));
            assert(p.take(q + 1).last() == p[q as int]);
            assert forall|h: int| 0 <= h < groups.len() implies (#[trigger] groups@[h]).1@ == picked(p.take(q + 1), groups@[h].0@) by {
                if h != gi {
                    assert(groups@[h] == old_groups[h]);
                    if d@[h]@ == d@[gi as int]@ {
                        if h < gi {
                            assert(text_lt(texts_of(d@)[h], texts_of(d@)[gi as int]));
                        } else {
                            assert(text_lt(texts_of(d@)[gi as int], texts_of(d@)[h]));
                        }
                        lemma_text_lt_ne(d@[h]@, d@[gi as int]@);
                        lemma_text_lt_ne(d@[gi as int]@, d@[h]@);
                    }
                }
            }
        }
        q = q + 1;
    }
    proof {
        assert(p.take(m as int) =~= p);
        assert(group_labels(groups@) =~= texts_of(d@));
    }
    groups
}


/// A row counts for grouping exactly when it has both a label and a value.
pub proof fn lemma_labelled_step<T>(labels: Seq<Option<String>>, values: Seq<Option<T>>, l: Option<String>, v: Option<T>)
    requires
        labels.len() == values.len(),
    ensures
        labelled(Seq::<Option<String>>::empty(), Seq::<Option<T>>::empty()) == Seq::<(Seq<char>, T)>::empty(),
        labelled(labels.push(l), values.push(v)) == (match (l, v) {
            (Some(s), Some(x)) => labelled(labels, values).push((s@, x)),
            _ => labelled(labels, values),
        }),
{
    assert(labels.push(l).drop_last() =~= labels);
    assert(values.push(v).drop_last() =~= values);
}

/// A group holds the values of the entries with its label, in order.
pub proof fn lemma_picked_step<T>(p: Seq<(Seq<char>, T)>, e: (Seq<char>, T), l: Seq<char>)
    ensures
        picked(Seq::<(Seq<char>, T)>::empty(), l) == Seq::<T>::empty(),
        picked(p.push(e), l) == if e.0 == l { picked(p, l).push(e.1) } else { picked(p, l) },
{
    assert(p.push(e).drop_last() =~= p);
}

} // verus!
