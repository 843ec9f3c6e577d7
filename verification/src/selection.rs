//! Case selection: which rows of the data take part in a procedure.
//!
//! A column is given as one optional value per row; `None` is a missing or
//! non-finite value.
use vstd::prelude::*;
use crate::text::compare_text;

verus! {

/// The rows where both columns have a value, as pairs, in row order
/// (pairwise deletion).
pub open spec fn paired<T>(a: Seq<Option<T>>, b: Seq<Option<T>>) -> Seq<(T, T)>
    decreases a.len(),
{
    if a.len() == 0 {
        Seq::empty()
    } else {
        let rest = paired(a.drop_last(), b.take(a.len() - 1));
        match (a.last(), b[a.len() - 1]) {
            (Some(x), Some(y)) => rest.push((x, y)),
            _ => rest,
        }
    }
}

pub open spec fn firsts<T>(s: Seq<(T, T)>) -> Seq<T> {
    s.map_values(|p: (T, T)| p.0)
}

pub open spec fn seconds<T>(s: Seq<(T, T)>) -> Seq<T> {
    s.map_values(|p: (T, T)| p.1)
}

/// The values of the rows where both columns have one.
pub fn complete_pairs<T: Copy>(a: &Vec<Option<T>>, b: &Vec<Option<T>>) -> (res: (Vec<T>, Vec<T>))
    requires
        a.len() == b.len(),
    ensures
        res.0@ == firsts(paired(a@, b@)),
        res.1@ == seconds(paired(a@, b@)),
{
    let n = a.len();
    let mut xs: Vec<T> = Vec::new();
    let mut ys: Vec<T> = Vec::new();
    let mut i: usize = 0;
    while i < n
        invariant
            n == a.len(),
            n == b.len(),
            i <= n,
            xs@ == firsts(paired(a@.take(i as int), b@.take(i as int))),
            ys@ == seconds(paired(a@.take(i as int), b@.take(i as int))),
        decreases n - i,
    {
        let ghost before = paired(a@.take(i as int), b@.take(i as int));
        assert(a@.take(i + 1).drop_last() =~= a@.take(i as int));
        assert(b@.take(i + 1).take(i as int) =~= b@.take(i as int));
        match (a[i], b[i]) {
            (Some(x), Some(y)) => {
                xs.push(x);
                ys.push(y);
                assert(paired(a@.take(i + 1), b@.take(i + 1)) == before.push((x, y)));
                assert(xs@ =~= firsts(before.push((x, y))));
                assert(ys@ =~= seconds(before.push((x, y))));
            },
            _ => {},
        }
        i = i + 1;
    }
    assert(a@.take(n as int) =~= a@);
    assert(b@.take(n as int) =~= b@);
    (xs, ys)
}

/// Every column has a value in row `i`.
pub open spec fn row_complete<T>(cols: Seq<Vec<Option<T>>>, i: int) -> bool {
    forall|c: int| 0 <= c < cols.len() ==> (#[trigger] cols[c])@[i] is Some
}

/// Number of rows among the first `n` where every column has a value
/// (listwise deletion).
pub open spec fn complete_count<T>(cols: Seq<Vec<Option<T>>>, n: nat) -> nat
    decreases n,
{
    if n == 0 {
        0
    } else {
        complete_count(cols, (n - 1) as nat) + if row_complete(cols, n - 1) { 1nat } else { 0nat }
    }
}

fn is_row_complete<T>(cols: &Vec<Vec<Option<T>>>, i: usize) -> (res: bool)
    requires
        forall|c: int| 0 <= c < cols.len() ==> i < (#[trigger] cols@[c]).len(),
    ensures
        res == row_complete(cols@, i as int),
{
    let mut c: usize = 0;
    while c < cols.len()
        invariant
            c <= cols.len(),
            forall|k: int| 0 <= k < cols.len() ==> i < (#[trigger] cols@[k]).len(),
            forall|k: int| 0 <= k < c ==> (#[trigger] cols@[k])@[i as int] is Some,
        decreases cols.len() - c,
    {
        if cols[c][i].is_none() {
            return false;
        }
        c = c + 1;
    }
    true
}

/// Number of rows in which every column has a value.
pub fn listwise_count<T>(cols: &Vec<Vec<Option<T>>>, nrows: usize) -> (count: usize)
    requires
        forall|c: int| 0 <= c < cols.len() ==> (#[trigger] cols@[c]).len() == nrows,
    ensures
        count == complete_count(cols@, nrows as nat),
{
    let mut count: usize = 0;
    let mut i: usize = 0;
    while i < nrows
        invariant
            i <= nrows,
            forall|c: int| 0 <= c < cols.len() ==> (#[trigger] cols@[c]).len() == nrows,
            count == complete_count(cols@, i as nat),
            count <= i,
        decreases nrows - i,
    {
        if is_row_complete(cols, i) {
            count = count + 1;
        }
        i = i + 1;
    }
    count
}

/// The rows among the first `n` where `y` and every column of `xs` have a value.
pub open spec fn complete_rows_upto<T>(y: Seq<Option<T>>, xs: Seq<Vec<Option<T>>>, n: nat) -> Seq<usize>
    decreases n,
{
    if n == 0 {
        Seq::empty()
    } else {
        let rest = complete_rows_upto(y, xs, (n - 1) as nat);
        if y[n - 1] is Some && row_complete(xs, n - 1) {
            rest.push((n - 1) as usize)
        } else {
            rest
        }
    }
}

/// The rows, in order, where the dependent and all predictors have a value.
pub fn complete_rows<T>(y: &Vec<Option<T>>, xs: &Vec<Vec<Option<T>>>) -> (rows: Vec<usize>)
    requires
        forall|c: int| 0 <= c < xs.len() ==> (#[trigger] xs@[c]).len() == y.len(),
    ensures
        rows@ == complete_rows_upto(y@, xs@, y.len() as nat),
{
    let n = y.len();
    let mut rows: Vec<usize> = Vec::new();
    let mut i: usize = 0;
    while i < n
        invariant
            n == y.len(),
            i <= n,
            forall|c: int| 0 <= c < xs.len() ==> (#[trigger] xs@[c]).len() == n,
            rows@ == complete_rows_upto(y@, xs@, i as nat),
        decreases n - i,
    {
        if y[i].is_some() && is_row_complete(xs, i) {
            rows.push(i);
        }
        i = i + 1;
    }
    rows
}

/// The rows with a value whose label is `g1` (flagged `true`) or else `g2`
/// (flagged `false`), in row order.
pub open spec fn two_group_rows<T>(
    labels: Seq<Option<String>>,
    values: Seq<Option<T>>,
    g1: Seq<char>,
    g2: Seq<char>,
) -> Seq<(T, bool)>
    decreases labels.len(),
{
    if labels.len() == 0 {
        Seq::empty()
    } else {
        let rest = two_group_rows(labels.drop_last(), values.take(labels.len() - 1), g1, g2);
        match (labels.last(), values[labels.len() - 1]) {
            (Some(l), Some(v)) => if l@ == g1 {
                rest.push((v, true))
            } else if l@ == g2 {
                rest.push((v, false))
            } else {
                rest
            },
            _ => rest,
        }
    }
}

pub open spec fn row_values<T>(s: Seq<(T, bool)>) -> Seq<T> {
    s.map_values(|p: (T, bool)| p.0)
}

pub open spec fn row_flags<T>(s: Seq<(T, bool)>) -> Seq<bool> {
    s.map_values(|p: (T, bool)| p.1)
}

/// The values of the rows flagged `want`, in order.
pub open spec fn flagged_values<T>(s: Seq<(T, bool)>, want: bool) -> Seq<T>
    decreases s.len(),
{
    if s.len() == 0 {
        Seq::empty()
    } else {
        let rest = flagged_values(s.drop_last(), want);
        if s.last().1 == want {
            rest.push(s.last().0)
        } else {
            rest
        }
    }
}

/// The rows of two groups, with a flag that is `true` for the first group.
pub fn select_two_groups<T: Copy>(
    labels: &Vec<Option<String>>,
    values: &Vec<Option<T>>,
    g1: &str,
    g2: &str,
) -> (res: (Vec<T>, Vec<bool>))
    requires
        labels.len() == values.len(),
    ensures
        res.0@ == row_values(two_group_rows(labels@, values@, g1@, g2@)),
        res.1@ == row_flags(two_group_rows(labels@, values@, g1@, g2@)),
{
    let n = labels.len();
    let mut vs: Vec<T> = Vec::new();
    let mut fs: Vec<bool> = Vec::new();
    let mut i: usize = 0;
    while i < n
        invariant
            n == labels.len(),
            n == values.len(),
            i <= n,
            vs@ == row_values(two_group_rows(labels@.take(i as int), values@.take(i as int), g1@, g2@)),
            fs@ == row_flags(two_group_rows(labels@.take(i as int), values@.take(i as int), g1@, g2@)),
        decreases n - i,
    {
        let ghost before = two_group_rows(labels@.take(i as int), values@.take(i as int), g1@, g2@);
        assert(labels@.take(i + 1).drop_last() =~= labels@.take(i as int));
        assert(values@.take(i + 1).take(i as int) =~= values@.take(i as int));
        match (&labels[i], values[i]) {
            (Some(l), Some(v)) => {
                if compare_text(l.as_str(), g1) == 0 {
                    vs.push(v);
                    fs.push(true);
                    assert(vs@ =~= row_values(before.push((v, true))));
                    assert(fs@ =~= row_flags(before.push((v, true))));
                } else if compare_text(l.as_str(), g2) == 0 {
                    vs.push(v);
                    fs.push(false);
                    assert(vs@ =~= row_values(before.push((v, false))));
                    assert(fs@ =~= row_flags(before.push((v, false))));
                }
            },
            _ => {},
        }
        i = i + 1;
    }
    assert(labels@.take(n as int) =~= labels@);
    assert(values@.take(n as int) =~= values@);
    (vs, fs)
}

/// The values of the two groups, each in row order.
pub fn split_two_groups<T: Copy>(
    labels: &Vec<Option<String>>,
    values: &Vec<Option<T>>,
    g1: &str,
    g2: &str,
) -> (res: (Vec<T>, Vec<T>))
    requires
        labels.len() == values.len(),
    ensures
        res.0@ == flagged_values(two_group_rows(labels@, values@, g1@, g2@), true),
        res.1@ == flagged_values(two_group_rows(labels@, values@, g1@, g2@), false),
{
    let ghost s = two_group_rows(labels@, values@, g1@, g2@);
    let (vs, fs) = select_two_groups(labels, values, g1, g2);
    let mut a: Vec<T> = Vec::new();
    let mut b: Vec<T> = Vec::new();
    let mut i: usize = 0;
    while i < vs.len()
        invariant
            vs@ == row_values(s),
            fs@ == row_flags(s),
            vs.len() == s.len(),
            fs.len() == s.len(),
            i <= vs.len(),
            a@ == flagged_values(s.take(i as int), true),
            b@ == flagged_values(s.take(i as int), false),
        decreases vs.len() - i,
    {
        assert(s.take(i + 1).drop_last() =~= s.take(i as int));
        assert(s.take(i + 1).last() == s[i as int]);
        if fs[i] {
            a.push(vs[i]);
        } else {
            b.push(vs[i]);
        }
        i = i + 1;
    }
    assert(s.take(vs.len() as int) =~= s);
    (a, b)
}


/// The rows kept by listwise deletion are, in increasing order, exactly the rows
/// below `n` where the dependent and every predictor have a value.
pub proof fn lemma_complete_rows<T>(y: Seq<Option<T>>, xs: Seq<Vec<Option<T>>>, n: nat)
    requires
        n <= y.len(),
        n <= usize::MAX,
        forall|c: int| 0 <= c < xs.len() ==> (#[trigger] xs[c])@.len() >= n,
    ensures
        forall|i: int, j: int| 0 <= i < j < complete_rows_upto(y, xs, n).len()
            ==> #[trigger] complete_rows_upto(y, xs, n)[i] < #[trigger] complete_rows_upto(y, xs, n)[j],
        forall|k: int| 0 <= k < complete_rows_upto(y, xs, n).len() ==> #[trigger] complete_rows_upto(y, xs, n)[k] < n,
        forall|r: int| 0 <= r < n ==> (complete_rows_upto(y, xs, n).contains(r as usize) <==> (y[r] is Some
            && forall|c: int| 0 <= c < xs.len() ==> (#[trigger] xs[c])@[r] is Some)),
    decreases n,
{
    if n > 0 {
        lemma_complete_rows(y, xs, (n - 1) as nat);
        let rest = complete_rows_upto(y, xs, (n - 1) as nat);
        let all = complete_rows_upto(y, xs, n);
        let last = (n - 1) as usize;
        let keep = y[n - 1] is Some && row_complete(xs, n - 1);
        if keep {
            assert(all == rest.push(last));
        } else {
            assert(all == rest);
        }
        assert forall|i: int, j: int| 0 <= i < j < all.len() implies #[trigger] all[i] < #[trigger] all[j] by {
            if j < rest.len() {
                assert(all[i] == rest[i] && all[j] == rest[j]);
            } else {
                assert(all[i] == rest[i]);
                assert(rest[i] < n - 1);
            }
        }
        assert forall|k: int| 0 <= k < all.len() implies #[trigger] all[k] < n by {
            if k < rest.len() {
                assert(all[k] == rest[k]);
            }
        }
        assert forall|r: int| 0 <= r < n implies (all.contains(r as usize) <==> (y[r] is Some
            && forall|c: int| 0 <= c < xs.len() ==> (#[trigger] xs[c])@[r] is Some)) by {
            if r < n - 1 {
                if all.contains(r as usize) {
                    let k = choose|k: int| 0 <= k < all.len() && all[k] == r as usize;
                    if k < rest.len() {
                        assert(rest[k] == all[k]);
                        assert(rest.contains(r as usize));
                    } else {
                        assert(all[k] == last);
                    }
                }
                if rest.contains(r as usize) {
                    let k = choose|k: int| 0 <= k < rest.len() && rest[k] == r as usize;
                    assert(all[k] == rest[k]);
                    assert(all.contains(r as usize));
                }
            } else {
                if keep {
                    assert(all[rest.len() as int] == last);
                    assert(all.contains(r as usize));
                } else {
                    if all.contains(r as usize) {
                        let k = choose|k: int| 0 <= k < all.len() && all[k] == r as usize;
                        assert(all[k] == rest[k]);
                        assert(rest[k] < n - 1);
                    }
                }
            }
        }
    }
}

/// Listwise deletion counts one more row exactly when every column has a value
/// in it.
pub proof fn lemma_complete_count_step<T>(cols: Seq<Vec<Option<T>>>, n: nat)
    ensures
        complete_count(cols, 0) == 0,
        complete_count(cols, n + 1) == complete_count(cols, n)
            + if forall|c: int| 0 <= c < cols.len() ==> (#[trigger] cols[c])@[n as int] is Some { 1nat } else { 0nat },
{
}

/// Pairwise deletion keeps a row as a pair exactly when both columns have a value.
pub proof fn lemma_paired_step<T>(a: Seq<Option<T>>, b: Seq<Option<T>>, x: Option<T>, y: Option<T>)
    requires
        a.len() == b.len(),
    ensures
        paired(Seq::<Option<T>>::empty(), Seq::<Option<T>>::empty()) == Seq::<(T, T)>::empty(),
        paired(a.push(x), b.push(y)) == (match (x, y) {
            (Some(u), Some(v)) => paired(a, b).push((u, v)),
            _ => paired(a, b),
        }),
{
    assert(a.push(x).drop_last() =~= a);
    assert(b.push(y).take(a.len() as int) =~= b);
}

/// A row goes to the first group when its label is `g1`, else to the second
/// when it is `g2`, and only when it has a value.
pub proof fn lemma_two_group_rows_step<T>(
    labels: Seq<Option<String>>,
    values: Seq<Option<T>>,
    g1: Seq<char>,
    g2: Seq<char>,
    l: Option<String>,
    v: Option<T>,
)
    requires
        labels.len() == values.len(),
    ensures
        two_group_rows(Seq::<Option<String>>::empty(), Seq::<Option<T>>::empty(), g1, g2) == Seq::<(T, bool)>::empty(),
        two_group_rows(labels.push(l), values.push(v), g1, g2) == (match (l, v) {
            (Some(s), Some(x)) => if s@ == g1 {
                two_group_rows(labels, values, g1, g2).push((x, true))
            } else if s@ == g2 {
                two_group_rows(labels, values, g1, g2).push((x, false))
            } else {
                two_group_rows(labels, values, g1, g2)
            },
            _ => two_group_rows(labels, values, g1, g2),
        }),
{
    assert(labels.push(l).drop_last() =~= labels);
    assert(values.push(v).take(labels.len() as int) =~= values);
}

/// The values of a group are the values of its flagged rows, in order.
pub proof fn lemma_flagged_values_step<T>(s: Seq<(T, bool)>, x: T, f: bool, want: bool)
    ensures
        flagged_values(Seq::<(T, bool)>::empty(), want) == Seq::<T>::empty(),
        flagged_values(s.push((x, f)), want) == if f == want {
            flagged_values(s, want).push(x)
        } else {
            flagged_values(s, want)
        },
{
    assert(s.push((x, f)).drop_last() =~= s);
}

} // verus!
