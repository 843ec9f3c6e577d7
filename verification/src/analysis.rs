//! The cases each statistical procedure works on, and the errors it reports
//! when there are too few of them. The statistics themselves are computed by
//! the caller from what these return.
use vstd::prelude::*;
use vstd::string::*;
use crate::grouping::{group_by_label, distinct_sorted, group_labels, entry_labels, labelled, picked, texts_of};
use crate::ranking::{
    RankSums, MannWhitney, LevelRanks, flagged_rank_sums, mann_whitney, level_rank_sums, flag_count,
    flagged_sum, ranks_of, label_count, label_sum, level_texts, spec_u_x2, spec_w_x2,
};
use crate::selection::{
    two_group_rows, flagged_values, split_two_groups, complete_pairs, paired, firsts, seconds,
    complete_rows, complete_rows_upto,
};
use crate::tally::{FreqKey, Tally, tally, is_tally_of, lemma_tally_unique};
use crate::text::{decimal, decimal_text};

verus! {

pub open spec fn too_few_per_group(v: Seq<char>, g1: Seq<char>, n1: nat, g2: Seq<char>, n2: nat) -> Seq<char> {
    "Need at least 2 valid cases per group for '"@ + v + "' (group "@ + g1 + ": "@ + decimal(n1) + ", group "@
        + g2 + ": "@ + decimal(n2) + ")"@
}

/// The two samples of an independent-samples t test, each in row order; an
/// error when either has fewer than 2 cases.
pub fn independent_samples<T: Copy>(
    var: &str,
    labels: &Vec<Option<String>>,
    values: &Vec<Option<T>>,
    g1: &str,
    g2: &str,
) -> (r: Result<(Vec<T>, Vec<T>), String>)
    requires
        labels.len() == values.len(),
    ensures
        ({
            let a = flagged_values(two_group_rows(labels@, values@, g1@, g2@), true);
            let b = flagged_values(two_group_rows(labels@, values@, g1@, g2@), false);
            if a.len() < 2 || b.len() < 2 {
                r matches Err(e) && e@ == too_few_per_group(var@, g1@, a.len(), g2@, b.len())
            } else {
                r matches Ok(s) && s.0@ == a && s.1@ == b
            }
        }),
{
    let (a, b) = split_two_groups(labels, values, g1, g2);
    if a.len() < 2 || b.len() < 2 {
        let mut e = String::from_str("Need at least 2 valid cases per group for '");
        e.append(var);
        e.append("' (group ");
        e.append(g1);
        e.append(": ");
        e.append(decimal_text(a.len()).as_str());
        e.append(", group ");
        e.append(g2);
        e.append(": ");
        e.append(decimal_text(b.len()).as_str());
        e.append(")");
        return Err(e);
    }
    Ok((a, b))
}

pub open spec fn pair_too_small(number: nat) -> Seq<char> {
    "Pair "@ + decimal(number) + " has fewer than 2 valid cases"@
}

/// The cases of a pair of variables for a paired t test (pairwise deletion); an
/// error naming the pair (counted from 1) when there are fewer than 2.
pub fn paired_samples<T: Copy>(pair_index: usize, a: &Vec<Option<T>>, b: &Vec<Option<T>>) -> (r: Result<(Vec<T>, Vec<T>), String>)
    requires
        a.len() == b.len(),
        pair_index < usize::MAX,
    ensures
        paired(a@, b@).len() < 2 ==> (r matches Err(e) && e@ == pair_too_small(pair_index as nat + 1)),
        paired(a@, b@).len() >= 2 ==> (r matches Ok(s) && s.0@ == firsts(paired(a@, b@)) && s.1@ == seconds(paired(a@, b@))),
{
    let (x, y) = complete_pairs(a, b);
    assert(x@.len() == paired(a@, b@).len());
    if x.len() < 2 {
        let mut e = String::from_str("Pair ");
        e.append(decimal_text(pair_index + 1).as_str());
        e.append(" has fewer than 2 valid cases");
        return Err(e);
    }
    Ok((x, y))
}

pub open spec fn too_few_groups(factor: Seq<char>, v: Seq<char>) -> Seq<char> {
    "'"@ + factor + "' must have at least 2 groups for '"@ + v + "'"@
}

/// The groups of a one-way ANOVA: the values of each level of the factor, levels
/// in `String` order; an error when there are fewer than 2 levels.
pub fn anova_groups<T: Copy>(
    var: &str,
    factor: &str,
    labels: &Vec<Option<String>>,
    values: &Vec<Option<T>>,
) -> (r: Result<Vec<(String, Vec<T>)>, String>)
    requires
        labels.len() == values.len(),
    ensures
        r matches Ok(groups) ==> groups.len() >= 2
            && distinct_sorted(group_labels(groups@), entry_labels(labelled(labels@, values@)))
            && forall|g: int| 0 <= g < groups.len() ==> (#[trigger] groups@[g]).1@ == picked(labelled(labels@, values@), groups@[g].0@),
        r matches Err(e) ==> e@ == too_few_groups(factor@, var@)
            && forall|d: Seq<Seq<char>>| #[trigger] distinct_sorted(d, entry_labels(labelled(labels@, values@))) ==> d.len() < 2,
{
    let groups = group_by_label(labels, values);
    if groups.len() < 2 {
        proof {
            assert forall|d: Seq<Seq<char>>| #[trigger] distinct_sorted(d, entry_labels(labelled(labels@, values@))) implies d.len() < 2 by {
                crate::grouping::lemma_distinct_sorted_unique(d, group_labels(groups@), entry_labels(labelled(labels@, values@)));
            }
        }
        let mut e = String::from_str("'");
        e.append(factor);
        e.append("' must have at least 2 groups for '");
        e.append(var);
        e.append("'");
        return Err(e);
    }
    Ok(groups)
}

/// The rows used by a linear regression (listwise deletion over the dependent
/// and all predictors); an error unless there are more rows than coefficients.
pub fn regression_cases<T>(y: &Vec<Option<T>>, xs: &Vec<Vec<Option<T>>>) -> (r: Result<Vec<usize>, String>)
    requires
        forall|c: int| 0 <= c < xs.len() ==> (#[trigger] xs@[c]).len() == y.len(),
    ensures
        ({
            let rows = complete_rows_upto(y@, xs@, y.len() as nat);
            if rows.len() <= xs.len() + 1 {
                r matches Err(e) && e@ == "Not enough valid cases for the number of predictors"@
            } else {
                r matches Ok(v) && v@ == rows
            }
        }),
{
    let rows = complete_rows(y, xs);
    if rows.len() <= xs.len() || rows.len() - xs.len() <= 1 {
        return Err(String::from_str("Not enough valid cases for the number of predictors"));
    }
    Ok(rows)
}

pub open spec fn empty_group(v: Seq<char>) -> Seq<char> {
    "Both groups must be non-empty for '"@ + v + "'"@
}

/// The Mann-Whitney test of two groups ranked together (the flag is `true` for
/// the first group); an error when either group is empty.
pub fn mann_whitney_test(var: &str, keys: &Vec<u64>, first: &Vec<bool>) -> (r: Result<MannWhitney, String>)
    requires
        keys.len() == first.len(),
        keys.len() < 0x4000_0000_0000_0000,
    ensures
        flag_count(first@, true) == 0 || flag_count(first@, false) == 0 ==> (r matches Err(e) && e@ == empty_group(var@)),
        r matches Ok(m) ==> flag_count(first@, true) > 0 && flag_count(first@, false) > 0
            && m.sums.n_first == flag_count(first@, true) && m.sums.n_second == flag_count(first@, false)
            && m.sums.sum_first_x2 == flagged_sum(ranks_of(keys@), first@, true)
            && m.sums.sum_second_x2 == flagged_sum(ranks_of(keys@), first@, false)
            && m.u1_x2 == m.sums.sum_first_x2 - m.sums.n_first * (m.sums.n_first + 1)
            && m.u2_x2 == m.sums.sum_second_x2 - m.sums.n_second * (m.sums.n_second + 1)
            && m.u_x2 == (if m.u1_x2 <= m.u2_x2 { m.u1_x2 } else { m.u2_x2 })
            && m.w_x2 == (if m.sums.sum_first_x2 <= m.sums.sum_second_x2 { m.sums.sum_first_x2 } else { m.sums.sum_second_x2 })
            && m.u1_x2 + m.u2_x2 == 2 * m.sums.n_first * m.sums.n_second
            && m.u_x2 == spec_u_x2(keys@, first@) && m.w_x2 == spec_w_x2(keys@, first@)
            && 0 <= m.u_x2 <= m.sums.n_first * m.sums.n_second
            && m.sums.sum_first_x2 + m.sums.sum_second_x2 == keys.len() * (keys.len() + 1),
        r is Err ==> flag_count(first@, true) == 0 || flag_count(first@, false) == 0,
{
    let m = mann_whitney(keys, first);
    if m.sums.n_first == 0 || m.sums.n_second == 0 {
        let mut e = String::from_str("Both groups must be non-empty for '");
        e.append(var);
        e.append("'");
        return Err(e);
    }
    Ok(m)
}

pub open spec fn no_differences(number: nat) -> Seq<char> {
    "Pair "@ + decimal(number) + " has no non-zero differences"@
}

/// The Wilcoxon signed-rank sums of the non-zero differences of a pair: their
/// absolute values ranked, the flag `true` for a positive difference. An error
/// naming the pair (counted from 1) when there is no non-zero difference.
pub fn wilcoxon_test(pair_index: usize, abs_keys: &Vec<u64>, positive: &Vec<bool>) -> (r: Result<RankSums, String>)
    requires
        abs_keys.len() == positive.len(),
        abs_keys.len() < 0x4000_0000_0000_0000,
        pair_index < usize::MAX,
    ensures
        abs_keys.len() == 0 ==> (r matches Err(e) && e@ == no_differences(pair_index as nat + 1)),
        abs_keys.len() > 0 ==> (r matches Ok(s) && s.n_first == flag_count(positive@, true)
            && s.n_second == flag_count(positive@, false)
            && s.sum_first_x2 == flagged_sum(ranks_of(abs_keys@), positive@, true)
            && s.sum_second_x2 == flagged_sum(ranks_of(abs_keys@), positive@, false)
            && s.sum_first_x2 + s.sum_second_x2 == abs_keys.len() * (abs_keys.len() + 1)),
{
    if abs_keys.len() < 1 {
        let mut e = String::from_str("Pair ");
        e.append(decimal_text(pair_index + 1).as_str());
        e.append(" has no non-zero differences");
        return Err(e);
    }
    Ok(flagged_rank_sums(abs_keys, positive))
}

/// The Kruskal-Wallis rank sums of each level of the factor (levels in
/// `String` order); an error when there are fewer than 2 levels.
pub fn kruskal_wallis_test(var: &str, factor: &str, labels: &Vec<String>, keys: &Vec<u64>) -> (r: Result<Vec<LevelRanks>, String>)
    requires
        labels.len() == keys.len(),
        keys.len() < 0x4000_0000_0000_0000,
    ensures
        r matches Ok(levels) ==> levels.len() >= 2
            && distinct_sorted(level_texts(levels@), texts_of(labels@))
            && (forall|g: int| 0 <= g < levels.len() ==> (#[trigger] levels@[g]).count == label_count(labels@, levels@[g].level@))
            && (forall|g: int| 0 <= g < levels.len() ==> (#[trigger] levels@[g]).rank_sum_x2 == label_sum(labels@, ranks_of(keys@), levels@[g].level@)),
        r matches Err(e) ==> e@ == too_few_groups(factor@, var@)
            && forall|d: Seq<Seq<char>>| #[trigger] distinct_sorted(d, texts_of(labels@)) ==> d.len() < 2,
{
    let levels = level_rank_sums(labels, keys);
    if levels.len() < 2 {
        proof {
            assert forall|d: Seq<Seq<char>>| #[trigger] distinct_sorted(d, texts_of(labels@)) implies d.len() < 2 by {
                crate::grouping::lemma_distinct_sorted_unique(d, level_texts(levels@), texts_of(labels@));
            }
        }
        let mut e = String::from_str("'");
        e.append(factor);
        e.append("' must have at least 2 groups for '");
        e.append(var);
        e.append("'");
        return Err(e);
    }
    Ok(levels)
}

pub open spec fn too_few_categories(v: Seq<char>) -> Seq<char> {
    "'"@ + v + "' must have at least 2 categories"@
}

/// The observed counts of a chi-square goodness-of-fit test; an error when
/// there are fewer than 2 categories.
pub fn chi_square_counts(var: &str, keys: &Vec<Option<FreqKey>>) -> (r: Result<Tally, String>)
    ensures
        r matches Ok(t) ==> is_tally_of(t, keys@) && t.counts.len() >= 2,
        r matches Err(e) ==> e@ == too_few_categories(var@)
            && forall|t: Tally| #[trigger] is_tally_of(t, keys@) ==> t.counts.len() < 2,
{
    let t = tally(keys);
    if t.counts.len() < 2 {
        proof {
            assert forall|u: Tally| #[trigger] is_tally_of(u, keys@) implies u.counts.len() < 2 by {
                lemma_tally_unique(t, u, keys@);
            }
        }
        let mut e = String::from_str("'");
        e.append(var);
        e.append("' must have at least 2 categories");
        return Err(e);
    }
    Ok(t)
}

} // verus!
