use freestati::analysis::{
    anova_groups, chi_square_counts, independent_samples, kruskal_wallis_test, mann_whitney_test,
    paired_samples, regression_cases, wilcoxon_test,
};
use freestati::grouping::{distinct_texts, find_text, group_by_label, labelled_cases};
use freestati::selection::{
    complete_pairs, complete_rows, listwise_count, select_two_groups, split_two_groups,
};
use freestati::tally::{tally, FreqKey};

fn s(x: &str) -> String {
    x.to_string()
}

fn labels(xs: &[Option<&str>]) -> Vec<Option<String>> {
    xs.iter().map(|o| o.map(|x| x.to_string())).collect()
}

#[test]
fn tally_orders_numbers_before_texts() {
    let keys = vec![
        Some(FreqKey::Text(s("b"))),
        Some(FreqKey::Num(7)),
        None,
        Some(FreqKey::Num(3)),
        Some(FreqKey::Text(s("a"))),
        Some(FreqKey::Num(7)),
        Some(FreqKey::Text(s("b"))),
    ];
    let t = tally(&keys);
    assert_eq!(t.total, 7);
    assert_eq!(t.valid, 6);
    assert_eq!(t.counts.len(), 4);
    assert!(matches!(t.counts[0], (FreqKey::Num(3), 1)));
    assert!(matches!(t.counts[1], (FreqKey::Num(7), 2)));
    assert!(matches!(&t.counts[2], (FreqKey::Text(x), 1) if x == "a"));
    assert!(matches!(&t.counts[3], (FreqKey::Text(x), 2) if x == "b"));
    let sum: usize = t.counts.iter().map(|c| c.1).sum();
    assert_eq!(sum, t.valid);
}

#[test]
fn tally_of_nothing() {
    let t = tally(&vec![None, None]);
    assert_eq!(t.total, 2);
    assert_eq!(t.valid, 0);
    assert!(t.counts.is_empty());
}

#[test]
fn texts_order_by_bytes() {
    let d = distinct_texts(&vec![s("b"), s("B"), s("a"), s("b"), s("ä"), s("")]);
    assert_eq!(d, vec![s(""), s("B"), s("a"), s("b"), s("ä")]);
    assert_eq!(find_text(&d, "a"), Some(2));
    assert_eq!(find_text(&d, "ä"), Some(4));
    assert_eq!(find_text(&d, "c"), None);
}

#[test]
fn groups_keep_row_order() {
    let l = labels(&[Some("2"), Some("1"), None, Some("2"), Some("1"), Some("3")]);
    let v = vec![Some(10), Some(20), Some(30), Some(40), None, Some(60)];
    let g = group_by_label(&l, &v);
    assert_eq!(g.len(), 3);
    assert_eq!(g[0], (s("1"), vec![20]));
    assert_eq!(g[1], (s("2"), vec![10, 40]));
    assert_eq!(g[2], (s("3"), vec![60]));
}

#[test]
fn pairwise_and_listwise_deletion() {
    let a = vec![Some(1), None, Some(3), Some(4)];
    let b = vec![Some(5), Some(6), None, Some(8)];
    assert_eq!(complete_pairs(&a, &b), (vec![1, 4], vec![5, 8]));
    let cols = vec![a.clone(), b.clone()];
    assert_eq!(listwise_count(&cols, 4), 2);
    assert_eq!(listwise_count(&Vec::<Vec<Option<i32>>>::new(), 3), 3);
    let y = vec![Some(1), Some(2), Some(3), None];
    assert_eq!(complete_rows(&y, &vec![b.clone()]), vec![0, 1]);
}

#[test]
fn two_groups_by_label() {
    let l = labels(&[Some("1"), Some("2"), Some("3"), Some("1"), None, Some("2")]);
    let v = vec![Some(1.5), Some(2.5), Some(3.5), None, Some(5.5), Some(6.5)];
    let (vals, flags) = select_two_groups(&l, &v, "1", "2");
    assert_eq!(vals, vec![1.5, 2.5, 6.5]);
    assert_eq!(flags, vec![true, false, false]);
    let (a, b) = split_two_groups(&l, &v, "1", "2");
    assert_eq!(a, vec![1.5]);
    assert_eq!(b, vec![2.5, 6.5]);
}

#[test]
fn independent_samples_need_two_per_group() {
    let l = labels(&[Some("1"), Some("2"), Some("3"), Some("1"), None, Some("2")]);
    let v = vec![Some(1.5), Some(2.5), Some(3.5), None, Some(5.5), Some(6.5)];
    let e = independent_samples("y", &l, &v, "1", "2").unwrap_err();
    assert_eq!(e, "Need at least 2 valid cases per group for 'y' (group 1: 1, group 2: 2)");
    let l2 = labels(&[Some("1"), Some("1"), Some("2"), Some("2")]);
    let v2 = vec![Some(1), Some(2), Some(3), Some(4)];
    assert_eq!(independent_samples("y", &l2, &v2, "1", "2").unwrap(), (vec![1, 2], vec![3, 4]));
}

#[test]
fn paired_samples_need_two_cases() {
    let e = paired_samples(0, &vec![Some(1), None], &vec![Some(2), Some(3)]).unwrap_err();
    assert_eq!(e, "Pair 1 has fewer than 2 valid cases");
    let e = paired_samples::<u64>(11, &vec![None], &vec![None]).unwrap_err();
    assert_eq!(e, "Pair 12 has fewer than 2 valid cases");
    let ok = paired_samples(0, &vec![Some(1), Some(2)], &vec![Some(3), Some(4)]).unwrap();
    assert_eq!(ok, (vec![1, 2], vec![3, 4]));
}

#[test]
fn anova_needs_two_groups() {
    let l = labels(&[Some("a"), Some("a"), None]);
    let v = vec![Some(1), Some(2), Some(3)];
    assert_eq!(anova_groups("y", "f", &l, &v).unwrap_err(), "'f' must have at least 2 groups for 'y'");
    let l = labels(&[Some("b"), Some("a"), Some("b")]);
    let g = anova_groups("y", "f", &l, &v).unwrap();
    assert_eq!(g, vec![(s("a"), vec![2]), (s("b"), vec![1, 3])]);
}

#[test]
fn regression_needs_more_cases_than_coefficients() {
    let y = vec![Some(1), Some(2), None];
    let x = vec![vec![Some(1), Some(2), Some(3)]];
    assert_eq!(
        regression_cases(&y, &x).unwrap_err(),
        "Not enough valid cases for the number of predictors"
    );
    let y = vec![Some(1), Some(2), Some(3)];
    assert_eq!(regression_cases(&y, &x).unwrap(), vec![0, 1, 2]);
}

#[test]
fn mann_whitney_needs_both_groups() {
    let e = mann_whitney_test("y", &vec![1, 2], &vec![true, true]).unwrap_err();
    assert_eq!(e, "Both groups must be non-empty for 'y'");
    let m = mann_whitney_test("y", &vec![1, 2], &vec![true, false]).unwrap();
    assert_eq!(m.u_x2, 0);
}

#[test]
fn wilcoxon_needs_a_difference() {
    let e = wilcoxon_test(2, &vec![], &vec![]).unwrap_err();
    assert_eq!(e, "Pair 3 has no non-zero differences");
    // |d| = 1, 2, 3 with signs -, +, +: W+ = 2 + 3 = 5
    let w = wilcoxon_test(0, &vec![1, 2, 3], &vec![false, true, true]).unwrap();
    assert_eq!(w.sum_first_x2, 10);
    assert_eq!(w.sum_second_x2, 2);
}

#[test]
fn kruskal_needs_two_levels() {
    let e = kruskal_wallis_test("y", "g", &vec![s("a"), s("a")], &vec![1, 2]).unwrap_err();
    assert_eq!(e, "'g' must have at least 2 groups for 'y'");
    let ok = kruskal_wallis_test("y", "g", &vec![s("a"), s("b")], &vec![1, 2]).unwrap();
    assert_eq!(ok.len(), 2);
}

#[test]
fn chi_square_needs_two_categories() {
    let e = chi_square_counts("v", &vec![Some(FreqKey::Num(1)), Some(FreqKey::Num(1)), None]).unwrap_err();
    assert_eq!(e, "'v' must have at least 2 categories");
    let t = chi_square_counts("v", &vec![Some(FreqKey::Num(1)), Some(FreqKey::Num(2))]).unwrap();
    assert_eq!(t.counts.len(), 2);
}

#[test]
fn groups_hold_every_labelled_case_once() {
    let l = labels(&[Some("b"), None, Some("a"), Some("b"), Some("c"), Some("a")]);
    let v = vec![Some(1), Some(2), None, Some(4), Some(5), Some(6)];
    let (ls, vs) = labelled_cases(&l, &v);
    assert_eq!(ls, vec![s("b"), s("b"), s("c"), s("a")]);
    assert_eq!(vs, vec![1, 4, 5, 6]);
    let g = group_by_label(&l, &v);
    let sizes: usize = g.iter().map(|x| x.1.len()).sum();
    assert_eq!(sizes, vs.len());
    assert_eq!(g, vec![(s("a"), vec![6]), (s("b"), vec![1, 4]), (s("c"), vec![5])]);
}

#[test]
fn a_tally_is_determined_by_the_data() {
    let keys = vec![Some(FreqKey::Num(5)), Some(FreqKey::Text(s("x"))), Some(FreqKey::Num(5)), None];
    let a = tally(&keys);
    let b = tally(&keys);
    assert_eq!(a.counts.len(), b.counts.len());
    assert_eq!(format!("{:?}", a.counts), format!("{:?}", b.counts));
    assert!(a.counts.iter().all(|c| c.1 > 0));
    assert!(matches!(a.counts[0], (FreqKey::Num(5), 2)));
}

fn order_key(x: f64) -> u64 {
    let x = if x == 0.0 { 0.0 } else { x };
    let b = x.to_bits();
    if b >> 63 == 1 { !b } else { b | (1 << 63) }
}

#[test]
fn procedure_cases_on_sample_data() {
    let y: Vec<Option<f64>> = [1.0, 2.0, 3.0, 4.0, 5.0, 6.0, 7.0, 8.0].iter().map(|&v| Some(v)).collect();
    let x: Vec<Option<f64>> = [2.0, 1.0, 4.0, 3.0, 6.0, 5.0, 8.0, 7.0].iter().map(|&v| Some(v)).collect();
    let grp = labels(&[Some("1"), Some("1"), Some("1"), Some("1"), Some("2"), Some("2"), Some("2"), Some("2")]);

    assert_eq!(listwise_count(&vec![y.clone(), x.clone()], 8), 8);
    let (a, b) = independent_samples("y", &grp, &y, "1", "2").unwrap();
    assert_eq!((a, b), (vec![1.0, 2.0, 3.0, 4.0], vec![5.0, 6.0, 7.0, 8.0]));
    let (p, q) = paired_samples(0, &y, &x).unwrap();
    assert_eq!((p.len(), q.len()), (8, 8));
    let groups = anova_groups("y", "grp", &grp, &y).unwrap();
    assert_eq!(groups.len(), 2);
    assert_eq!(regression_cases(&y, &vec![x.clone()]).unwrap(), (0..8).collect::<Vec<usize>>());

    let (values, first) = select_two_groups(&grp, &y, "1", "2");
    let keys: Vec<u64> = values.iter().map(|&v| order_key(v)).collect();
    let m = mann_whitney_test("y", &keys, &first).unwrap();
    // group 1 holds ranks 1..4: R1 = 10, U1 = 0, U2 = 16
    assert_eq!((m.sums.sum_first_x2, m.sums.sum_second_x2), (20, 52));
    assert_eq!((m.u1_x2, m.u2_x2, m.u_x2, m.w_x2), (0, 32, 0, 20));

    let (da, db) = complete_pairs(&y, &x);
    let diffs: Vec<f64> = da.iter().zip(&db).map(|(a, b)| b - a).filter(|d| *d != 0.0).collect();
    let abs: Vec<u64> = diffs.iter().map(|d| order_key(d.abs())).collect();
    let pos: Vec<bool> = diffs.iter().map(|&d| d > 0.0).collect();
    let w = wilcoxon_test(0, &abs, &pos).unwrap();
    assert_eq!((w.n_first, w.n_second), (4, 4));
    assert_eq!(w.sum_first_x2 + w.sum_second_x2, 8 * 9);

    let levels: Vec<String> = grp.iter().map(|l| l.clone().unwrap()).collect();
    let ykeys: Vec<u64> = y.iter().map(|v| order_key(v.unwrap())).collect();
    let k = kruskal_wallis_test("y", "grp", &levels, &ykeys).unwrap();
    assert_eq!((k[0].count, k[0].rank_sum_x2, k[1].count, k[1].rank_sum_x2), (4, 20, 4, 52));

    let cats: Vec<Option<FreqKey>> = grp.iter().map(|l| l.clone().map(FreqKey::Text)).collect();
    let t = chi_square_counts("grp", &cats).unwrap();
    assert_eq!(t.counts.len(), 2);
    assert_eq!(t.valid, 8);
}
