use freestati::ranking::{
    flagged_rank_sums, level_rank_sums, mann_whitney, midranks2, tie_correction,
};

/// An order key for a finite number: integers ordered and compared as the numbers are.
fn order_key(x: f64) -> u64 {
    let x = if x == 0.0 { 0.0 } else { x };
    let bits = x.to_bits();
    if bits >> 63 == 1 {
        !bits
    } else {
        bits | (1u64 << 63)
    }
}

fn keys(xs: &[f64]) -> Vec<u64> {
    xs.iter().map(|&x| order_key(x)).collect()
}

fn ranks(xs: &[f64]) -> Vec<f64> {
    midranks2(&keys(xs)).iter().map(|&r| r as f64 / 2.0).collect()
}

#[test]
fn ranks_with_ties() {
    // values 1,2,2,3 → ranks 1, 2.5, 2.5, 4
    let r = ranks(&[1.0, 2.0, 2.0, 3.0]);
    assert_eq!(r, vec![1.0, 2.5, 2.5, 4.0]);
}

#[test]
fn ranks_unsorted_input_and_negative_values() {
    let r = ranks(&[3.5, -1.0, 10.0, -1.0, 0.0, -0.0]);
    assert_eq!(r, vec![5.0, 1.5, 6.0, 1.5, 3.5, 3.5]);
}

#[test]
fn ranks_empty_and_single() {
    assert_eq!(midranks2(&vec![]), Vec::<u64>::new());
    assert_eq!(midranks2(&vec![42]), vec![2]);
}

#[test]
fn doubled_ranks_sum_to_n_times_n_plus_one() {
    let k = vec![5, 5, 5, 1, 9, 9, 2];
    let r = midranks2(&k);
    let n = k.len() as u64;
    assert_eq!(r.iter().sum::<u64>(), n * (n + 1));
}

#[test]
fn all_tied_share_the_middle_rank() {
    let r = midranks2(&vec![7, 7, 7, 7]);
    assert_eq!(r, vec![5, 5, 5, 5]);
}

#[test]
fn tie_correction_counts_t_cubed_minus_t() {
    // groups of 2 and 3 tied values: (8 - 2) + (27 - 3) = 30
    assert_eq!(tie_correction(&vec![1, 2, 2, 3, 3, 3]), 30);
    assert_eq!(tie_correction(&vec![4, 1, 9]), 0);
    assert_eq!(tie_correction(&vec![]), 0);
    assert_eq!(tie_correction(&vec![6, 6]), 6);
}

#[test]
fn flagged_rank_sums_split_the_total() {
    // ranks of [1,2,3,4] are 1..4; first sample {1, 3}: 1 + 3 = 4, second 2 + 4 = 6
    let s = flagged_rank_sums(&vec![10, 20, 30, 40], &vec![true, false, true, false]);
    assert_eq!(s.n_first, 2);
    assert_eq!(s.n_second, 2);
    assert_eq!(s.sum_first_x2, 8);
    assert_eq!(s.sum_second_x2, 12);
}

#[test]
fn mann_whitney_u_statistics() {
    // group 1: 1, 2, 3; group 2: 4, 5 → R1 = 6, R2 = 9, U1 = 0, U2 = 6
    let m = mann_whitney(&vec![1, 2, 3, 4, 5], &vec![true, true, true, false, false]);
    assert_eq!(m.sums.sum_first_x2, 12);
    assert_eq!(m.sums.sum_second_x2, 18);
    assert_eq!(m.u1_x2, 0);
    assert_eq!(m.u2_x2, 12);
    assert_eq!(m.u_x2, 0);
    assert_eq!(m.w_x2, 12);
    assert_eq!(m.u1_x2 + m.u2_x2, 2 * 3 * 2);
}

#[test]
fn mann_whitney_with_ties_across_groups() {
    // values 1 2 2 3: ranks 1 2.5 2.5 4; group 1 = {1, 2(second)}: R1 = 3.5
    let m = mann_whitney(&vec![1, 2, 2, 3], &vec![true, false, true, false]);
    assert_eq!(m.sums.sum_first_x2, 7);
    assert_eq!(m.sums.sum_second_x2, 13);
    assert_eq!(m.u1_x2, 7 - 6);
    assert_eq!(m.u2_x2, 13 - 6);
    assert_eq!(m.u1_x2 + m.u2_x2, 8);
}

#[test]
fn kruskal_levels_in_text_order() {
    let labels: Vec<String> = ["b", "a", "b", "c", "a"].iter().map(|s| s.to_string()).collect();
    let levels = level_rank_sums(&labels, &vec![5, 1, 4, 3, 2]);
    let names: Vec<&str> = levels.iter().map(|l| l.level.as_str()).collect();
    assert_eq!(names, vec!["a", "b", "c"]);
    assert_eq!(levels[0].count, 2);
    assert_eq!(levels[0].rank_sum_x2, 2 * (1 + 2));
    assert_eq!(levels[1].count, 2);
    assert_eq!(levels[1].rank_sum_x2, 2 * (5 + 4));
    assert_eq!(levels[2].count, 1);
    assert_eq!(levels[2].rank_sum_x2, 2 * 3);
    let total: u128 = levels.iter().map(|l| l.rank_sum_x2).sum();
    assert_eq!(total, 5 * 6);
}

#[test]
fn swapping_groups_keeps_u_and_w() {
    let k = keys(&[3.0, 1.0, 4.0, 1.0, 5.0, 9.0, 2.0, 6.0]);
    let first = vec![true, false, true, true, false, false, true, false];
    let swapped: Vec<bool> = first.iter().map(|b| !b).collect();
    let a = mann_whitney(&k, &first);
    let b = mann_whitney(&k, &swapped);
    assert_eq!((a.u_x2, a.w_x2), (b.u_x2, b.w_x2));
    assert!(a.u_x2 >= 0 && a.u_x2 as i128 <= (a.sums.n_first * a.sums.n_second) as i128);
}
