use aoc2023::arith::{lcm, lcm_of_list};

#[test]
fn lcm_of_two() {
    assert_eq!(lcm(4, 6), Some(12));
    assert_eq!(lcm(6, 4), Some(12));
    assert_eq!(lcm(7, 3), Some(21));
    assert_eq!(lcm(2, 4), Some(4));
    assert_eq!(lcm(1, 1), Some(1));
    assert_eq!(lcm(12, 12), Some(12));
}

#[test]
fn lcm_with_zero_is_zero() {
    assert_eq!(lcm(0, 5), Some(0));
    assert_eq!(lcm(5, 0), Some(0));
    assert_eq!(lcm(0, 0), Some(0));
    assert_eq!(lcm_of_list(&vec![4, 0, 6]), Some(0));
    assert_eq!(lcm_of_list(&vec![u64::MAX, u64::MAX - 1, 0]), Some(0));
}

#[test]
fn lcm_that_does_not_fit_is_none() {
    assert_eq!(lcm(u64::MAX, u64::MAX - 1), None);
    assert_eq!(lcm(u64::MAX, u64::MAX), Some(u64::MAX));
    assert_eq!(lcm(1 << 63, 3), None);
    assert_eq!(lcm(1 << 63, 1 << 62), Some(1 << 63));
    assert_eq!(lcm_of_list(&vec![1 << 63, 3, 5]), None);
}

#[test]
fn lcm_of_four_six_and_ten_is_sixty() {
    assert_eq!(lcm_of_list(&vec![4, 6, 10]), Some(60));
    assert_eq!(lcm_of_list(&vec![10, 4, 6]), Some(60));
}

#[test]
fn lcm_of_nothing_is_one() {
    assert_eq!(lcm_of_list(&vec![]), Some(1));
    assert_eq!(lcm_of_list(&vec![9]), Some(9));
}

#[test]
fn lcm_of_coprime_periods_is_their_product() {
    assert_eq!(lcm_of_list(&vec![3761, 3767, 4001, 4091]), Some(3761 * 3767 * 4001 * 4091));
}
