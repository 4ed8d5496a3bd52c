use std::time::Duration;
use wheel_timer::{round_to_ticks, ticks_of};

#[test]
fn rounds_to_the_nearest_tick() {
    assert_eq!(round_to_ticks(0, 5), 0);
    assert_eq!(round_to_ticks(2, 5), 0);
    assert_eq!(round_to_ticks(10, 10), 1);
    assert_eq!(round_to_ticks(14, 10), 1);
    assert_eq!(round_to_ticks(16, 10), 2);
    assert_eq!(round_to_ticks(5, 4), 1);
    assert_eq!(round_to_ticks(23_000_000_000, 1_000_000_000), 23);
}

#[test]
fn a_half_rounds_up() {
    assert_eq!(round_to_ticks(1, 2), 1);
    assert_eq!(round_to_ticks(3, 2), 2);
    assert_eq!(round_to_ticks(15, 10), 2);
    assert_eq!(round_to_ticks(5, 10), 1);
    assert_eq!(round_to_ticks(4, 10), 0);
    assert_eq!(round_to_ticks(1, 3), 0);
    assert_eq!(round_to_ticks(2, 3), 1);
}

#[test]
fn without_granularity_a_delay_is_nothing_or_endless() {
    assert_eq!(round_to_ticks(0, 0), 0);
    assert_eq!(round_to_ticks(1, 0), usize::MAX);
    assert_eq!(round_to_ticks(u128::MAX, 0), usize::MAX);
}

#[test]
fn what_does_not_fit_counts_as_the_most() {
    assert_eq!(round_to_ticks(u128::MAX, 1), usize::MAX);
    assert_eq!(round_to_ticks(u128::MAX, u128::MAX), 1);
    assert_eq!(round_to_ticks(usize::MAX as u128, 1), usize::MAX);
    assert_eq!(round_to_ticks(usize::MAX as u128 - 1, 1), usize::MAX - 1);
    assert_eq!(round_to_ticks(u128::MAX / 2, u128::MAX), 0);
    assert_eq!(round_to_ticks(u128::MAX / 2 + 1, u128::MAX), 1);
}

#[test]
fn durations_count_in_nanoseconds() {
    let second = Duration::from_secs(1);
    assert_eq!(ticks_of(&Duration::from_secs(3), &second), 3);
    assert_eq!(ticks_of(&Duration::from_millis(1499), &second), 1);
    assert_eq!(ticks_of(&Duration::from_millis(1500), &second), 2);
    assert_eq!(ticks_of(&Duration::from_nanos(499_999_999), &second), 0);
    assert_eq!(ticks_of(&Duration::from_nanos(500_000_000), &second), 1);
    assert_eq!(ticks_of(&Duration::from_secs(1), &Duration::from_millis(100)), 10);
    assert_eq!(ticks_of(&Duration::from_nanos(7), &Duration::from_nanos(2)), 4);
    assert_eq!(ticks_of(&Duration::from_secs(0), &Duration::from_secs(0)), 0);
    assert_eq!(ticks_of(&second, &Duration::from_secs(0)), usize::MAX);
}
