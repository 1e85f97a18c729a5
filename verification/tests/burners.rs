use resppress::burn::{burn, burn_batch, spin, total_count, within, BATCH};
use resppress::heartbeat::note_delay;
use resppress::stalls::{burn as burn_with_stalls, note_gap, worst_stall};

#[test]
fn zero_seconds_burns_nothing() {
    assert_eq!(burn(0), 0);
    assert_eq!(burn_with_stalls(0), (0, 0));
    assert_eq!(spin(0), 0);
}

#[test]
fn one_batch_adds_a_million() {
    assert_eq!(burn_batch(5), 5 + BATCH);
    assert_eq!(BATCH, 1_000_000);
}

#[test]
fn one_second_burns_whole_batches() {
    let c = burn(1);
    assert!(c > 0);
    assert_eq!(c % BATCH, 0);
    let (c2, stall) = burn_with_stalls(1);
    assert!(c2 > 0);
    assert_eq!(c2 % BATCH, 0);
    assert!(stall > 0);
}

#[test]
fn clock_limit_in_nanoseconds() {
    assert!(within(0, 1));
    assert!(within(999_999_999, 1));
    assert!(!within(1_000_000_000, 1));
    assert!(!within(0, 0));
}

#[test]
fn threads_combine() {
    assert_eq!(total_count(&[1, 2, 3]), 6);
    assert_eq!(total_count(&[u64::MAX, 2]), 1);
    assert_eq!(worst_stall(&[5, 90, 12]), 90);
    assert_eq!(worst_stall(&[]), 0);
}

#[test]
fn longest_so_far_and_worst_delay() {
    assert_eq!(note_gap(5, 9), 9);
    assert_eq!(note_gap(9, 5), 9);
    assert_eq!(note_gap(0, 0), 0);
    let mut worst = 0;
    for d in [3u128, 12, 7, 12, 1] {
        worst = note_delay(worst, d);
    }
    assert_eq!(worst, 12);
}

#[test]
fn spin_counts_steps_until_time_is_up() {
    let c = spin(1);
    assert!(c > 0);
}
