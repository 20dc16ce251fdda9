use dpll::cli::{duration_stats, DurationStats, Stats};

#[test]
fn a_new_run_has_done_nothing() {
    let stats = Stats::new();
    assert_eq!(stats.processed, 0);
    assert_eq!(stats.errors, 0);
    assert_eq!(stats.sat_count, 0);
    assert_eq!(stats.unsat_count, 0);
    assert_eq!(stats.verified_count, 0);
    assert_eq!(stats.failed_verifications, 0);
    assert!(stats.durations.is_empty());
    assert!(stats.parse_durations.is_empty());
    assert!(stats.solve_durations.is_empty());
}

#[test]
fn durations_are_summed_and_read_off_in_order() {
    assert_eq!(duration_stats(&[]), None);
    assert_eq!(
        duration_stats(&[7]),
        Some(DurationStats {
            total: 7,
            min: 7,
            median: 7,
            avg: 7,
            max: 7
        })
    );
    assert_eq!(
        duration_stats(&[30, 10, 50, 20, 45]),
        Some(DurationStats {
            total: 155,
            min: 10,
            median: 30,
            avg: 31,
            max: 50
        })
    );
    // An even number of durations: the median is the mean of the two in
    // the middle, rounded down like the mean of all.
    assert_eq!(
        duration_stats(&[9, 1, 4, 2]),
        Some(DurationStats {
            total: 16,
            min: 1,
            median: 3,
            avg: 4,
            max: 9
        })
    );
    assert_eq!(
        duration_stats(&[2, 5, 2]),
        Some(DurationStats {
            total: 9,
            min: 2,
            median: 2,
            avg: 3,
            max: 5
        })
    );
}

#[test]
fn the_sum_of_long_durations_does_not_wrap() {
    let found = duration_stats(&[u64::MAX, u64::MAX, u64::MAX - 1]).unwrap();
    assert_eq!(found.total, 3 * (u64::MAX as u128) - 1);
    assert_eq!(found.min, u64::MAX - 1);
    assert_eq!(found.median, u64::MAX);
    assert_eq!(found.max, u64::MAX);
    assert_eq!(found.avg, u64::MAX - 1);
    let pair = duration_stats(&[u64::MAX, u64::MAX - 2]).unwrap();
    assert_eq!(pair.median, u64::MAX - 1);
}
