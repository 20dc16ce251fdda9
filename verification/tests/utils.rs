use dpll::utils::{
    find_coprime_to, ilog2, ilog2_ceil, primes, Backoff, BackoffStep, NonExhaustingCursor,
    NonZeroUsizeExt, VecExt,
};

#[test]
fn the_table_holds_the_first_sixty_primes() {
    let table = primes();
    assert_eq!(table.len(), 60);
    assert_eq!(table[0], 2);
    assert_eq!(table[1], 3);
    assert_eq!(table[59], 281);
    for (i, &p) in table.iter().enumerate() {
        assert!((2..p).all(|d| p % d != 0), "{} is not prime", p);
        if i > 0 {
            assert!(table[i - 1] < p);
        }
    }
}

#[test]
fn coprime_stride() {
    assert_eq!(find_coprime_to(0, 0), 1);
    assert_eq!(find_coprime_to(5, 1), 1);
    // 2 divides 6, 3 divides 6, 5 does not.
    assert_eq!(find_coprime_to(0, 6), 5);
    assert_eq!(find_coprime_to(1, 6), 5);
    assert_eq!(find_coprime_to(2, 6), 5);
    assert_eq!(find_coprime_to(3, 6), 7);
    // The search wraps round the table.
    assert_eq!(find_coprime_to(59, 281), 2);
    assert_eq!(find_coprime_to(60, 3), 2);
    assert_eq!(find_coprime_to(61, 3), 5);
    assert_eq!(find_coprime_to(usize::MAX, 7), find_coprime_to(usize::MAX % 60, 7));
    // The stride reaches every peer.
    for num in 2..40usize {
        for start in 0..4 {
            let stride = find_coprime_to(start, num);
            let mut seen = vec![false; num];
            let mut at = 0;
            for _ in 0..num {
                seen[at] = true;
                at = (at + stride) % num;
            }
            assert!(seen.iter().all(|&s| s), "stride {} for {}", stride, num);
        }
    }
}

#[test]
fn binary_logarithms() {
    assert_eq!(ilog2(0), 0);
    assert_eq!(ilog2(1), 0);
    assert_eq!(ilog2(2), 1);
    assert_eq!(ilog2(3), 1);
    assert_eq!(ilog2(4), 2);
    assert_eq!(ilog2(1023), 9);
    assert_eq!(ilog2(1024), 10);
    assert_eq!(ilog2_ceil(0), 0);
    assert_eq!(ilog2_ceil(1), 0);
    assert_eq!(ilog2_ceil(2), 1);
    assert_eq!(ilog2_ceil(3), 2);
    assert_eq!(ilog2_ceil(4), 2);
    assert_eq!(ilog2_ceil(5), 3);
    assert_eq!(ilog2_ceil(16), 4);
    assert_eq!(ilog2_ceil(17), 5);
    assert_eq!(1usize.ilog2_nz_clamped(), 1);
    assert_eq!(2usize.ilog2_nz_clamped(), 1);
    assert_eq!(3usize.ilog2_nz_clamped(), 1);
    assert_eq!(4usize.ilog2_nz_clamped(), 2);
    assert_eq!(16usize.ilog2_nz_clamped(), 4);
}

#[test]
fn ensure_capacity_keeps_the_contents() {
    let mut v = vec![1, 2, 3];
    v.ensure_capacity(100);
    assert!(v.capacity() >= 100);
    assert_eq!(v, vec![1, 2, 3]);
    v.ensure_capacity(2);
    assert_eq!(v, vec![1, 2, 3]);
}

#[test]
fn cursor_finds_matches_in_turn() {
    let items = [1, 4, 6, 7, 10, 11];
    let mut cursor = NonExhaustingCursor::new();
    assert_eq!(*cursor.next_match(&items, |x| x % 2 == 0), 4);
    assert_eq!(*cursor.next_match(&items, |x| x % 2 == 0), 6);
    assert_eq!(*cursor.next_match(&items, |x| *x > 6), 7);
    assert_eq!(*cursor.next_match(&items, |x| x % 2 == 1), 11);
    cursor.reset();
    assert_eq!(*cursor.next_match(&items, |x| x % 2 == 1), 1);
}

#[test]
fn backoff_spins_then_yields_then_sleeps_longer_and_longer() {
    let mut backoff = Backoff::new(2, 1, 1_000, 2_000, 1_500);
    assert_eq!(backoff.wait(), BackoffStep::Spin);
    assert_eq!(backoff.wait(), BackoffStep::Spin);
    assert_eq!(backoff.wait(), BackoffStep::Yield);
    assert_eq!(backoff.wait(), BackoffStep::Sleep(1_000));
    assert_eq!(backoff.wait(), BackoffStep::Sleep(1_500));
    assert_eq!(backoff.wait(), BackoffStep::Sleep(2_000));
    assert_eq!(backoff.wait(), BackoffStep::Sleep(2_000));
    backoff.reset();
    assert_eq!(backoff.wait(), BackoffStep::Spin);
    assert_eq!(backoff.wait(), BackoffStep::Spin);
    assert_eq!(backoff.wait(), BackoffStep::Yield);
    assert_eq!(backoff.wait(), BackoffStep::Sleep(1_000));
}

#[test]
fn backoff_with_huge_numbers_stays_at_the_limit() {
    let mut backoff = Backoff::new(0, 0, u64::MAX, u64::MAX, u64::MAX);
    assert_eq!(backoff.wait(), BackoffStep::Sleep(u64::MAX));
    assert_eq!(backoff.wait(), BackoffStep::Sleep(u64::MAX));
}
