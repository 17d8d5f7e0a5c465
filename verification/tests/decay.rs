use kickoff::decay::decay;

#[test]
fn decay_halves_once_per_interval() {
    assert_eq!(decay(40, 0, 10), 40);
    assert_eq!(decay(40, 9, 10), 40);
    assert_eq!(decay(40, 10, 10), 20);
    assert_eq!(decay(40, 25, 10), 10);
    assert_eq!(decay(41, 10, 10), 20);
    assert_eq!(decay(1, 10, 10), 0);
}

#[test]
fn decay_with_zero_interval_is_off() {
    assert_eq!(decay(7, 1_000_000, 0), 7);
}

#[test]
fn decay_reaches_zero_and_stays() {
    assert_eq!(decay(usize::MAX, 64, 1), 0);
    assert_eq!(decay(usize::MAX, u64::MAX, 1), 0);
    assert_eq!(decay(0, 5, 1), 0);
}

#[test]
fn decay_never_grows_with_time() {
    let interval = 3600;
    let mut last = decay(1000, 0, interval);
    assert_eq!(last, 1000);
    let mut elapsed = 0;
    while elapsed < 20 * interval {
        let now = decay(1000, elapsed, interval);
        assert!(now <= last);
        last = now;
        elapsed += 600;
    }
    assert_eq!(last, 0);
}
