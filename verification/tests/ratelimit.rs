use bcr::ratelimit::RateLimiter;

const SECOND: u128 = 1_000_000_000;

#[test]
fn allows_up_to_burst_then_blocks() {
    // rate=0 means no refill; the bucket starts full at `burst`.
    let mut rl = RateLimiter::new(0, 3);
    assert!(rl.allow());
    assert!(rl.allow());
    assert!(rl.allow());
    assert!(!rl.allow()); // bucket drained, no refill
}

#[test]
fn burst_floors_at_one() {
    let mut rl = RateLimiter::new(0, 0);
    assert!(rl.allow());
    assert!(!rl.allow());
}

#[test]
fn refills_at_the_rate() {
    let mut rl = RateLimiter::new(4, 1);
    assert!(rl.allow_at(0));
    assert!(!rl.allow_at(SECOND / 4 - 1));
    assert!(rl.allow_at(SECOND / 4));
    assert!(!rl.allow_at(SECOND / 4));
    assert!(rl.allow_at(SECOND / 2));
}

#[test]
fn never_holds_more_than_the_burst() {
    let mut rl = RateLimiter::new(1000, 2);
    for _ in 0..2 {
        assert!(rl.allow_at(100 * SECOND));
    }
    assert!(!rl.allow_at(100 * SECOND));
}

#[test]
fn total_stays_within_rate_and_burst() {
    let mut rl = RateLimiter::new(10, 5);
    let mut passed = 0;
    for tick in 0..=1000u128 {
        if rl.allow_at(tick * SECOND / 100) {
            passed += 1;
        }
    }
    // A burst of 5, and 10 per second for 10 seconds.
    assert_eq!(passed, 105);
}

#[test]
fn clock_steps_backwards_bring_nothing() {
    let mut rl = RateLimiter::new(1, 1);
    assert!(rl.allow_at(5 * SECOND));
    assert!(!rl.allow_at(4 * SECOND));
    assert!(rl.allow_at(5 * SECOND));
}

#[test]
fn far_future_does_not_overflow() {
    let mut rl = RateLimiter::new(u32::MAX, u32::MAX);
    assert!(rl.allow_at(u128::MAX));
}

#[test]
fn time_passes_on_the_real_clock() {
    // A billion per second: any two readings are far enough apart.
    let mut rl = RateLimiter::new(1_000_000_000, 1);
    assert!(rl.allow());
    let mut again = false;
    for _ in 0..1_000_000 {
        again = again || rl.allow();
    }
    assert!(again);
}

#[test]
fn limiter_from_options() {
    assert!(RateLimiter::from_options(0, None).is_none());
    assert!(RateLimiter::from_options(0, Some(7)).is_none());
    let mut by_rate = RateLimiter::from_options(3, None).unwrap();
    let mut given = RateLimiter::from_options(3, Some(1)).unwrap();
    for _ in 0..3 {
        assert!(by_rate.allow_at(0));
    }
    assert!(!by_rate.allow_at(0));
    assert!(given.allow_at(0));
    assert!(!given.allow_at(0));
}

#[test]
fn idle_time_does_not_add_up() {
    let mut rl = RateLimiter::new(10, 5);
    let start = 1000 * SECOND;
    let mut passed = 0;
    for tick in 0..=100u128 {
        if rl.allow_at(start + tick * SECOND / 100) {
            passed += 1;
        }
    }
    // A burst of 5, and 10 for the second in which packets came.
    assert_eq!(passed, 15);
}

#[test]
fn real_clock_never_steps_behind_the_last_time() {
    let mut rl = RateLimiter::new(1, 1);
    assert!(rl.allow_at(1_000_000 * SECOND));
    assert!(!rl.allow());
    assert!(!rl.allow_at(1_000_000 * SECOND));
    assert!(rl.allow_at(1_000_001 * SECOND));
}
