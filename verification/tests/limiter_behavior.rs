use rate_limiter::decimal::to_decimal;
use rate_limiter::limiter::Decision;
use rate_limiter::limiter::Options;
use rate_limiter::limiter::RateLimiter;
use rate_limiter::limiter::decide;
use rate_limiter::limiter::rejection_body;
use rate_limiter::stores::MemoryStore;

fn limiter(max: usize, window_seconds: usize) -> RateLimiter<MemoryStore> {
    let options = Options { max, window_seconds };
    RateLimiter::new(options, MemoryStore::new(options))
}

#[test]
fn requests_within_quota_are_admitted_with_their_count() {
    let mut rl = limiter(5, 60);
    for i in 1usize..=5 {
        let d = rl.check("1.2.3.4", 100).unwrap();
        assert_eq!(d, Decision::Admit { current: i });
    }
}

#[test]
fn requests_over_quota_are_rejected_with_the_configured_values() {
    let mut rl = limiter(3, 120);
    for i in 1usize..=3 {
        assert_eq!(rl.check("1.2.3.4", 100).unwrap(), Decision::Admit { current: i });
    }
    for _ in 0usize..4 {
        let d = rl.check("1.2.3.4", 110).unwrap();
        assert_eq!(d, Decision::Reject { max: 3, window_seconds: 120 });
    }
}

#[test]
fn distinct_keys_never_affect_each_other() {
    let mut rl = limiter(2, 60);
    assert_eq!(rl.check("1.2.3.4", 100).unwrap(), Decision::Admit { current: 1 });
    assert_eq!(rl.check("1.2.3.4", 100).unwrap(), Decision::Admit { current: 2 });
    assert_eq!(rl.check("1.2.3.4", 100).unwrap(), Decision::Reject { max: 2, window_seconds: 60 });
    // The other key still starts from a fresh counter.
    assert_eq!(rl.check("5.6.7.8", 100).unwrap(), Decision::Admit { current: 1 });
    assert_eq!(rl.check("5.6.7.8", 100).unwrap(), Decision::Admit { current: 2 });
}

#[test]
fn elapsed_window_resets_the_count_to_one() {
    let mut rl = limiter(2, 60);
    for _ in 0usize..5 {
        rl.check("1.2.3.4", 100).unwrap();
    }
    // More than window_seconds after the window began: fresh again.
    let d = rl.check("1.2.3.4", 161).unwrap();
    assert_eq!(d, Decision::Admit { current: 1 });
}

#[test]
fn quota_scenario_two_per_minute() {
    let mut rl = limiter(2, 60);
    let r1 = rl.check("1.2.3.4", 1000).unwrap();
    let r2 = rl.check("1.2.3.4", 1001).unwrap();
    assert_eq!(r1, Decision::Admit { current: 1 });
    assert_eq!(r2, Decision::Admit { current: 2 });
    let r3 = rl.check("1.2.3.4", 1001).unwrap();
    assert_eq!(r3, Decision::Reject { max: 2, window_seconds: 60 });
    assert_eq!(rejection_body(2, 60), "2 max requests per 60");
    let r4 = rl.check("1.2.3.4", 1062).unwrap();
    assert_eq!(r4, Decision::Admit { current: 1 });
}

#[test]
fn rejected_requests_still_count_against_the_quota() {
    let mut rl = limiter(1, 60);
    assert_eq!(rl.check("1.2.3.4", 100).unwrap(), Decision::Admit { current: 1 });
    assert_eq!(rl.check("1.2.3.4", 130).unwrap(), Decision::Reject { max: 1, window_seconds: 60 });
    // The rejected request was persisted too; the window still runs from 100.
    assert_eq!(rl.check("1.2.3.4", 160).unwrap(), Decision::Reject { max: 1, window_seconds: 60 });
    assert_eq!(rl.check("1.2.3.4", 161).unwrap(), Decision::Admit { current: 1 });
}

#[test]
fn decide_charges_one_more_than_the_counter_read() {
    let options = Options { max: 2, window_seconds: 60 };
    assert_eq!(decide(&options, None), (1, Decision::Admit { current: 1 }));
    assert_eq!(decide(&options, Some(1)), (2, Decision::Admit { current: 2 }));
    assert_eq!(decide(&options, Some(2)), (3, Decision::Reject { max: 2, window_seconds: 60 }));
    assert_eq!(decide(&options, Some(9)), (10, Decision::Reject { max: 2, window_seconds: 60 }));
}

#[test]
fn rejection_body_renders_quota_and_window() {
    assert_eq!(rejection_body(10, 1), "10 max requests per 1");
    assert_eq!(rejection_body(0, 0), "0 max requests per 0");
    assert_eq!(rejection_body(100, 3600), "100 max requests per 3600");
}

#[test]
fn to_decimal_renders_exact_digits() {
    assert_eq!(to_decimal(0), "0");
    assert_eq!(to_decimal(7), "7");
    assert_eq!(to_decimal(10), "10");
    assert_eq!(to_decimal(409), "409");
    assert_eq!(to_decimal(usize::MAX), usize::MAX.to_string());
}
