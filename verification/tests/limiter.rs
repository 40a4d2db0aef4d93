use axum_gcra::gcra::{decide, Quota, RateLimitError, RateLimiter, STEP};
use std::collections::hash_map::RandomState;

const SECOND: u64 = 1_000_000_000;

fn limiter(gc_interval: u64) -> RateLimiter<u64, RandomState> {
    RateLimiter::new(gc_interval, RandomState::new())
}

fn ask(
    limiter: &mut RateLimiter<u64, RandomState>,
    key: u64,
    quota: Quota,
    now: u64,
) -> Result<(), RateLimitError> {
    limiter.req_peek_key(key, quota, now, |_key: &u64| ()).1
}

#[test]
fn quota_of_interval_and_burst() {
    let quota = Quota::new(SECOND, 5);
    assert_eq!(quota.interval, SECOND);
    assert_eq!(quota.tolerance, 4 * SECOND);
    assert_eq!(Quota::new(SECOND, 1), Quota::simple(SECOND));
    assert_eq!(Quota::new(SECOND, 0), Quota::simple(SECOND));
    assert_eq!(Quota::new(u64::MAX, 3).tolerance, u64::MAX);
    assert_eq!(Quota::default(), Quota::simple(SECOND));
}

#[test]
fn decide_moves_the_arrival_time_or_names_the_wait() {
    let quota = Quota::new(10, 3);
    assert_eq!(decide(None, quota, 100), Ok(110));
    assert_eq!(decide(Some(90), quota, 100), Ok(110));
    assert_eq!(decide(Some(120), quota, 100), Ok(130));
    assert_eq!(decide(Some(121), quota, 100), Err(RateLimitError { time_left: 1 }));
    assert_eq!(decide(Some(200), quota, 100), Err(RateLimitError { time_left: 80 }));
    assert_eq!(decide(None, quota, u64::MAX - 1), Ok(u64::MAX));
}

#[test]
fn one_request_per_interval() {
    let mut l = limiter(u64::MAX);
    let quota = Quota::simple(SECOND);
    assert_eq!(ask(&mut l, 1, quota, 0), Ok(()));
    assert_eq!(ask(&mut l, 1, quota, 1), Err(RateLimitError { time_left: SECOND - 1 }));
    assert_eq!(ask(&mut l, 1, quota, SECOND - 1), Err(RateLimitError { time_left: 1 }));
    assert_eq!(ask(&mut l, 1, quota, SECOND), Ok(()));
}

#[test]
fn rate_stays_within_time_and_burst() {
    let mut l = limiter(3);
    let quota = Quota::new(10, 4);
    let mut admitted = 0;
    for now in 0..=100u64 {
        for _ in 0..3 {
            if ask(&mut l, 7, quota, now).is_ok() {
                admitted += 1;
            }
        }
    }
    // once per whole interval, and the burst
    assert_eq!(admitted, 100 / 10 + 4);
}

#[test]
fn rate_stays_within_time_and_burst_out_of_order() {
    let mut l = limiter(u64::MAX);
    let quota = Quota::new(10, 4);
    let mut admitted = 0;
    for i in 0..=100u64 {
        let now = (i * 37) % 101;
        for _ in 0..3 {
            if ask(&mut l, 7, quota, now).is_ok() {
                admitted += 1;
            }
        }
    }
    assert!(admitted <= 100 / 10 + 4);
    assert!(admitted >= 4);
    // others do not matter, whenever they came
    assert!(ask(&mut l, 6, quota, 500).is_ok());
    assert!(ask(&mut l, 5, quota, 2).is_ok());
    assert!(ask(&mut l, 7, quota, 0).is_err());
}

#[test]
fn request_overtaken_by_a_cleanup_finds_a_new_key() {
    let mut l = limiter(u64::MAX);
    let quota = Quota::simple(10);
    assert!(ask(&mut l, 1, quota, 0).is_ok());
    assert_eq!(ask(&mut l, 1, quota, 1), Err(RateLimitError { time_left: 9 }));
    l.clean(10);
    assert!(ask(&mut l, 1, quota, 1).is_ok());
}

#[test]
fn burst_at_once() {
    let mut l = limiter(u64::MAX);
    let quota = Quota::new(10, 4);
    for _ in 0..4 {
        assert_eq!(ask(&mut l, 7, quota, 50), Ok(()));
    }
    assert_eq!(ask(&mut l, 7, quota, 50), Err(RateLimitError { time_left: 10 }));
}

#[test]
fn paced_client_is_never_refused() {
    let mut l = limiter(2);
    let quota = Quota::simple(10);
    for i in 0..100u64 {
        assert_eq!(ask(&mut l, 7, quota, 5 + 10 * i), Ok(()));
    }
}

#[test]
fn refusal_can_be_retried_when_it_says() {
    let mut l = limiter(u64::MAX);
    let quota = Quota::new(10, 2);
    assert!(ask(&mut l, 7, quota, 0).is_ok());
    assert!(ask(&mut l, 7, quota, 0).is_ok());
    let left = ask(&mut l, 7, quota, 3).unwrap_err().time_left;
    assert_eq!(left, 7);
    assert_eq!(ask(&mut l, 7, quota, 3 + left - 1), Err(RateLimitError { time_left: 1 }));
    assert_eq!(ask(&mut l, 7, quota, 3 + left), Ok(()));
}

#[test]
fn keys_do_not_disturb_each_other() {
    let mut l = limiter(u64::MAX);
    let quota = Quota::simple(SECOND);
    assert!(ask(&mut l, 1, quota, 0).is_ok());
    assert!(ask(&mut l, 2, quota, 0).is_ok());
    assert!(l.penalize(&1, SECOND));
    assert_eq!(ask(&mut l, 2, quota, SECOND), Ok(()));
    assert_eq!(ask(&mut l, 1, quota, SECOND), Err(RateLimitError { time_left: SECOND }));
}

#[test]
fn key_is_answered_as_if_it_were_alone() {
    let quota = Quota::new(7, 2);
    let mut busy = limiter(3);
    let mut alone = limiter(3);
    for now in 0..300u64 {
        if now % 3 == 0 {
            _ = ask(&mut busy, 1, quota, now);
        }
        if now % 11 == 0 {
            busy.penalize(&1, 20);
        }
        if now % 50 == 0 {
            busy.reset(&1);
        }
        if now % 4 == 0 {
            assert_eq!(ask(&mut busy, 2, quota, now), ask(&mut alone, 2, quota, now));
        }
    }
}

#[test]
fn routes_do_not_disturb_each_other() {
    let mut busy: RateLimiter<(&str, u64), RandomState> = RateLimiter::new(3, RandomState::new());
    let mut alone: RateLimiter<(&str, u64), RandomState> = RateLimiter::new(3, RandomState::new());
    let quota = Quota::new(7, 2);
    for now in 0..300u64 {
        _ = busy.req_peek_key(("/build", now % 2), quota, now, |_key: &(&str, u64)| ());
        if now % 4 == 0 {
            let key = ("/reset", 1);
            let one = busy.req_peek_key(key, quota, now, |_key: &(&str, u64)| ()).1;
            let other = alone.req_peek_key(key, quota, now, |_key: &(&str, u64)| ()).1;
            assert_eq!(one, other);
        }
    }
}

#[test]
fn penalty_needs_an_entry_and_adds_to_the_wait() {
    let mut l = limiter(u64::MAX);
    let quota = Quota::simple(10);
    assert!(!l.penalize(&1, 5));
    assert!(ask(&mut l, 1, quota, 0).is_ok());
    assert!(l.penalize(&1, 5));
    assert_eq!(ask(&mut l, 1, quota, 10), Err(RateLimitError { time_left: 5 }));
    assert!(l.penalize(&1, u64::MAX));
    assert_eq!(ask(&mut l, 1, quota, 10), Err(RateLimitError { time_left: u64::MAX - 10 }));
}

#[test]
fn reset_forgets_the_key() {
    let mut l = limiter(u64::MAX);
    let quota = Quota::simple(10);
    assert!(!l.reset(&1));
    assert!(ask(&mut l, 1, quota, 0).is_ok());
    assert!(ask(&mut l, 1, quota, 0).is_err());
    assert!(l.reset(&1));
    assert!(ask(&mut l, 1, quota, 0).is_ok());
}

#[test]
fn clean_removes_what_is_over_and_nothing_else() {
    let mut l = limiter(u64::MAX);
    let quota = Quota::simple(10);
    assert!(ask(&mut l, 1, quota, 0).is_ok()); // until 10
    assert!(ask(&mut l, 2, quota, 1).is_ok()); // until 11
    l.clean(10);
    assert!(!l.reset(&1));
    assert!(l.reset(&2));
}

#[test]
fn cleanup_in_steps_of_a_few_keys() {
    let mut l = limiter(u64::MAX);
    let quota = Quota::simple(10);
    assert_eq!(l.len(), 0);
    assert_eq!(l.sweep(0, 0), 0);
    for key in 0..150u64 {
        assert!(ask(&mut l, key, quota, key).is_ok()); // until key + 10
    }
    assert_eq!(l.len(), 150);
    let left = l.sweep(80, 150);
    assert_eq!(left, 150 - STEP);
    assert_eq!(l.len(), 150);
    let left = l.sweep(80, left);
    assert_eq!(left, 150 - 2 * STEP);
    // the keys 22 to 70 are over and were looked at, those below are over and were not
    assert_eq!(l.len(), 150 - 49);
    assert!(!l.penalize(&22, 0));
    assert!(l.penalize(&21, 0));
    assert!(l.penalize(&71, 0));
    assert_eq!(l.sweep(80, left), 0);
    assert_eq!(l.len(), 150 - 71);
    assert!(!l.penalize(&21, 0));
    assert!(l.penalize(&71, 0));
    // places beyond the list are nobody's
    assert_eq!(l.sweep(80, 1000), 79 - STEP);
}

#[test]
fn integer_keys_with_the_default_hasher() {
    let mut l = RateLimiter::<u64, ahash::RandomState>::new(u64::MAX, ahash::RandomState::default());
    let quota = Quota::simple(10);
    for key in 0..100u64 {
        assert_eq!(l.req_peek_key(key, quota, 0, |_key: &u64| ()).1, Ok(()));
    }
    for key in 0..100u64 {
        let again = l.req_peek_key(key, quota, 1, |_key: &u64| ()).1;
        assert_eq!(again, Err(RateLimitError { time_left: 9 }));
        assert!(l.penalize(&key, key));
    }
    assert_eq!(l.len(), 100);
    assert!(l.reset(&99));
    l.clean(50);
    // the keys up to 40 are over, and the last one was forgotten
    assert_eq!(l.len(), 58);
    assert!(!l.penalize(&40, 0));
    assert!(l.penalize(&41, 0));
    assert!(!l.penalize(&99, 0));
}

#[test]
fn limiter_holds_no_more_than_its_pending_keys_after_gc() {
    let mut l = limiter(10);
    let quota = Quota::simple(5);
    for i in 0..1000u64 {
        // asking twice does not take more room
        assert!(ask(&mut l, i, quota, i).is_ok());
        assert!(l.reset(&i));
        assert!(ask(&mut l, i, quota, i).is_ok());
        assert!(l.len() <= 5 + 10);
    }
}

#[test]
fn uses_between_the_steps_do_not_hide_a_key() {
    let mut l = limiter(u64::MAX);
    let quota = Quota::simple(10);
    for key in 0..200u64 {
        assert!(ask(&mut l, key, quota, 0).is_ok());
    }
    let mut left = l.len();
    let mut other = 1000;
    while left > 0 {
        left = l.sweep(10, left);
        // new keys, forgotten keys, and a whole cleanup that finds nothing over
        assert!(ask(&mut l, other, quota, 50).is_ok());
        assert_eq!(l.reset(&(left as u64 / 2)), left > 0);
        l.clean(0);
        other += 1;
    }
    for key in 0..200u64 {
        assert!(!l.penalize(&key, 0));
    }
    for key in 1000..other {
        assert!(l.penalize(&key, 0));
    }
}

#[test]
fn forgotten_key_is_cleaned_away_or_comes_back() {
    let mut l = limiter(u64::MAX);
    let quota = Quota::simple(10);
    assert!(ask(&mut l, 1, quota, 0).is_ok());
    assert!(ask(&mut l, 2, quota, 0).is_ok());
    assert!(l.reset(&1));
    assert!(l.reset(&2));
    assert!(!l.penalize(&1, 5));
    assert!(ask(&mut l, 2, quota, 0).is_ok());
    assert_eq!(l.len(), 2);
    l.clean(0);
    assert_eq!(l.len(), 1);
    assert_eq!(ask(&mut l, 2, quota, 0), Err(RateLimitError { time_left: 10 }));
    assert!(ask(&mut l, 1, quota, 0).is_ok());
}

#[test]
fn gc_runs_on_every_third_request() {
    let quota = Quota::simple(10);
    let mut l = limiter(3);
    assert!(ask(&mut l, 1, quota, 0).is_ok());
    assert!(ask(&mut l, 2, quota, 100).is_ok());
    // two requests so far: the first key is over, and still there
    assert!(l.penalize(&1, 0));
    assert!(ask(&mut l, 3, quota, 200).is_ok());
    assert!(!l.penalize(&1, 0));
    assert!(!l.penalize(&2, 0));
    assert!(l.penalize(&3, 0));
    assert!(ask(&mut l, 4, quota, 300).is_ok());
    assert!(ask(&mut l, 5, quota, 400).is_ok());
    assert!(l.penalize(&3, 0));
    assert!(ask(&mut l, 6, quota, 500).is_ok());
    assert!(!l.penalize(&3, 0));
}

#[test]
fn gc_interval_of_zero_and_one_clean_on_every_request() {
    for gc_interval in 0..2u64 {
        let mut l = limiter(gc_interval);
        assert!(ask(&mut l, 1, Quota::simple(10), 0).is_ok());
        assert!(ask(&mut l, 2, Quota::simple(10), 100).is_ok());
        assert!(!l.reset(&1));
        assert!(l.reset(&2));
    }
}

#[test]
fn gc_interval_of_max_never_cleans() {
    let mut l = limiter(u64::MAX);
    assert!(ask(&mut l, 1, Quota::simple(10), 0).is_ok());
    for i in 0..10_000u64 {
        assert!(ask(&mut l, 2, Quota::simple(10), 100 + 10 * i).is_ok());
    }
    assert!(l.reset(&1));
}

#[test]
fn gc_does_not_change_the_answers() {
    let quota = Quota::new(7, 3);
    let mut often = limiter(1);
    let mut never = limiter(u64::MAX);
    for i in 0..1000u64 {
        let (key, now) = (i % 5, i + (i / 13) * 3);
        assert_eq!(ask(&mut often, key, quota, now), ask(&mut never, key, quota, now));
        if i % 17 == 0 {
            often.reset(&key);
            never.reset(&key);
        }
    }
    // a penalty tells them apart, once the key is over
    assert!(ask(&mut often, 9, quota, 5000).is_ok());
    assert!(ask(&mut often, 8, quota, 6000).is_ok());
    assert!(!often.penalize(&9, 2000));
    assert!(ask(&mut never, 9, quota, 5000).is_ok());
    assert!(ask(&mut never, 8, quota, 6000).is_ok());
    assert!(never.penalize(&9, 2000));
    assert!(ask(&mut often, 9, quota, 6000).is_ok());
    assert!(ask(&mut never, 9, quota, 6000).is_err());
}

#[test]
fn peek_sees_the_key() {
    let mut l = limiter(u64::MAX);
    let (seen, decision) = l.req_peek_key(42, Quota::simple(10), 0, |key: &u64| *key + 1);
    assert_eq!(seen, 43);
    assert_eq!(decision, Ok(()));
}
