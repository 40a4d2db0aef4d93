use axum_gcra::gc::{GcAction, GcEvent, GcTask};
use axum_gcra::key::{get_user_key, same_ty, KeyTypes, TypeMatch, UserKey};
use axum_gcra::response::{Action, Progress};
use axum_gcra::{Error, GCInterval, RateLimitError, RateLimitedResponse};
use std::time::Duration;

const OTHER: TypeMatch = TypeMatch { same: false, tuple: false, same_size: false };
const SAME: TypeMatch = TypeMatch { same: true, tuple: false, same_size: true };

type Told = Progress<&'static str, u32, &'static str, &'static str>;
type Asked = Action<u8, &'static str, &'static str, u32, &'static str, &'static str>;

#[test]
fn gc_interval_as_requests() {
    assert_eq!(GCInterval::Requests(1000).to_requests(), 1000);
    assert_eq!(GCInterval::Time(Duration::from_secs(60)).to_requests(), u64::MAX);
    assert_eq!(GCInterval::from(5), GCInterval::Requests(5));
    let minute = Duration::from_secs(60);
    assert_eq!(GCInterval::from(minute), GCInterval::Time(minute));
    assert_eq!(GCInterval::from(minute).to_period(), Some(minute));
    assert_eq!(GCInterval::from(5).to_period(), None);
}

#[test]
fn background_task_cleans_on_ticks_until_told_to_stop() {
    let task = GcTask::Waiting;
    let (task, action) = task.step(GcEvent::Woken { shutdown: false, tick: false });
    assert_eq!((task, action), (GcTask::Waiting, GcAction::Wait));
    let (task, action) = task.step(GcEvent::Woken { shutdown: false, tick: true });
    assert_eq!((task, action), (GcTask::Cleaning, GcAction::Clean));
    let (task, action) = task.step(GcEvent::Cleaned { owners: 2 });
    assert_eq!((task, action), (GcTask::Waiting, GcAction::Wait));
    let (task, action) = task.step(GcEvent::Woken { shutdown: true, tick: true });
    assert_eq!((task, action), (GcTask::Stopped, GcAction::Stop));
    assert_eq!(
        task.step(GcEvent::Woken { shutdown: false, tick: true }),
        (GcTask::Stopped, GcAction::Stop)
    );
}

#[test]
fn background_task_over_a_run_of_events() {
    let tick = GcEvent::Woken { shutdown: false, tick: true };
    let alone = GcEvent::Cleaned { owners: 1 };
    let shared = GcEvent::Cleaned { owners: 3 };
    let mut task = GcTask::Waiting;
    let mut actions = vec![];
    for event in [tick, shared, tick, shared, tick, alone, tick, shared, tick] {
        let (next, action) = task.step(event);
        task = next;
        actions.push(action);
    }
    let (clean, wait, stop) = (GcAction::Clean, GcAction::Wait, GcAction::Stop);
    assert_eq!(actions, vec![clean, wait, clean, wait, clean, stop, stop, stop, stop]);
}

#[test]
fn background_task_ends_with_the_last_owner() {
    assert_eq!(
        GcTask::Cleaning.step(GcEvent::Cleaned { owners: 1 }),
        (GcTask::Stopped, GcAction::Stop)
    );
    assert_eq!(
        GcTask::Cleaning.step(GcEvent::Woken { shutdown: true, tick: true }),
        (GcTask::Cleaning, GcAction::Wait)
    );
    assert_eq!(
        GcTask::Waiting.step(GcEvent::Cleaned { owners: 1 }),
        (GcTask::Waiting, GcAction::Wait)
    );
}

#[test]
fn same_type_or_tuple_of_the_same_layout() {
    assert!(same_ty(SAME));
    assert!(!same_ty(OTHER));
    assert!(same_ty(TypeMatch { same: false, tuple: true, same_size: true }));
    assert!(!same_ty(TypeMatch { same: false, tuple: true, same_size: false }));
    assert!(!same_ty(TypeMatch { same: false, tuple: false, same_size: true }));
}

#[test]
fn unit_key_asks_nothing_of_the_request() {
    let types = KeyTypes { unit: SAME, real_ip: OTHER, masked_ip: OTHER };
    assert_eq!(get_user_key::<&str>(types, None, None), UserKey::Unit);
    assert_eq!(get_user_key(types, Some("1.1.1.1"), None), UserKey::Unit);
}

#[test]
fn address_keys_come_from_the_extensions_first() {
    let types = KeyTypes { unit: OTHER, real_ip: SAME, masked_ip: OTHER };
    assert_eq!(get_user_key(types, Some("a"), Some("b")), UserKey::RealIp("a"));
    assert_eq!(get_user_key(types, None, Some("b")), UserKey::RealIp("b"));
    assert_eq!(get_user_key::<&str>(types, None, None), UserKey::Extract);
    let masked = KeyTypes { unit: OTHER, real_ip: OTHER, masked_ip: SAME };
    assert_eq!(get_user_key(masked, Some("a"), Some("b")), UserKey::MaskedIp("a"));
    assert_eq!(get_user_key(masked, None, Some("b")), UserKey::MaskedIp("b"));
    assert_eq!(get_user_key::<&str>(masked, None, None), UserKey::Extract);
}

#[test]
fn other_keys_are_extracted() {
    let types = KeyTypes { unit: OTHER, real_ip: OTHER, masked_ip: OTHER };
    assert_eq!(get_user_key(types, Some("a"), Some("b")), UserKey::Extract);
}

fn waiting() -> RateLimitedResponse<u8, &'static str> {
    RateLimitedResponse::RateLimiting { inner: 5, body: Some("body") }
}

#[test]
fn request_that_passes_is_answered_by_the_inner_service() {
    let (response, action) = waiting().poll(Told::Pending);
    assert!(matches!(action, Asked::Wait));
    let (response, action) = response.poll(Told::Limited(Ok("head")));
    assert!(matches!(action, Asked::Call { inner: 5, parts: "head", body: "body" }));
    let (response, action): (_, Asked) = response.poll(Told::Pending);
    assert!(matches!(action, Asked::Wait));
    let (response, action): (_, Asked) = response.poll(Told::Answered(Ok(200)));
    assert!(matches!(action, Asked::Return(Ok(200))));
    assert!(matches!(response, RateLimitedResponse::Inner));
}

#[test]
fn error_of_the_inner_service_is_passed_on() {
    let (response, _): (_, Asked) = waiting().poll(Told::Limited(Ok("head")));
    let (_, action): (_, Asked) = response.poll(Told::Answered(Err("down")));
    assert!(matches!(action, Asked::Return(Err(Error::Inner("down")))));
}

#[test]
fn refused_request_never_reaches_the_inner_service() {
    let refusal = RateLimitError { time_left: 7 };
    let (response, action): (_, Asked) =
        waiting().poll(Told::Limited(Err(Error::RateLimit(refusal))));
    assert!(matches!(
        action,
        Asked::Return(Err(Error::RateLimit(RateLimitError { time_left: 7 })))
    ));
    assert!(matches!(response, RateLimitedResponse::RateLimiting { .. }));
    let (_, action): (_, Asked) = waiting().poll(Told::Limited(Err(Error::KeyRejection("no key"))));
    assert!(matches!(action, Asked::Return(Err(Error::KeyRejection("no key")))));
}

#[test]
fn response_to_each_error() {
    let limited = |e: RateLimitError| e.time_left as u32;
    assert_eq!(Error::<u32, u32>::Inner(500).into_response(limited), 500);
    assert_eq!(Error::<u32, u32>::KeyRejection(401).into_response(limited), 401);
    let refusal = RateLimitError { time_left: 429 };
    assert_eq!(Error::<u32, u32>::RateLimit(refusal).into_response(limited), 429);
}
