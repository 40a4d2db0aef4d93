use axum_gcra::extensions::RateLimiter;
use axum_gcra::gcra;
use axum_gcra::layer::Asked;
use axum_gcra::response::Poll;
use axum_gcra::{
    Error, GCInterval, Key, Quota, RateLimitError, RateLimitLayer, RateLimitLayerBuilder,
    RateLimitService, RateLimitedResponse, Route,
};
use http::Method;
use std::borrow::Cow;
use std::time::Duration;

const SECOND: u64 = 1_000_000_000;

type Service = RateLimitService<u8>;

type Answer<K, S> = Result<Option<RateLimiter<K, S>>, Error<&'static str, &'static str>>;

/// A client of the application, who may have paid for more.
#[derive(Debug, Clone, PartialEq, Eq, Hash)]
struct Client(u64);

#[derive(Clone)]
struct App {
    paid: Vec<(u64, Quota)>,
}

impl Key<App> for Client {
    fn quota(&self, state: &App) -> Option<Quota> {
        state.paid.iter().find(|(id, _)| *id == self.0).map(|(_, quota)| *quota)
    }
}

/// A route of the application, each with a quota of its own.
#[derive(PartialEq, Eq, Hash)]
struct OnRoute(Route<'static>);

impl Key<Vec<(Route<'static>, Quota)>> for OnRoute {
    fn quota(&self, state: &Vec<(Route<'static>, Quota)>) -> Option<Quota> {
        state.iter().find(|(route, _)| *route == self.0).map(|(_, quota)| *quota)
    }
}

fn time_left<K, S>(answer: Answer<K, S>) -> Option<u64> {
    match answer {
        Err(Error::RateLimit(RateLimitError { time_left })) => Some(time_left),
        Ok(_) => None,
        _ => panic!("neither passed nor refused"),
    }
}

#[test]
fn default_configuration() {
    let layer = RateLimitLayer::<()>::builder(()).build();
    assert_eq!(layer.gc_period(), None);
    assert_eq!(layer.quota_of(&()), Quota::simple(SECOND));
    assert!(matches!(layer.limit::<(), ()>(Ok(()), 0), Ok(None)));
    assert!(matches!(
        layer.limit::<(), ()>(Ok(()), 1),
        Err(Error::RateLimit(RateLimitError { time_left: 999_999_999 }))
    ));
    let same = RateLimitLayerBuilder::<(), ()>::default().build();
    assert_eq!(same.quota_of(&()), Quota::simple(SECOND));
    assert_eq!(same.gc_period(), None);
}

#[test]
fn default_quota_stands_in_for_none() {
    let builder = RateLimitLayer::<()>::builder(()).with_default_quota(Quota::new(10, 2));
    assert_eq!(builder.quota_or_default(None), Quota::new(10, 2));
    assert_eq!(builder.quota_or_default(Some(Quota::simple(3))), Quota::simple(3));
    assert_eq!(().quota(&()), None);
    assert_eq!(builder.build().quota_of(&()), Quota::new(10, 2));
}

#[test]
fn own_quota_of_a_key_comes_first() {
    let app = App { paid: vec![(7, Quota::simple(1))] };
    let layer = RateLimitLayer::<Client, App>::builder(app)
        .with_default_quota(Quota::simple(100))
        .build();
    let ask = |client: u64, now: u64| -> Option<u64> {
        time_left::<Client, App>(layer.limit(Ok(Client(client)), now))
    };
    assert_eq!(ask(7, 0), None);
    assert_eq!(ask(8, 0), None);
    assert_eq!(ask(7, 1), None);
    assert_eq!(ask(8, 1), Some(99));
    assert_eq!(layer.state().paid.len(), 1);
}

#[test]
fn routes_with_separate_quotas() {
    let quotas = vec![
        (Route::from((Method::GET, "/")), Quota::simple(SECOND)),
        (Route::from((Method::GET, "/hello")), Quota::simple(2 * SECOND)),
    ];
    let layer = RateLimitLayer::<OnRoute, Vec<(Route<'static>, Quota)>>::builder(quotas)
        .with_default_quota(Quota::simple(5 * SECOND))
        .build();
    let ask = |method: Method, path: &'static str, now: u64| -> Option<u64> {
        time_left::<OnRoute, _>(layer.limit(Ok(OnRoute(Route::from((method, path)))), now))
    };
    for path in ["/", "/hello", "/other"] {
        assert_eq!(ask(Method::GET, path, 0), None);
    }
    assert_eq!(ask(Method::POST, "/", 0), None);
    assert_eq!(ask(Method::GET, "/", SECOND), None);
    assert_eq!(ask(Method::GET, "/hello", SECOND), Some(SECOND));
    assert_eq!(ask(Method::GET, "/other", SECOND), Some(4 * SECOND));
    assert_eq!(ask(Method::POST, "/", SECOND), Some(4 * SECOND));
}

#[test]
fn rejected_key_does_not_reach_the_limiter() {
    let layer = RateLimitLayer::<()>::builder(()).build();
    let answer: Answer<(), ()> = layer.limit(Err("no key"), 0);
    assert!(matches!(answer, Err(Error::KeyRejection("no key"))));
    assert!(!layer.reset_sync(&()));
}

#[test]
fn extension_only_if_asked_for() {
    let app = App { paid: vec![] };
    let without = RateLimitLayer::<Client, App>::builder(app.clone()).build();
    let answer: Answer<Client, App> = without.limit(Ok(Client(1)), 0);
    assert!(answer.unwrap().is_none());
    let off = RateLimitLayer::<Client, App>::builder(app.clone())
        .with_extension(true)
        .with_extension(false)
        .build();
    let answer: Answer<Client, App> = off.limit(Ok(Client(1)), 0);
    assert!(answer.unwrap().is_none());

    let with = RateLimitLayer::<Client, App>::builder(app).with_extension(true).build();
    let answer: Answer<Client, App> = with.limit(Ok(Client(1)), 0);
    let extension = answer.unwrap().unwrap();
    assert_eq!(*extension.key(), Client(1));
    let refused: Answer<Client, App> = with.limit(Ok(Client(1)), 0);
    assert_eq!(time_left(refused), Some(SECOND));
}

#[test]
fn extension_controls_the_limiter_of_its_request() {
    let layer = RateLimitLayer::<Client, App>::builder(App { paid: vec![] })
        .with_default_quota(Quota::simple(10))
        .with_extension(true)
        .build();
    let answer: Answer<Client, App> = layer.limit(Ok(Client(1)), 0);
    let extension = answer.unwrap().unwrap();
    assert!(extension.penalize_sync(50));
    let refused: Answer<Client, App> = layer.limit(Ok(Client(1)), 10);
    assert_eq!(time_left(refused), Some(50));
    assert!(extension.reset_sync());
    assert!(!extension.reset_sync());
    assert!(!extension.penalize_sync(50));
    let passed: Answer<Client, App> = layer.limit(Ok(Client(1)), 10);
    assert_eq!(time_left(passed), None);
    extension.clean_sync(19);
    assert!(extension.penalize_sync(0));
    extension.clean_sync(20);
    assert!(!extension.penalize_sync(0));
    assert_eq!(*extension.clone().key(), Client(1));
}

#[test]
fn extension_on_a_limiter_at_hand() {
    let layer = RateLimitLayer::<Client, App>::builder(App { paid: vec![] }).build();
    let mut limiter = gcra::RateLimiter::new(u64::MAX, ahash::RandomState::new());
    let extension = RateLimiter { key: Client(3), layer: layer.clone() };
    assert!(!extension.penalize(&mut limiter, 5));
    let quota = Quota::simple(10);
    let first = Asked { key: Client(3), quota, now: 0, copy: None };
    let answer: Answer<Client, App> = layer.limit_on(&mut limiter, first);
    assert_eq!(time_left(answer), None);
    assert!(extension.penalize(&mut limiter, 5));
    let second = Asked { key: Client(3), quota, now: 10, copy: Some(Client(3)) };
    let answer: Answer<Client, App> = layer.limit_on(&mut limiter, second);
    assert_eq!(time_left(answer), Some(5));
    extension.clean(&mut limiter, 14);
    assert!(extension.reset(&mut limiter));
    assert!(!extension.reset(&mut limiter));
}

#[test]
fn decision_becomes_the_answer() {
    let layer = RateLimitLayer::<Client, App>::builder(App { paid: vec![] }).build();
    let passed: Answer<Client, App> = layer.conclude(Some(Client(2)), Ok(()));
    assert_eq!(*passed.unwrap().unwrap().key(), Client(2));
    let passed: Answer<Client, App> = layer.conclude(None, Ok(()));
    assert!(passed.unwrap().is_none());
    let refused: Answer<Client, App> =
        layer.conclude(Some(Client(2)), Err(RateLimitError { time_left: 4 }));
    assert_eq!(time_left(refused), Some(4));
}

#[test]
fn clones_share_the_limiter() {
    let layer = RateLimitLayer::<()>::builder(()).build();
    let copy = layer.clone();
    let service = layer.layer("inner");
    let other = service.clone();
    assert!(layer.limit::<(), ()>(Ok(()), 0).is_ok());
    for shared in [&layer, &copy, &service.layer, &other.layer] {
        assert!(shared.limit::<(), ()>(Ok(()), 0).is_err());
    }
    assert!(other.layer.reset_sync(&()));
    assert!(layer.limit::<(), ()>(Ok(()), 0).is_ok());

    let apart = RateLimitLayer::<()>::builder(()).build();
    assert!(apart.limit::<(), ()>(Ok(()), 0).is_ok());
}

fn send_and_sync<T: Send + Sync + 'static>(_: &T) {}

#[test]
fn layer_can_be_shared_between_threads() {
    let layer = RateLimitLayer::<Client, App>::builder(App { paid: vec![] })
        .with_extension(true)
        .build();
    send_and_sync(&layer);
    send_and_sync(&layer.layer("inner"));
    send_and_sync(&RateLimiter { key: Client(1), layer: layer.clone() });
}

#[test]
fn requests_clean_at_the_interval_that_was_set() {
    let app = App { paid: vec![] };
    let layer = RateLimitLayer::<Client, App>::builder(app.clone())
        .with_default_quota(Quota::simple(10))
        .with_gc_interval(2u64)
        .build();
    assert_eq!(layer.gc_period(), None);
    assert!(layer.limit::<(), ()>(Ok(Client(1)), 0).is_ok());
    assert!(layer.penalize_sync(&Client(1), 0));
    assert!(layer.limit::<(), ()>(Ok(Client(2)), 100).is_ok());
    assert!(!layer.penalize_sync(&Client(1), 0));

    let timed = RateLimitLayer::<Client, App>::builder(app)
        .with_default_quota(Quota::simple(10))
        .with_gc_interval(Duration::from_secs(60))
        .build();
    assert_eq!(timed.gc_period(), Some(Duration::from_secs(60)));
    for i in 0..10_000u64 {
        assert!(timed.limit::<(), ()>(Ok(Client(i)), 100 * i).is_ok());
    }
    assert!(timed.penalize_sync(&Client(0), 0));
    timed.clean_sync(10);
    assert!(!timed.penalize_sync(&Client(0), 0));
}

#[test]
fn interval_of_the_builder_reaches_the_limiter() {
    let builder = RateLimitLayer::<Client, App>::builder(App { paid: vec![] }).with_gc_interval(2u64);
    let mut limiter = builder.limiter();
    let quota = Quota::simple(10);
    assert_eq!(limiter.req_peek_key(Client(1), quota, 0, |_key: &Client| ()).1, Ok(()));
    assert!(limiter.penalize(&Client(1), 0));
    assert_eq!(limiter.req_peek_key(Client(2), quota, 50, |_key: &Client| ()).1, Ok(()));
    assert!(!limiter.penalize(&Client(1), 0));
}

#[test]
fn service_is_ready_when_the_inner_one_is() {
    let service = RateLimitLayer::<()>::builder(()).build().layer(5u8);
    assert_eq!(service.inner, 5);
    let ready: Poll<Result<(), Error<&str, ()>>> = Service::poll_ready(Poll::Ready(Ok(())));
    assert!(matches!(ready, Poll::Ready(Ok(()))));
    let failed: Poll<Result<(), Error<&str, ()>>> = Service::poll_ready(Poll::Ready(Err("down")));
    assert!(matches!(failed, Poll::Ready(Err(Error::Inner("down")))));
    let pending: Poll<Result<(), Error<&str, ()>>> = Service::poll_ready(Poll::Pending);
    assert!(matches!(pending, Poll::Pending));
    // asking has used up nothing
    assert!(!service.layer.reset_sync(&()));
}

#[test]
fn call_keeps_the_body_for_the_inner_service() {
    let service = RateLimitLayer::<()>::builder(()).build().layer(5u8);
    match service.call("body", 0).0 {
        RateLimitedResponse::RateLimiting { inner, body } => {
            assert_eq!(inner, 5);
            assert_eq!(body, Some("body"));
        }
        RateLimitedResponse::Inner => panic!("called too early"),
    }
}

#[test]
fn request_is_judged_by_the_time_at_which_it_came() {
    let service = RateLimitLayer::<()>::builder(()).build().layer(5u8);
    let (_, early) = service.call("early", 3);
    let (_, late) = service.call("late", SECOND + 2);
    assert_eq!(early.now, 3);
    assert!(matches!(late.decide::<(), ()>(Ok(())), Ok(None)));
    // the earlier request is decided later, and finds the quota used up
    assert!(matches!(
        early.decide::<(), ()>(Ok(())),
        Err(Error::RateLimit(RateLimitError { time_left })) if time_left == 2 * SECOND - 1
    ));
    assert!(matches!(early.decide::<(), &str>(Err("no key")), Err(Error::KeyRejection("no key"))));
}

#[test]
fn key_decides_the_quota_on_a_limiter_at_hand() {
    let app = App { paid: vec![(7, Quota::simple(1))] };
    let builder = RateLimitLayer::<Client, App>::builder(app)
        .with_default_quota(Quota::simple(100))
        .with_extension(true);
    let mut limiter = builder.limiter();
    let layer = builder.build();
    let mut ask = |client: u64, now: u64| -> Answer<Client, App> {
        layer.limit_key_on(&mut limiter, Ok(Client(client)), now)
    };
    assert_eq!(*ask(7, 0).unwrap().unwrap().key(), Client(7));
    assert_eq!(time_left(ask(8, 0)), None);
    assert_eq!(time_left(ask(7, 1)), None);
    assert_eq!(time_left(ask(8, 1)), Some(99));
    // the shared limiter knows nothing of it
    assert!(!layer.reset_sync(&Client(7)));

    let (_, limiting) = layer.layer(5u8).call("body", 101);
    let answer: Answer<Client, App> = limiting.decide_on(&mut limiter, Ok(Client(8)));
    assert_eq!(time_left(answer), None);
    let answer: Answer<Client, App> = limiting.decide_on(&mut limiter, Ok(Client(8)));
    assert_eq!(time_left(answer), Some(100));
}

#[test]
fn rejected_key_leaves_the_limiter_as_it_is() {
    let builder = RateLimitLayer::<Client, App>::builder(App { paid: vec![] }).with_gc_interval(2u64);
    let mut limiter = builder.limiter();
    let layer = builder.build();
    assert!(layer.limit_key_on::<(), &str>(&mut limiter, Ok(Client(1)), 0).is_ok());
    for now in 0..10u64 {
        let answer: Answer<Client, App> =
            layer.limit_key_on(&mut limiter, Err("no key"), now * 10 * SECOND);
        assert!(matches!(answer, Err(Error::KeyRejection("no key"))));
    }
    // neither cleaned nor counted
    assert!(limiter.penalize(&Client(1), 0));
    assert!(layer.limit_key_on::<(), &str>(&mut limiter, Ok(Client(2)), 100 * SECOND).is_ok());
    assert!(!limiter.penalize(&Client(1), 0));
}

#[test]
fn request_is_made_out_of_its_key() {
    let app = App { paid: vec![(7, Quota::simple(1))] };
    let layer = RateLimitLayer::<Client, App>::builder(app).with_extension(true).build();
    let asked = layer.ask::<(), &str>(Ok(Client(7)), 5).unwrap();
    assert_eq!(asked.key, Client(7));
    assert_eq!(asked.quota, Quota::simple(1));
    assert_eq!(asked.now, 5);
    assert_eq!(asked.copy, Some(Client(7)));
    let rejected = layer.ask::<(), &str>(Err("no key"), 5);
    assert!(matches!(rejected, Err(Error::KeyRejection("no key"))));
}

#[test]
fn route_of_method_and_path() {
    let borrowed = Route::from((Method::GET, "/build"));
    assert_eq!(*borrowed.method, Method::GET);
    assert_eq!(borrowed.path, Cow::Borrowed("/build"));
    let owned = Route::from((Method::POST, String::from("/reset")));
    assert_eq!(*owned.method, Method::POST);
    assert_eq!(owned.path, "/reset");
    assert_eq!(owned.clone(), owned);
    assert_eq!(borrowed.clone(), borrowed);
    assert_ne!(borrowed, owned);
    let method = Method::PUT;
    let whole = Route { method: Cow::Borrowed(&method), path: Cow::Borrowed("/") };
    assert_eq!(whole.clone(), Route::from((Method::PUT, "/")));
}

#[test]
fn default_gc_interval() {
    assert_eq!(GCInterval::default(), GCInterval::Requests(8192));
}

#[test]
fn shared_limiter_is_cleaned_in_steps_to_the_end() {
    let layer = RateLimitLayer::<Client, App>::builder(App { paid: vec![] })
        .with_default_quota(Quota::simple(10))
        .build();
    for i in 0..1000u64 {
        assert!(layer.limit::<(), ()>(Ok(Client(i)), i).is_ok());
    }
    layer.clean_sync(509);
    for i in 0..1000u64 {
        assert_eq!(layer.penalize_sync(&Client(i), 0), i >= 500);
    }
}

#[test]
fn requests_pass_between_the_steps_of_a_cleanup() {
    let layer = RateLimitLayer::<Client, App>::builder(App { paid: vec![] })
        .with_default_quota(Quota::simple(10))
        .build();
    for i in 0..100u64 {
        assert!(layer.limit::<(), ()>(Ok(Client(i)), 0).is_ok());
    }
    let left = layer.clean_step(10, usize::MAX);
    assert_eq!(left, 100 - gcra::STEP);
    assert!(!layer.penalize_sync(&Client(99), 0));
    assert!(layer.limit::<(), ()>(Ok(Client(200)), 5).is_ok());
    assert!(layer.penalize_sync(&Client(0), 0));
    assert_eq!(layer.clean_step(10, left), 0);
    assert!(!layer.penalize_sync(&Client(0), 0));
    assert!(layer.penalize_sync(&Client(200), 0));
    assert_eq!(layer.clean_step(15, 0), 0);
    assert!(layer.penalize_sync(&Client(200), 0));
}
