//! How a request is answered.

use crate::gcra::RateLimitError;
use vstd::prelude::*;

verus! {

/// Error wrapper for rate limiting errors or inner service errors.
#[derive(Debug)]
pub enum Error<Inner, Rejection> {
    /// Inner service error.
    Inner(Inner),
    /// Rate limiting error.
    ///
    /// This error is returned when the rate limiter has blocked the request, and will be passed
    /// to the error handler.
    RateLimit(RateLimitError),
    /// Key extraction rejection.
    KeyRejection(Rejection),
}

impl<T> Error<T, T> {
    /// The response to an error: an error of the inner service and a rejection answer for
    /// themselves, and `limited` makes the response to a refusal.
    pub fn into_response<F: FnOnce(RateLimitError) -> T>(self, limited: F) -> (response: T)
        requires
            self matches Error::RateLimit(e) ==> call_requires(limited, (e,)),
        ensures
            match self {
                Error::Inner(e) => response == e,
                Error::RateLimit(e) => call_ensures(limited, (e,), response),
                Error::KeyRejection(e) => response == e,
            },
    {
        match self {
            Error::RateLimit(e) => limited(e),
            Error::KeyRejection(e) => e,
            Error::Inner(e) => e,
        }
    }
}

/// Whether a value is there yet.
#[derive(Debug, PartialEq, Eq)]
pub enum Poll<T> {
    Ready(T),
    Pending,
}

/// The answer to a request in the making.
///
/// First the limiter decides. Only if it lets the request pass is the inner service called, and
/// then the answer is the inner service's.
pub enum RateLimitedResponse<I, B> {
    /// The limiter has not decided yet. The inner service and the body of the request wait.
    RateLimiting { inner: I, body: Option<B> },
    /// The inner service has the request.
    Inner,
}

/// What a [`RateLimitedResponse`] learns when it is polled: that what it waits for is pending,
/// what the limiter decided, with the head of the request if it may pass, or what the inner
/// service answered.
pub enum Progress<P, T, E, R> {
    Pending,
    Limited(Result<P, Error<E, R>>),
    Answered(Result<T, E>),
}

/// What a [`RateLimitedResponse`] asks for: to be polled again later, to call the inner service
/// with this request and to poll its answer, or to return.
pub enum Action<I, B, P, T, E, R> {
    Wait,
    Call { inner: I, parts: P, body: B },
    Return(Result<T, Error<E, R>>),
}

impl<I, B> RateLimitedResponse<I, B> {
    /// Whether the body of the request is still there for the call.
    pub open spec fn holds_body(self) -> bool {
        self matches RateLimitedResponse::RateLimiting { body, .. } ==> body is Some
    }

    /// Whether this is what the answer waits for: the limiter's decision before the inner
    /// service is called, and the inner service's answer after that.
    pub open spec fn awaits<P, T, E, R>(self, progress: Progress<P, T, E, R>) -> bool {
        match progress {
            Progress::Pending => true,
            Progress::Limited(_) => self is RateLimiting,
            Progress::Answered(_) => self is Inner,
        }
    }

    /// What follows on some progress.
    pub open spec fn advanced<P, T, E, R>(self, progress: Progress<P, T, E, R>) -> (
        Self,
        Action<I, B, P, T, E, R>,
    ) {
        match (self, progress) {
            (
                RateLimitedResponse::RateLimiting { inner, body },
                Progress::Limited(Ok(parts)),
            ) => (
                RateLimitedResponse::Inner,
                Action::Call { inner, parts, body: body->0 },
            ),
            (_, Progress::Limited(Err(e))) => (self, Action::Return(Err(e))),
            (_, Progress::Answered(Ok(t))) => (self, Action::Return(Ok(t))),
            (_, Progress::Answered(Err(e))) => (self, Action::Return(Err(Error::Inner(e)))),
            _ => (self, Action::Wait),
        }
    }

    /// One step towards the answer.
    pub fn poll<P, T, E, R>(self, progress: Progress<P, T, E, R>) -> (next: (
        Self,
        Action<I, B, P, T, E, R>,
    ))
        requires
            progress matches Progress::Limited(Ok(_)) ==> self.holds_body(),
            self.awaits(progress),
        ensures
            next == self.advanced(progress),
            progress is Pending ==> next.0 == self && next.1 is Wait,
            progress matches Progress::Limited(Ok(parts)) ==> {
                &&& next.0 is Inner
                &&& next.1 matches Action::Call { inner, parts: p, body }
                &&& p == parts
                &&& self == (RateLimitedResponse::RateLimiting { inner, body: Some(body) })
            },
            progress matches Progress::Limited(Err(e)) ==> next.1 == Action::<
                I,
                B,
                P,
                T,
                E,
                R,
            >::Return(Err(e)),
            progress matches Progress::Answered(Ok(t)) ==> next.1 == Action::<
                I,
                B,
                P,
                T,
                E,
                R,
            >::Return(Ok(t)),
            progress matches Progress::Answered(Err(e)) ==> next.1 == Action::<
                I,
                B,
                P,
                T,
                E,
                R,
            >::Return(Err(Error::Inner(e))),
            self.holds_body() ==> next.0.holds_body(),
    {
        match progress {
            Progress::Pending => (self, Action::Wait),
            Progress::Limited(Ok(parts)) => match self {
                RateLimitedResponse::RateLimiting { inner, body } => {
                    let body = body.unwrap();
                    (RateLimitedResponse::Inner, Action::Call { inner, parts, body })
                },
                RateLimitedResponse::Inner => (RateLimitedResponse::Inner, Action::Wait),
            },
            Progress::Limited(Err(e)) => (self, Action::Return(Err(e))),
            Progress::Answered(Ok(t)) => (self, Action::Return(Ok(t))),
            Progress::Answered(Err(e)) => (self, Action::Return(Err(Error::Inner(e)))),
        }
    }
}

/// The answer after a run of polls.
pub open spec fn polled<I, B, P, T, E, R>(
    response: RateLimitedResponse<I, B>,
    progress: Seq<Progress<P, T, E, R>>,
) -> RateLimitedResponse<I, B>
    decreases progress.len(),
{
    if progress.len() == 0 {
        response
    } else {
        polled(response, progress.drop_last()).advanced(progress.last()).0
    }
}

/// What the answer asks for at the last of a run of polls.
pub open spec fn last_action<I, B, P, T, E, R>(
    response: RateLimitedResponse<I, B>,
    progress: Seq<Progress<P, T, E, R>>,
) -> Action<I, B, P, T, E, R> {
    polled(response, progress.drop_last()).advanced(progress.last()).1
}

/// Whether every poll of a run tells the answer what it waits for, and none comes after the
/// answer has returned.
pub open spec fn awaited<I, B, P, T, E, R>(
    response: RateLimitedResponse<I, B>,
    progress: Seq<Progress<P, T, E, R>>,
) -> bool {
    forall|i: int|
        #![trigger progress[i]]
        0 <= i < progress.len() ==> {
            &&& polled(response, progress.take(i)).awaits(progress[i])
            &&& i < progress.len() - 1 ==> polled(response, progress.take(i)).advanced(
                progress[i],
            ).1 !is Return
        }
}

/// How often the inner service is called over a run of polls.
pub open spec fn calls<I, B, P, T, E, R>(
    response: RateLimitedResponse<I, B>,
    progress: Seq<Progress<P, T, E, R>>,
) -> nat
    decreases progress.len(),
{
    if progress.len() == 0 {
        0
    } else {
        calls(response, progress.drop_last()) + if last_action(response, progress) is Call {
            1nat
        } else {
            0nat
        }
    }
}

/// Whether a poll tells that the limiter lets the request pass.
pub open spec fn lets_pass<P, T, E, R>(progress: Progress<P, T, E, R>) -> bool {
    progress matches Progress::Limited(Ok(_))
}

/// Whether the limiter has let the request pass in a run of polls.
pub open spec fn passed<P, T, E, R>(progress: Seq<Progress<P, T, E, R>>) -> bool {
    exists|i: int| 0 <= i < progress.len() && #[trigger] lets_pass(progress[i])
}

proof fn passed_now_or_before<P, T, E, R>(progress: Seq<Progress<P, T, E, R>>)
    requires
        progress.len() > 0,
    ensures
        passed(progress) <==> passed(progress.drop_last()) || lets_pass(progress.last()),
{
    let rest = progress.drop_last();
    if passed(rest) {
        let i = choose|i: int| 0 <= i < rest.len() && #[trigger] lets_pass(rest[i]);
        assert(lets_pass(progress[i]));
    }
    if passed(progress) {
        let i = choose|i: int| 0 <= i < progress.len() && #[trigger] lets_pass(progress[i]);
        if i < rest.len() {
            assert(lets_pass(rest[i]));
        }
    }
    if lets_pass(progress.last()) {
        assert(lets_pass(progress[progress.len() - 1]));
    }
}

/// The inner service is called once if the limiter lets the request pass, with the body that the
/// request came with, and else never. While it was not called the answer still waits for the
/// limiter.
pub proof fn inner_is_called_once_if_the_request_passes<I, B, P, T, E, R>(
    inner: I,
    body: B,
    progress: Seq<Progress<P, T, E, R>>,
)
    requires
        awaited(RateLimitedResponse::RateLimiting { inner, body: Some(body) }, progress),
    ensures
        ({
            let start = RateLimitedResponse::RateLimiting { inner, body: Some(body) };
            &&& calls(start, progress) == if passed(progress) {
                1nat
            } else {
                0nat
            }
            &&& calls(start, progress) == 0 ==> polled(start, progress) == start
            &&& calls(start, progress) == 1 ==> polled(start, progress)
                == RateLimitedResponse::<I, B>::Inner
            &&& progress.len() > 0 ==> (last_action(start, progress) matches Action::Call {
                inner: i,
                body: b,
                ..
            } ==> i == inner && b == body)
        }),
    decreases progress.len(),
{
    let start = RateLimitedResponse::RateLimiting { inner, body: Some(body) };
    if progress.len() > 0 {
        let rest = progress.drop_last();
        beginning_is_awaited(start, progress);
        inner_is_called_once_if_the_request_passes(inner, body, rest);
        assert(progress.take(progress.len() - 1) =~= rest);
        let last = progress.len() - 1;
        assert(polled(start, rest).awaits(progress[last]));
        passed_now_or_before(progress);
    }
}

proof fn beginning_is_awaited<I, B, P, T, E, R>(
    response: RateLimitedResponse<I, B>,
    progress: Seq<Progress<P, T, E, R>>,
)
    requires
        awaited(response, progress),
        progress.len() > 0,
    ensures
        awaited(response, progress.drop_last()),
{
    let rest = progress.drop_last();
    assert forall|i: int| #![trigger rest[i]] 0 <= i < rest.len() implies {
        &&& polled(response, rest.take(i)).awaits(rest[i])
        &&& i < rest.len() - 1 ==> polled(response, rest.take(i)).advanced(rest[i]).1 !is Return
    } by {
        assert(rest.take(i) =~= progress.take(i));
        assert(rest[i] == progress[i]);
    }
}

/// A request that the limiter refuses, or whose key is rejected, is answered with that error: no
/// poll follows, and the inner service is not called in the whole run.
pub proof fn refusal_is_the_answer<I, B, P, T, E, R>(
    inner: I,
    body: B,
    progress: Seq<Progress<P, T, E, R>>,
    i: int,
    e: Error<E, R>,
)
    requires
        awaited(RateLimitedResponse::RateLimiting { inner, body: Some(body) }, progress),
        0 <= i < progress.len(),
        progress[i] == Progress::<P, T, E, R>::Limited(Err(e)),
    ensures
        ({
            let start = RateLimitedResponse::RateLimiting { inner, body: Some(body) };
            &&& i == progress.len() - 1
            &&& last_action(start, progress) == Action::<I, B, P, T, E, R>::Return(Err(e))
            &&& calls(start, progress) == 0
        }),
{
    let start = RateLimitedResponse::RateLimiting { inner, body: Some(body) };
    assert(polled(start, progress.take(i)).awaits(progress[i]));
    beginning_is_awaited(start, progress);
    inner_is_called_once_if_the_request_passes(inner, body, progress.drop_last());
    assert(progress.take(progress.len() - 1) =~= progress.drop_last());
}

/// A success, and an error of the inner service, are only ever returned after the inner service
/// was called.
pub proof fn answer_comes_from_inner<I, B, P, T, E, R>(
    inner: I,
    body: B,
    progress: Seq<Progress<P, T, E, R>>,
)
    requires
        awaited(RateLimitedResponse::RateLimiting { inner, body: Some(body) }, progress),
        progress.len() > 0,
        progress.last() is Answered,
    ensures
        ({
            let start = RateLimitedResponse::RateLimiting { inner, body: Some(body) };
            &&& calls(start, progress) == 1
            &&& last_action(start, progress) == Action::<I, B, P, T, E, R>::Return(
                match progress.last()->Answered_0 {
                    Ok(t) => Ok(t),
                    Err(e) => Err(Error::Inner(e)),
                },
            )
        }),
{
    let start = RateLimitedResponse::RateLimiting { inner, body: Some(body) };
    beginning_is_awaited(start, progress);
    inner_is_called_once_if_the_request_passes(inner, body, progress.drop_last());
    assert(progress.take(progress.len() - 1) =~= progress.drop_last());
    assert(polled(start, progress.drop_last()).awaits(progress[progress.len() - 1]));
}

} // verus!
