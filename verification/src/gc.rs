//! When the table of a limiter is cleaned.

use std::time::Duration;
use vstd::prelude::*;

verus! {

/// Interval for garbage collection of the rate limiter, which can be either a number of requests
/// or a time duration.
///
/// The default is 8192 requests.
#[derive(Debug, Clone, Copy, PartialEq, Eq)]
pub enum GCInterval {
    /// Run garbage collection after a number of requests.
    ///
    /// This may temporarily block a request if the rate limiter is being cleaned, as that single
    /// request needs to wait for the whole table to be cleaned.
    ///
    /// Setting this to `u64::MAX` will disable garbage collection entirely.
    Requests(u64),
    /// Run garbage collection on a timed interval using a background task.
    ///
    /// This does not block the request, since it runs externally to the request: no request runs
    /// a cleanup, and the background task lets requests pass after every few keys.
    Time(Duration),
}

impl Default for GCInterval {
    fn default() -> (interval: Self)
        ensures
            interval == GCInterval::Requests(8192),
    {
        GCInterval::Requests(8192)
    }
}

impl GCInterval {
    /// The interval as a number of requests: with a timed interval requests never clean.
    pub open spec fn requests(self) -> u64 {
        match self {
            GCInterval::Requests(n) => n,
            GCInterval::Time(_) => u64::MAX,
        }
    }

    /// The interval between two cleanups of the background task, for a timed interval.
    pub open spec fn period(self) -> Option<Duration> {
        match self {
            GCInterval::Requests(_) => None,
            GCInterval::Time(period) => Some(period),
        }
    }

    /// The number of requests after which a request cleans the table, `u64::MAX` for never.
    pub fn to_requests(self) -> (n: u64)
        ensures
            n == self.requests(),
            n == match self {
                GCInterval::Requests(n) => n,
                GCInterval::Time(_) => u64::MAX,
            },
    {
        match self {
            GCInterval::Requests(n) => n,
            GCInterval::Time(_) => u64::MAX,
        }
    }

    /// The period of the background task, if there has to be one.
    pub fn to_period(self) -> (period: Option<Duration>)
        ensures
            period == self.period(),
            period == match self {
                GCInterval::Requests(_) => None,
                GCInterval::Time(period) => Some(period),
            },
    {
        match self {
            GCInterval::Requests(_) => None,
            GCInterval::Time(period) => Some(period),
        }
    }
}

impl From<u64> for GCInterval {
    fn from(n: u64) -> (interval: Self)
        ensures
            interval == GCInterval::Requests(n),
    {
        GCInterval::Requests(n)
    }
}

impl vstd::std_specs::convert::FromSpecImpl<u64> for GCInterval {
    open spec fn obeys_from_spec() -> bool {
        true
    }

    open spec fn from_spec(n: u64) -> Self {
        GCInterval::Requests(n)
    }
}

impl From<Duration> for GCInterval {
    fn from(d: Duration) -> (interval: Self)
        ensures
            interval == GCInterval::Time(d),
    {
        GCInterval::Time(d)
    }
}

impl vstd::std_specs::convert::FromSpecImpl<Duration> for GCInterval {
    open spec fn obeys_from_spec() -> bool {
        true
    }

    open spec fn from_spec(d: Duration) -> Self {
        GCInterval::Time(d)
    }
}

/// The background task of a timed interval.
#[derive(Debug, Clone, Copy, PartialEq, Eq, Structural)]
pub enum GcTask {
    /// It waits for the next tick of its timer, or for the signal to shut down.
    Waiting,
    /// It cleans the table.
    Cleaning,
    /// It has ended.
    Stopped,
}

/// What the background task learns.
#[derive(Debug, Clone, Copy, PartialEq, Eq, Structural)]
pub enum GcEvent {
    /// It was woken up while it waited: by the signal, by the timer, by both or by neither.
    Woken { shutdown: bool, tick: bool },
    /// The table is clean, and the limiter had this many owners left, the task among them.
    Cleaned { owners: usize },
}

/// What the background task does next.
#[derive(Debug, Clone, Copy, PartialEq, Eq, Structural)]
pub enum GcAction {
    /// Wait for the signal or the timer.
    Wait,
    /// Clean the table.
    Clean,
    /// End.
    Stop,
}

impl GcTask {
    /// What follows on an event: the signal to shut down comes before a tick of the timer, a
    /// tick cleans the table, and after a cleanup the task ends if nobody else owns the limiter
    /// any more. An event that the task does not wait for changes nothing.
    pub open spec fn stepped(self, event: GcEvent) -> (GcTask, GcAction) {
        match (self, event) {
            (GcTask::Waiting, GcEvent::Woken { shutdown, tick }) => if shutdown {
                (GcTask::Stopped, GcAction::Stop)
            } else if tick {
                (GcTask::Cleaning, GcAction::Clean)
            } else {
                (GcTask::Waiting, GcAction::Wait)
            },
            (GcTask::Cleaning, GcEvent::Cleaned { owners }) => if owners == 1 {
                (GcTask::Stopped, GcAction::Stop)
            } else {
                (GcTask::Waiting, GcAction::Wait)
            },
            (GcTask::Stopped, _) => (GcTask::Stopped, GcAction::Stop),
            (task, _) => (task, GcAction::Wait),
        }
    }

    /// One step of the background task.
    pub fn step(self, event: GcEvent) -> (next: (GcTask, GcAction))
        ensures
            next == self.stepped(event),
    {
        match (self, event) {
            (GcTask::Waiting, GcEvent::Woken { shutdown, tick }) => if shutdown {
                (GcTask::Stopped, GcAction::Stop)
            } else if tick {
                (GcTask::Cleaning, GcAction::Clean)
            } else {
                (GcTask::Waiting, GcAction::Wait)
            },
            (GcTask::Cleaning, GcEvent::Cleaned { owners }) => if owners == 1 {
                (GcTask::Stopped, GcAction::Stop)
            } else {
                (GcTask::Waiting, GcAction::Wait)
            },
            (GcTask::Stopped, _) => (GcTask::Stopped, GcAction::Stop),
            (task, _) => (task, GcAction::Wait),
        }
    }
}

/// The background task after a run of events, from its start.
pub open spec fn task_after(events: Seq<GcEvent>) -> GcTask
    decreases events.len(),
{
    if events.len() == 0 {
        GcTask::Waiting
    } else {
        task_after(events.drop_last()).stepped(events.last()).0
    }
}

/// What the background task does on the last of a run of events.
pub open spec fn last_action(events: Seq<GcEvent>) -> GcAction {
    task_after(events.drop_last()).stepped(events.last()).1
}

/// Whether an event ends the background task: the signal to shut down, or a cleanup that found
/// no other owner of the limiter.
pub open spec fn ends_task(event: GcEvent) -> bool {
    match event {
        GcEvent::Woken { shutdown, .. } => shutdown,
        GcEvent::Cleaned { owners } => owners == 1,
    }
}

/// Whether a run of events has ended the background task.
pub open spec fn ended(events: Seq<GcEvent>) -> bool {
    exists|i: int| 0 <= i < events.len() && #[trigger] ends_task(events[i])
}

/// Whether a run tells the background task what it asked for: after a cleanup that it is done,
/// and else that the task was woken up.
pub open spec fn in_turn(events: Seq<GcEvent>) -> bool
    decreases events.len(),
{
    events.len() > 0 ==> {
        &&& in_turn(events.drop_last())
        &&& match task_after(events.drop_last()) {
            GcTask::Waiting => events.last() is Woken,
            GcTask::Cleaning => events.last() is Cleaned,
            GcTask::Stopped => true,
        }
    }
}

/// Over any run of ticks, signals and cleanups the background task cleans the table on every
/// tick, and at no other time, until it is told to shut down or finds itself the last owner of
/// the limiter. Then it ends for good.
pub proof fn task_cleans_on_every_tick_until_it_ends(events: Seq<GcEvent>)
    requires
        in_turn(events),
        events.len() > 0,
    ensures
        last_action(events) == GcAction::Stop <==> ended(events),
        last_action(events) == GcAction::Clean <==> !ended(events) && (events.last() matches
            GcEvent::Woken { tick, .. } && tick),
{
    task_stops_when_ended(events.drop_last());
    let rest = events.drop_last();
    assert forall|i: int| 0 <= i < rest.len() implies #[trigger] rest[i] == events[i] by {}
    if ended(rest) {
        let i = choose|i: int| 0 <= i < rest.len() && #[trigger] ends_task(rest[i]);
        assert(ends_task(events[i]));
    }
    if ended(events) {
        let i = choose|i: int| 0 <= i < events.len() && #[trigger] ends_task(events[i]);
        if i < rest.len() {
            assert(ends_task(rest[i]));
        }
    }
    if ends_task(events.last()) {
        assert(ends_task(events[events.len() - 1]));
    }
}

/// Whether the background task waits for an event: while it cleans for the end of that, and else
/// to be woken up. When it has ended it waits for nothing.
pub open spec fn expects(task: GcTask, event: GcEvent) -> bool {
    match task {
        GcTask::Waiting => event is Woken,
        GcTask::Cleaning => event is Cleaned,
        GcTask::Stopped => false,
    }
}

/// An event that the background task does not wait for changes nothing, and makes it do nothing
/// new.
pub proof fn unexpected_event_changes_nothing(task: GcTask, event: GcEvent)
    requires
        !expects(task, event),
    ensures
        task.stepped(event).0 == task,
        task.stepped(event).1 != GcAction::Clean,
        task.stepped(event).1 == GcAction::Stop <==> task == GcTask::Stopped,
{
}

/// The signal to shut down comes before a tick of the timer, and a tick that comes without it
/// cleans.
pub proof fn signal_comes_before_the_tick(tick: bool)
    ensures
        GcTask::Waiting.stepped(GcEvent::Woken { shutdown: true, tick }) == (
            GcTask::Stopped,
            GcAction::Stop,
        ),
        GcTask::Waiting.stepped(GcEvent::Woken { shutdown: false, tick }).1 == if tick {
            GcAction::Clean
        } else {
            GcAction::Wait
        },
{
}

/// Requests and the background task never both clean: a number of requests leaves the task out,
/// and a time leaves the requests out.
pub proof fn either_requests_or_the_task_clean(interval: GCInterval)
    ensures
        match interval {
            GCInterval::Requests(n) => interval.requests() == n && interval.period() is None,
            GCInterval::Time(d) => interval.requests() == u64::MAX && interval.period() == Some(d),
        },
{
}

proof fn task_stops_when_ended(events: Seq<GcEvent>)
    requires
        in_turn(events),
    ensures
        task_after(events) == GcTask::Stopped <==> ended(events),
    decreases events.len(),
{
    if events.len() > 0 {
        let rest = events.drop_last();
        assert forall|i: int| 0 <= i < rest.len() implies #[trigger] rest[i] == events[i] by {}
        task_stops_when_ended(rest);
        if ended(rest) {
            let i = choose|i: int| 0 <= i < rest.len() && #[trigger] ends_task(rest[i]);
            assert(ends_task(events[i]));
        }
        if ended(events) {
            let i = choose|i: int| 0 <= i < events.len() && #[trigger] ends_task(events[i]);
            if i < rest.len() {
                assert(ends_task(rest[i]));
            }
        }
        if ends_task(events.last()) {
            assert(ends_task(events[events.len() - 1]));
        }
    }
}

} // verus!
