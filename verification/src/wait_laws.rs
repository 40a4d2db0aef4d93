//! What each use of a limiter does, told by nothing but what requests are told to wait.
//!
//! All that a limiter knows of a key shows in how long a request of the key would have to wait, at
//! any time. So each law says how the waits after a use follow from those before it.

use crate::gcra::{step, LimiterState, Op, Quota, RateLimitError};
use vstd::prelude::*;

verus! {

/// How long a request of `key` at `now` is told to wait if nothing is tolerated. Zero if it is
/// admitted.
pub open spec fn wait<K>(state: LimiterState<K>, key: K, now: u64) -> int {
    match state.requested(key, Quota { interval: 0, tolerance: 0 }, now).1 {
        Ok(()) => 0,
        Err(refusal) => refusal.time_left as int,
    }
}

/// How long it is from `now` until `moment`, or until the end of the clock if that comes first.
/// Zero if the moment is past.
pub open spec fn left_until(moment: int, now: u64) -> int {
    if moment <= now {
        0
    } else if moment <= u64::MAX {
        moment - now
    } else {
        u64::MAX - now
    }
}

/// A limiter that has seen no request makes nobody wait.
pub proof fn nobody_waits_at_first<K>(gc_interval: u64, key: K, now: u64)
    ensures
        wait(LimiterState::<K>::fresh(gc_interval), key, now) == 0,
{
}

/// Of a quota nothing but the tolerance counts for the decision: a request is admitted if it would
/// have to wait no longer than that, and else it is told to wait for what lies beyond it.
pub proof fn tolerance_shortens_the_wait<K>(
    state: LimiterState<K>,
    key: K,
    quota: Quota,
    now: u64,
)
    ensures
        wait(state, key, now) <= quota.tolerance ==> state.requested(key, quota, now).1 == Ok::<
            (),
            RateLimitError,
        >(()),
        wait(state, key, now) > quota.tolerance ==> (state.requested(key, quota, now).1 matches Err(
            refusal,
        ) && refusal.time_left == wait(state, key, now) - quota.tolerance),
{
}

/// Waiting shortens the wait: as long as the limiter is not used, a key has to wait for as much
/// less as time has passed.
pub proof fn waits_pass<K>(state: LimiterState<K>, key: K, now: u64, later: u64)
    requires
        now <= later,
    ensures
        wait(state, key, later) == left_until(now + wait(state, key, now), later),
{
}

/// An admitted request uses up exactly one interval, in whatever state it finds its key: from its
/// time on, the key has to wait for one interval longer than before it.
pub proof fn admission_costs_one_interval<K>(
    state: LimiterState<K>,
    key: K,
    quota: Quota,
    now: u64,
    time: u64,
)
    requires
        state.requested(key, quota, now).1 is Ok,
    ensures
        wait(step(state, Op::Request { key, quota, now }), key, time) == left_until(
            now + wait(state, key, now) + quota.interval,
            time,
        ),
{
}

/// A refused request costs its key nothing: it has to wait as long as before, at any time.
pub proof fn refusal_costs_nothing<K>(
    state: LimiterState<K>,
    key: K,
    quota: Quota,
    now: u64,
    time: u64,
)
    requires
        state.requested(key, quota, now).1 is Err,
    ensures
        wait(step(state, Op::Request { key, quota, now }), key, time) == wait(state, key, time),
{
}

/// A request costs no other key anything: it has to wait as long as before, from the time of the
/// request on, and at any time unless the request cleans the table and finds the other key with
/// nothing to wait for.
pub proof fn request_costs_no_other_key<K>(
    state: LimiterState<K>,
    key: K,
    quota: Quota,
    now: u64,
    other: K,
    time: u64,
)
    requires
        key != other,
    ensures
        now <= time || !state.gc_due() || wait(state, other, now) > 0 ==> wait(
            step(state, Op::Request { key, quota, now }),
            other,
            time,
        ) == wait(state, other, time),
        state.gc_due() && wait(state, other, now) == 0 ==> wait(
            step(state, Op::Request { key, quota, now }),
            other,
            time,
        ) == 0,
{
}

/// A penalty makes its key wait for exactly the penalty longer. A key that has no entry has
/// nothing to add it to.
pub proof fn penalty_prolongs_the_wait<K>(
    state: LimiterState<K>,
    key: K,
    penalty: u64,
    time: u64,
)
    ensures
        state.table.contains_key(key) ==> wait(
            step(state, Op::Penalize { key, penalty }),
            key,
            time,
        ) == left_until(wait(state, key, 0) + penalty, time),
        wait(state, key, time) > 0 ==> wait(step(state, Op::Penalize { key, penalty }), key, time)
            == left_until(time + wait(state, key, time) + penalty, time),
        !state.table.contains_key(key) ==> wait(
            step(state, Op::Penalize { key, penalty }),
            key,
            time,
        ) == 0,
{
}

/// A penalty of one key costs no other key anything, and a reset of one gives none to another.
pub proof fn others_are_left_alone<K>(
    state: LimiterState<K>,
    key: K,
    penalty: u64,
    other: K,
    time: u64,
)
    requires
        key != other,
    ensures
        wait(step(state, Op::Penalize { key, penalty }), other, time) == wait(state, other, time),
        wait(step(state, Op::Reset { key }), other, time) == wait(state, other, time),
{
}

/// After a reset its key has nothing to wait for, at any time.
pub proof fn reset_ends_the_wait<K>(state: LimiterState<K>, key: K, time: u64)
    ensures
        wait(step(state, Op::Reset { key }), key, time) == 0,
        !step(state, Op::Reset { key }).table.contains_key(key),
{
}

/// A cleanup removes what is over, and nothing else: a key that has something to wait for at the
/// time of the cleanup, or that the cleanup does not look at, has to wait as long as before, at
/// any time. A key that has nothing to wait for then, and is looked at, is forgotten.
pub proof fn cleanup_ends_no_wait<K>(
    state: LimiterState<K>,
    before: u64,
    among: Set<K>,
    key: K,
    time: u64,
)
    ensures
        wait(state, key, before) > 0 || !among.contains(key) || before <= time ==> wait(
            step(state, Op::Clean { before, among }),
            key,
            time,
        ) == wait(state, key, time),
        wait(state, key, before) == 0 && among.contains(key) ==> {
            &&& wait(step(state, Op::Clean { before, among }), key, time) == 0
            &&& !step(state, Op::Clean { before, among }).table.contains_key(key)
            &&& !step(state, Op::Clean { before, among }).held.contains(key)
        },
{
}

/// A key gets an entry by an admitted request and by nothing else. One that has to wait has an
/// entry.
pub proof fn entries_come_by_admission<K>(
    state: LimiterState<K>,
    gc_interval: u64,
    op: Op<K>,
    key: K,
    now: u64,
)
    ensures
        !LimiterState::<K>::fresh(gc_interval).table.contains_key(key),
        wait(state, key, now) > 0 ==> state.table.contains_key(key),
        op matches Op::Request { key: k, quota, now } ==> k == key && state.requested(
            k,
            quota,
            now,
        ).1 is Ok ==> step(state, op).table.contains_key(key),
        step(state, op).table.contains_key(key) ==> state.table.contains_key(key) || (op matches
            Op::Request { key: k, quota, now } && k == key && state.requested(k, quota, now).1
            is Ok),
        op is Penalize ==> step(state, op).table.dom() == state.table.dom(),
{
    assert(op is Penalize ==> step(state, op).table.dom() =~= state.table.dom());
}

/// No use but a request counts towards the next cleanup, and each request counts as one, until the
/// one that cleans begins again at none.
pub proof fn requests_count_towards_gc<K>(
    state: LimiterState<K>,
    key: K,
    quota: Quota,
    now: u64,
    other: Op<K>,
)
    requires
        other !is Request,
        state.gc_interval != u64::MAX,
    ensures
        step(state, other).requests == state.requests,
        step(state, Op::Request { key, quota, now }).requests == if state.gc_due() {
            0int
        } else {
            state.requests + 1
        },
{
}

} // verus!
