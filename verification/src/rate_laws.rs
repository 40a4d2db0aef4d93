//! What holds of a limiter over any run of requests.

use crate::gcra::{arrival, clamp, entry, extra, pending};
use crate::gcra::{run, LimiterState, Op, Quota, RateLimitError};
use vstd::prelude::*;

verus! {

/// How many requests of `key` that came between these times a run admits.
pub open spec fn admitted_between<K>(
    state: LimiterState<K>,
    ops: Seq<Op<K>>,
    key: K,
    from: u64,
    until: u64,
) -> nat
    decreases ops.len(),
{
    if ops.len() == 0 {
        0
    } else {
        let before = run(state, ops.drop_last());
        let more: nat = match ops.last() {
            Op::Request { key: k, quota, now } => if k == key && from <= now <= until
                && before.requested(k, quota, now).1 is Ok {
                1
            } else {
                0
            },
            _ => 0,
        };
        admitted_between(state, ops.drop_last(), key, from, until) + more
    }
}

/// How many requests of `key` a run admits.
pub open spec fn admitted<K>(state: LimiterState<K>, ops: Seq<Op<K>>, key: K) -> nat {
    admitted_between(state, ops, key, 0, u64::MAX)
}

/// The state after what a use cleans away, before it does anything else.
pub open spec fn swept<K>(state: LimiterState<K>, op: Op<K>) -> LimiterState<K> {
    match op {
        Op::Request { now, .. } => state.counted(now),
        Op::Clean { before, among } => state.cleaned_among(before, among),
        _ => state,
    }
}

/// Whether no cleanup of a run has removed an entry of `key` that at `time` was still to come.
pub open spec fn remembers<K>(
    state: LimiterState<K>,
    ops: Seq<Op<K>>,
    key: K,
    time: u64,
) -> bool
    decreases ops.len(),
{
    ops.len() > 0 ==> {
        let before = run(state, ops.drop_last());
        &&& remembers(state, ops.drop_last(), key, time)
        &&& before.table.contains_key(key) && !swept(before, ops.last()).table.contains_key(key)
            ==> before.table[key] <= time
    }
}

/// Whether no request of `key` that came between these times was overtaken by a cleanup: when it
/// is decided, no cleanup has removed what at the time of the request was still to come.
///
/// The uses of a limiter need not come in the order of their times. Requests are decided some
/// time after they came, and one that came earlier may be decided later.
pub open spec fn not_overtaken<K>(
    state: LimiterState<K>,
    ops: Seq<Op<K>>,
    key: K,
    from: u64,
    until: u64,
) -> bool
    decreases ops.len(),
{
    ops.len() > 0 ==> {
        &&& not_overtaken(state, ops.drop_last(), key, from, until)
        &&& ops.last() matches Op::Request { key: k, now, .. } ==> k == key && from <= now <= until
            ==> remembers(state, ops.drop_last(), key, now)
    }
}

/// Whether the uses of a run come in the order of their times.
pub open spec fn in_order<K>(ops: Seq<Op<K>>) -> bool {
    forall|i: int, j: int|
        #![trigger ops[i], ops[j]]
        0 <= i <= j < ops.len() && ops[i].time() is Some && ops[j].time() is Some
            ==> ops[i].time()->0 <= ops[j].time()->0
}

/// Whether every use of a run came at or before `time`.
pub open spec fn over_by<K>(ops: Seq<Op<K>>, time: u64) -> bool {
    forall|i: int|
        #![trigger ops[i]]
        0 <= i < ops.len() && ops[i].time() is Some ==> ops[i].time()->0 <= time
}

/// Whether every cleanup of a run, by a request or apart, came at or before `time`.
pub open spec fn cleaned_by<K>(state: LimiterState<K>, ops: Seq<Op<K>>, time: u64) -> bool
    decreases ops.len(),
{
    ops.len() > 0 ==> {
        &&& cleaned_by(state, ops.drop_last(), time)
        &&& match ops.last() {
            Op::Request { now, .. } => run(state, ops.drop_last()).gc_due() ==> now <= time,
            Op::Clean { before, .. } => before <= time,
            _ => true,
        }
    }
}

/// A request is not overtaken by cleanups that came at or before it, in whatever order all other
/// requests are decided.
pub proof fn earlier_cleanups_overtake_nothing<K>(
    state: LimiterState<K>,
    ops: Seq<Op<K>>,
    key: K,
    from: u64,
    until: u64,
)
    requires
        forall|i: int|
            #![trigger ops[i]]
            0 <= i < ops.len() && ops[i].asks_for(key) && from <= ops[i]->now <= until
                ==> cleaned_by(state, ops.take(i), ops[i]->now),
    ensures
        not_overtaken(state, ops, key, from, until),
    decreases ops.len(),
{
    if ops.len() > 0 {
        let rest = ops.drop_last();
        let last = ops.len() - 1;
        assert forall|i: int|
            #![trigger rest[i]]
            0 <= i < rest.len() && rest[i].asks_for(key) && from <= rest[i]->now
                <= until implies cleaned_by(state, rest.take(i), rest[i]->now) by {
            assert(rest[i] == ops[i]);
            assert(rest.take(i) =~= ops.take(i));
        }
        earlier_cleanups_overtake_nothing(state, rest, key, from, until);
        if ops[last].asks_for(key) && from <= ops[last]->now <= until {
            assert(ops.take(last) =~= rest);
            earlier_cleanups_forget_nothing(state, rest, key, ops[last]->now);
        }
    }
}

proof fn earlier_cleanups_forget_nothing<K>(
    state: LimiterState<K>,
    ops: Seq<Op<K>>,
    key: K,
    time: u64,
)
    requires
        cleaned_by(state, ops, time),
    ensures
        remembers(state, ops, key, time),
    decreases ops.len(),
{
    if ops.len() > 0 {
        earlier_cleanups_forget_nothing(state, ops.drop_last(), key, time);
    }
}

/// Without garbage collection no request is overtaken, in whatever order the requests are
/// decided.
pub proof fn without_gc_nothing_is_overtaken<K>(
    state: LimiterState<K>,
    ops: Seq<Op<K>>,
    key: K,
    from: u64,
    until: u64,
)
    requires
        state.gc_interval == u64::MAX,
        forall|i: int| #![trigger ops[i]] 0 <= i < ops.len() ==> ops[i] !is Clean,
    ensures
        not_overtaken(state, ops, key, from, until),
{
    assert forall|i: int|
        #![trigger ops[i]]
        0 <= i < ops.len() && ops[i].asks_for(key) && from <= ops[i]->now
            <= until implies cleaned_by(state, ops.take(i), ops[i]->now) by {
        assert forall|j: int| 0 <= j < ops.take(i).len() implies #[trigger] ops.take(i)[j]
            == ops[j] by {}
        no_cleanup_without_gc(state, ops.take(i), ops[i]->now);
    }
    earlier_cleanups_overtake_nothing(state, ops, key, from, until);
}

proof fn no_cleanup_without_gc<K>(state: LimiterState<K>, ops: Seq<Op<K>>, time: u64)
    requires
        state.gc_interval == u64::MAX,
        forall|i: int| #![trigger ops[i]] 0 <= i < ops.len() ==> ops[i] !is Clean,
    ensures
        cleaned_by(state, ops, time),
        run(state, ops).gc_interval == u64::MAX,
    decreases ops.len(),
{
    if ops.len() > 0 {
        let rest = ops.drop_last();
        assert forall|i: int| 0 <= i < rest.len() implies #[trigger] rest[i] == ops[i] by {}
        no_cleanup_without_gc(state, rest, time);
        assert(ops[ops.len() - 1] !is Clean);
    }
}

/// In a run that comes in order no request is overtaken.
pub proof fn order_prevents_overtaking<K>(
    state: LimiterState<K>,
    ops: Seq<Op<K>>,
    key: K,
    from: u64,
    until: u64,
)
    requires
        in_order(ops),
    ensures
        not_overtaken(state, ops, key, from, until),
{
    assert forall|i: int|
        #![trigger ops[i]]
        0 <= i < ops.len() && ops[i].asks_for(key) && from <= ops[i]->now
            <= until implies cleaned_by(state, ops.take(i), ops[i]->now) by {
        let earlier = ops.take(i);
        let now = ops[i]->now;
        assert(over_by(earlier, now)) by {
            assert forall|j: int| #![trigger earlier[j]] 0 <= j < earlier.len()
                && earlier[j].time() is Some implies earlier[j].time()->0 <= now by {
                assert(ops[j].time()->0 <= ops[i].time()->0);
            }
        }
        what_is_over_is_cleaned_by(state, earlier, now);
    }
    earlier_cleanups_overtake_nothing(state, ops, key, from, until);
}

proof fn what_is_over_is_cleaned_by<K>(state: LimiterState<K>, ops: Seq<Op<K>>, time: u64)
    requires
        over_by(ops, time),
    ensures
        cleaned_by(state, ops, time),
    decreases ops.len(),
{
    if ops.len() > 0 {
        let rest = ops.drop_last();
        assert forall|i: int| 0 <= i < rest.len() implies #[trigger] rest[i] == ops[i] by {}
        assert(over_by(rest, time));
        what_is_over_is_cleaned_by(state, rest, time);
        assert(ops[ops.len() - 1].time() is Some ==> ops[ops.len() - 1].time()->0 <= time);
    }
}

/// Whether the requests of `key` in a run that came between these times have this quota.
pub open spec fn quota_between<K>(
    ops: Seq<Op<K>>,
    key: K,
    quota: Quota,
    from: u64,
    until: u64,
) -> bool {
    forall|i: int|
        #![trigger ops[i]]
        0 <= i < ops.len() && ops[i].asks_for(key) && from <= ops[i]->now <= until
            ==> ops[i]->quota == quota
}

/// Whether a run holds no reset of `key`.
pub open spec fn unforgiven<K>(ops: Seq<Op<K>>, key: K) -> bool {
    forall|i: int|
        #![trigger ops[i]]
        0 <= i < ops.len() ==> !(ops[i] matches Op::Reset { key: k } && k == key)
}

/// A cleanup does not move the theoretical arrival time of any key, as seen at `before` or later.
pub proof fn cleanup_keeps_arrivals<K>(
    table: Map<K, u64>,
    before: u64,
    among: Set<K>,
    key: K,
    now: u64,
)
    requires
        before <= now,
    ensures
        arrival(entry(pending(table, before, among), key), now) == arrival(entry(table, key), now),
{
}

/// Counting a request, with the cleanup that may come of it, does not move the theoretical
/// arrival time of any key, as seen at the time of the request or later.
proof fn counting_keeps_arrivals<K>(state: LimiterState<K>, at: u64, key: K, now: u64)
    requires
        at <= now,
    ensures
        arrival(entry(state.counted(at).table, key), now) == arrival(entry(state.table, key), now),
{
    cleanup_keeps_arrivals(state.table, at, Set::full(), key, now);
}

/// After a run that admitted requests of `key` in a window, its theoretical arrival time has
/// moved on from the start of the window by at least one interval for each of them.
proof fn admissions_move_arrival<K>(
    state: LimiterState<K>,
    ops: Seq<Op<K>>,
    key: K,
    quota: Quota,
    from: u64,
    until: u64,
)
    requires
        not_overtaken(state, ops, key, from, until),
        quota_between(ops, key, quota, from, until),
        unforgiven(ops, key),
        until + quota.tolerance + quota.interval <= u64::MAX,
    ensures
        admitted_between(state, ops, key, from, until) > 0 ==> {
            &&& forall|now: u64|
                remembers(state, ops, key, now) ==> #[trigger] arrival(
                    entry(run(state, ops).table, key),
                    now,
                ) >= from + admitted_between(state, ops, key, from, until) * quota.interval
            &&& from + admitted_between(state, ops, key, from, until) * quota.interval <= until
                + quota.tolerance + quota.interval
        },
    decreases ops.len(),
{
    if ops.len() > 0 {
        let rest = ops.drop_last();
        let op = ops.last();
        assert forall|i: int| 0 <= i < rest.len() implies #[trigger] rest[i] == ops[i] by {}
        assert(quota_between(rest, key, quota, from, until));
        assert(unforgiven(rest, key));
        admissions_move_arrival(state, rest, key, quota, from, until);
        let n = admitted_between(state, rest, key, from, until);
        let mid = run(state, rest);
        let total = admitted_between(state, ops, key, from, until);
        let end = run(state, ops);
        assert(op == ops[ops.len() - 1]);
        assert((n + 1) * quota.interval == n * quota.interval + quota.interval) by (nonlinear_arith);
        if n == 0 {
            assert(n * quota.interval == 0) by (nonlinear_arith)
                requires
                    n == 0,
            ;
        }
        if total == n + 1 {
            assert(op.asks_for(key));
            assert(arrival(entry(mid.table, key), op->now) >= from + n * quota.interval);
        }
        assert forall|now: u64| remembers(state, ops, key, now) && total > 0 implies
            #[trigger] arrival(entry(end.table, key), now) >= from + total * quota.interval by {
            assert(arrival(entry(swept(mid, op).table, key), now) == arrival(
                entry(mid.table, key),
                now,
            ));
            if n > 0 {
                assert(arrival(entry(mid.table, key), now) >= from + n * quota.interval);
            }
        }
    }
}

/// The rate law. Over any run of uses, in whatever order they are decided and from any state of
/// the limiter, with requests of any keys, penalties, cleanups and resets of other keys among
/// them, the requests of one key that came between two times and are admitted are no more than
/// what the time between them pays for at one per interval, plus the burst.
///
/// Only a request that a cleanup has overtaken escapes the law: one for which the key's entry
/// was removed although, at the time of the request, it was still to come.
pub proof fn rate_is_bounded<K>(
    state: LimiterState<K>,
    ops: Seq<Op<K>>,
    key: K,
    quota: Quota,
    from: u64,
    until: u64,
)
    requires
        not_overtaken(state, ops, key, from, until),
        quota_between(ops, key, quota, from, until),
        unforgiven(ops, key),
        from <= until,
        until + quota.tolerance + quota.interval <= u64::MAX,
    ensures
        admitted_between(state, ops, key, from, until) * quota.interval <= (until - from)
            + quota.tolerance + quota.interval,
{
    admissions_move_arrival(state, ops, key, quota, from, until);
    let n = admitted_between(state, ops, key, from, until);
    if n == 0 {
        assert(n * quota.interval == 0) by (nonlinear_arith)
            requires
                n == 0,
        ;
    }
}

/// The rate law for a quota given by its burst: between two times a key is admitted at most
/// once for every whole interval that passes, plus the burst.
pub proof fn rate_is_bounded_by_burst<K>(
    state: LimiterState<K>,
    ops: Seq<Op<K>>,
    key: K,
    quota: Quota,
    burst: u64,
    from: u64,
    until: u64,
)
    requires
        not_overtaken(state, ops, key, from, until),
        quota_between(ops, key, quota, from, until),
        unforgiven(ops, key),
        from <= until,
        quota.interval > 0,
        burst > 0,
        quota.tolerance == quota.interval * extra(burst),
        until + quota.tolerance + quota.interval <= u64::MAX,
    ensures
        admitted_between(state, ops, key, from, until) <= (until - from) / (quota.interval as int)
            + burst,
{
    rate_is_bounded(state, ops, key, quota, from, until);
    let n = admitted_between(state, ops, key, from, until) as int;
    let t = quota.interval as int;
    let w = until - from;
    let b = burst as int;
    assert(n <= w / t + b) by (nonlinear_arith)
        requires
            n * t <= w + t * (b - 1) + t,
            t > 0,
            w >= 0,
    ;
}

/// Whether the requests of `key` in a run come in the order of their times, and have this quota.
pub open spec fn steady<K>(ops: Seq<Op<K>>, key: K, quota: Quota) -> bool {
    &&& forall|i: int|
        #![trigger ops[i]]
        0 <= i < ops.len() && ops[i].asks_for(key) ==> ops[i]->quota == quota && ops[i]->now
            + quota.tolerance + quota.interval <= u64::MAX
    &&& forall|i: int, j: int|
        #![trigger ops[i], ops[j]]
        0 <= i <= j < ops.len() && ops[i].asks_for(key) && ops[j].asks_for(key) ==> ops[i]->now
            <= ops[j]->now
}

/// By how much a request of `key` at `now` is over its budget, seen from an earlier time: what was
/// admitted since then, at one interval each, less the time that has passed and the tolerance.
pub open spec fn excess<K>(
    state: LimiterState<K>,
    ops: Seq<Op<K>>,
    key: K,
    quota: Quota,
    from: u64,
    now: u64,
) -> int {
    admitted_between(state, ops, key, from, now) * quota.interval - (now - from) - quota.tolerance
}

/// The budget law, which decides every request by the answers to those before it. A key that was
/// new to the limiter, and whose requests come in order, is admitted if and only if there is no
/// earlier time since which more was admitted than the time that has passed pays for, at one per
/// interval, with the tolerance. If it is refused, it is told to wait for the largest excess.
///
/// This is so whatever else the limiter is used for, as long as the key is neither penalized nor
/// reset and no cleanup overtakes a request of it.
pub proof fn budget_decides<K>(
    state: LimiterState<K>,
    ops: Seq<Op<K>>,
    key: K,
    quota: Quota,
    now: u64,
)
    requires
        !state.table.contains_key(key),
        steady(ops.push(Op::Request { key, quota, now }), key, quota),
        not_overtaken(state, ops.push(Op::Request { key, quota, now }), key, 0, u64::MAX),
        unpunished(ops, key),
        unforgiven(ops, key),
    ensures
        run(state, ops).requested(key, quota, now).1 is Ok <==> forall|from: u64|
            from <= now ==> #[trigger] excess(state, ops, key, quota, from, now) <= 0,
        run(state, ops).requested(key, quota, now).1 matches Err(refusal) ==> {
            &&& forall|from: u64|
                from <= now ==> #[trigger] excess(state, ops, key, quota, from, now)
                    <= refusal.time_left
            &&& exists|from: u64|
                from <= now && #[trigger] excess(state, ops, key, quota, from, now)
                    == refusal.time_left
        },
{
    let all = ops.push(Op::Request { key, quota, now });
    assert(all.drop_last() =~= ops);
    assert forall|i: int| 0 <= i < ops.len() implies #[trigger] all[i] == ops[i] by {}
    assert(all[ops.len() as int].asks_for(key));
    assert forall|i: int| #![trigger ops[i]] 0 <= i < ops.len() && ops[i].asks_for(key) implies
        ops[i]->now <= now by {
        assert(all[i].asks_for(key));
        assert(all[i]->now <= all[ops.len() as int]->now);
    }
    assert(steady(ops, key, quota));
    let peak = admissions_have_a_peak(state, ops, key, quota);
    assert forall|from: u64| from <= now implies #[trigger] admitted_between(
        state,
        ops,
        key,
        from,
        now,
    ) == admitted_between(state, ops, key, from, u64::MAX) by {
        nothing_came_later(state, ops, key, from, now);
    }
    let before = run(state, ops);
    assert(remembers(state, ops, key, now));
    counting_keeps_arrivals(before, now, key, now);
    assert(arrival(entry(before.table, key), now) == if peak > now {
        peak
    } else {
        now as int
    });
    assert forall|from: u64| from <= now implies #[trigger] excess(
        state,
        ops,
        key,
        quota,
        from,
        now,
    ) <= (if peak > now {
        peak - now - quota.tolerance
    } else {
        0
    }) || excess(state, ops, key, quota, from, now) <= 0 by {
        let n = admitted_between(state, ops, key, from, u64::MAX);
        assert(admitted_between(state, ops, key, from, now) == n);
        if n == 0 {
            assert(n * quota.interval == 0) by (nonlinear_arith)
                requires
                    n == 0,
            ;
        }
    }
    if peak > now {
        let from = choose|from: u64|
            {
                &&& #[trigger] admitted_between(state, ops, key, from, u64::MAX) > 0
                &&& from + admitted_between(state, ops, key, from, u64::MAX) * quota.interval
                    == peak
            };
        nothing_came_later(state, ops, key, from, now);
        assert(admitted_between(state, ops, key, from, now) == admitted_between(
            state,
            ops,
            key,
            from,
            u64::MAX,
        ));
        assert(excess(state, ops, key, quota, from, now) == peak - now - quota.tolerance);
    }
}

/// No request of a run that came by `now` is missed by looking no further.
proof fn nothing_came_later<K>(
    state: LimiterState<K>,
    ops: Seq<Op<K>>,
    key: K,
    from: u64,
    now: u64,
)
    requires
        forall|i: int|
            #![trigger ops[i]]
            0 <= i < ops.len() && ops[i].asks_for(key) ==> ops[i]->now <= now,
    ensures
        admitted_between(state, ops, key, from, now) == admitted_between(
            state,
            ops,
            key,
            from,
            u64::MAX,
        ),
        from > now ==> admitted_between(state, ops, key, from, u64::MAX) == 0,
    decreases ops.len(),
{
    if ops.len() > 0 {
        let rest = ops.drop_last();
        assert forall|i: int| 0 <= i < rest.len() implies #[trigger] rest[i] == ops[i] by {}
        nothing_came_later(state, rest, key, from, now);
        assert(ops[ops.len() - 1] == ops.last());
    }
}

/// The theoretical arrival time of a key is the latest that its admissions add up to: from any time
/// on, one interval for each.
proof fn admissions_have_a_peak<K>(
    state: LimiterState<K>,
    ops: Seq<Op<K>>,
    key: K,
    quota: Quota,
) -> (peak: int)
    requires
        !state.table.contains_key(key),
        steady(ops, key, quota),
        not_overtaken(state, ops, key, 0, u64::MAX),
        unpunished(ops, key),
        unforgiven(ops, key),
    ensures
        peak >= 0,
        forall|from: u64| #[trigger]
            admitted_between(state, ops, key, from, u64::MAX) > 0 ==> from + admitted_between(
                state,
                ops,
                key,
                from,
                u64::MAX,
            ) * quota.interval <= peak,
        peak > 0 ==> exists|from: u64|
            {
                &&& #[trigger] admitted_between(state, ops, key, from, u64::MAX) > 0
                &&& from + admitted_between(state, ops, key, from, u64::MAX) * quota.interval
                    == peak
            },
        forall|now: u64|
            remembers(state, ops, key, now) ==> #[trigger] arrival(
                entry(run(state, ops).table, key),
                now,
            ) == if peak > now {
                peak
            } else {
                now as int
            },
    decreases ops.len(),
{
    if ops.len() == 0 {
        0
    } else {
        let rest = ops.drop_last();
        let op = ops.last();
        let last = ops.len() - 1;
        assert forall|i: int| 0 <= i < rest.len() implies #[trigger] rest[i] == ops[i] by {}
        assert(op == ops[last]);
        assert(steady(rest, key, quota));
        assert(unpunished(rest, key));
        assert(unforgiven(rest, key));
        let before = admissions_have_a_peak(state, rest, key, quota);
        let mid = run(state, rest);
        let end = run(state, ops);
        assert(!(op matches Op::Penalize { key: k, .. } && k == key));
        assert(!(op matches Op::Reset { key: k } && k == key));
        assert forall|now: u64| remembers(state, ops, key, now) implies arrival(
            entry(swept(mid, op).table, key),
            now,
        ) == #[trigger] arrival(entry(mid.table, key), now) by {}
        if op.asks_for(key) && mid.requested(key, quota, op->now).1 is Ok {
            let now = op->now;
            assert(remembers(state, rest, key, now));
            counting_keeps_arrivals(mid, now, key, now);
            let start = if before > now {
                before
            } else {
                now as int
            };
            assert(arrival(entry(mid.table, key), now) == start);
            let peak = start + quota.interval;
            assert forall|i: int| #![trigger rest[i]] 0 <= i < rest.len() && rest[i].asks_for(
                key,
            ) implies rest[i]->now <= now by {
                assert(ops[i]->now <= ops[last]->now);
            }
            assert forall|from: u64| #[trigger]
                admitted_between(state, ops, key, from, u64::MAX) > 0 implies from
                + admitted_between(state, ops, key, from, u64::MAX) * quota.interval <= peak by {
                one_more(state, ops, key, quota, from);
                nothing_came_later(state, rest, key, from, now);
            }
            if peak > 0 {
                let from = if before > now {
                    choose|from: u64|
                        {
                            &&& #[trigger] admitted_between(state, rest, key, from, u64::MAX) > 0
                            &&& from + admitted_between(state, rest, key, from, u64::MAX)
                                * quota.interval == before
                        }
                } else {
                    now
                };
                one_more(state, ops, key, quota, from);
                nothing_came_later(state, rest, key, from, now);
                if before > now {
                    assert(from <= now);
                    assert(admitted_between(state, ops, key, from, u64::MAX) > 0);
                } else {
                    let n = admitted_between(state, rest, key, now, u64::MAX);
                    if n > 0 {
                        assert(now + n * quota.interval <= before);
                    }
                    assert(admitted_between(state, ops, key, now, u64::MAX) > 0);
                }
                assert(from + admitted_between(state, ops, key, from, u64::MAX) * quota.interval
                    == peak);
            }
            assert(end.table.contains_key(key) && end.table[key] == peak);
            peak
        } else {
            assert forall|from: u64| #[trigger]
                admitted_between(state, ops, key, from, u64::MAX) == admitted_between(
                    state,
                    rest,
                    key,
                    from,
                    u64::MAX,
                ) by {}
            if before > 0 {
                let from = choose|from: u64|
                    {
                        &&& #[trigger] admitted_between(state, rest, key, from, u64::MAX) > 0
                        &&& from + admitted_between(state, rest, key, from, u64::MAX)
                            * quota.interval == before
                    };
                assert(admitted_between(state, ops, key, from, u64::MAX) > 0);
            }
            assert(op.asks_for(key) ==> op->quota == quota);
            assert(entry(end.table, key) == entry(swept(mid, op).table, key));
            assert forall|now: u64| remembers(state, ops, key, now) implies #[trigger] arrival(
                entry(end.table, key),
                now,
            ) == (if before > now {
                before
            } else {
                now as int
            }) by {
                assert(remembers(state, rest, key, now));
                assert(arrival(entry(mid.table, key), now) == arrival(
                    entry(swept(mid, op).table, key),
                    now,
                ));
            }
            before
        }
    }
}

/// What an admitted request adds.
proof fn one_more<K>(state: LimiterState<K>, ops: Seq<Op<K>>, key: K, quota: Quota, from: u64)
    requires
        ops.len() > 0,
        ops.last().asks_for(key),
        run(state, ops.drop_last()).requested(key, ops.last()->quota, ops.last()->now).1 is Ok,
    ensures
        ({
            let n = admitted_between(state, ops.drop_last(), key, from, u64::MAX);
            let m = admitted_between(state, ops, key, from, u64::MAX);
            &&& m == if from <= ops.last()->now {
                n + 1
            } else {
                n
            }
            &&& (n + 1) * quota.interval == n * quota.interval + quota.interval
            &&& n == 0 ==> n * quota.interval == 0
        }),
{
    let n = admitted_between(state, ops.drop_last(), key, from, u64::MAX);
    assert((n + 1) * quota.interval == n * quota.interval + quota.interval) by (nonlinear_arith);
    if n == 0 {
        assert(n * quota.interval == 0) by (nonlinear_arith)
            requires
                n == 0,
        ;
    }
}

/// A quota of a burst admits just that many requests of a new key at one moment, and tells the next
/// to wait for one interval.
pub proof fn burst_is_what_it_says<K>(
    state: LimiterState<K>,
    key: K,
    quota: Quota,
    burst: u64,
    now: u64,
)
    requires
        !state.table.contains_key(key),
        burst > 0,
        quota.interval > 0,
        quota.tolerance == quota.interval * (burst - 1),
        now + quota.interval * burst <= u64::MAX,
    ensures
        admitted(state, volley(key, quota, now, burst as nat), key) == burst,
        run(state, volley(key, quota, now, burst as nat)).requested(key, quota, now).1 == Err::<
            (),
            _,
        >(RateLimitError { time_left: quota.interval }),
{
    let t = quota.interval as int;
    let b = burst as int;
    assert(t * b == t * (b - 1) + t) by (nonlinear_arith);
    burst_is_admitted(state, key, quota, now, burst as nat);
}

/// How many requests of `key` a run holds.
pub open spec fn asked<K>(ops: Seq<Op<K>>, key: K) -> nat
    decreases ops.len(),
{
    if ops.len() == 0 {
        0
    } else {
        asked(ops.drop_last(), key) + if ops.last().asks_for(key) {
            1nat
        } else {
            0nat
        }
    }
}

/// Whether the requests of `key` in a run have this quota and come at least an interval apart.
pub open spec fn paced<K>(ops: Seq<Op<K>>, key: K, quota: Quota) -> bool {
    &&& forall|i: int|
        #![trigger ops[i]]
        0 <= i < ops.len() && ops[i].asks_for(key) ==> ops[i]->quota == quota
    &&& forall|i: int, j: int|
        #![trigger ops[i], ops[j]]
        0 <= i < j < ops.len() && ops[i].asks_for(key) && ops[j].asks_for(key) ==> ops[i]->now
            + quota.interval <= ops[j]->now
}

/// Whether a run holds no penalty of `key`.
pub open spec fn unpunished<K>(ops: Seq<Op<K>>, key: K) -> bool {
    forall|i: int|
        #![trigger ops[i]]
        0 <= i < ops.len() ==> !(ops[i] matches Op::Penalize { key: k, .. } && k == key)
}

/// A key that is new to the limiter, and that comes no more often than its quota's interval, is
/// never refused, whatever else the limiter is used for meanwhile.
pub proof fn paced_requests_are_admitted<K>(
    state: LimiterState<K>,
    ops: Seq<Op<K>>,
    key: K,
    quota: Quota,
)
    requires
        !state.table.contains_key(key),
        paced(ops, key, quota),
        unpunished(ops, key),
    ensures
        admitted(state, ops, key) == asked(ops, key),
{
    paced_arrival(state, ops, key, quota);
}

proof fn paced_arrival<K>(state: LimiterState<K>, ops: Seq<Op<K>>, key: K, quota: Quota)
    requires
        !state.table.contains_key(key),
        paced(ops, key, quota),
        unpunished(ops, key),
    ensures
        admitted(state, ops, key) == asked(ops, key),
        run(state, ops).table.contains_key(key) ==> exists|i: int|
            #![trigger ops[i]]
            0 <= i < ops.len() && ops[i].asks_for(key) && run(state, ops).table[key] <= ops[i]->now
                + quota.interval,
    decreases ops.len(),
{
    if ops.len() > 0 {
        let rest = ops.drop_last();
        let last = ops.len() - 1;
        assert forall|i: int| 0 <= i < rest.len() implies #[trigger] rest[i] == ops[i] by {}
        assert(paced(rest, key, quota));
        assert(unpunished(rest, key));
        paced_arrival(state, rest, key, quota);
        let mid = run(state, rest);
        let end = run(state, ops);
        if mid.table.contains_key(key) {
            let i = choose|i: int|
                #![trigger rest[i]]
                0 <= i < rest.len() && rest[i].asks_for(key) && mid.table[key] <= rest[i]->now
                    + quota.interval;
            assert(ops[i].asks_for(key));
            assert(ops[last].asks_for(key) ==> ops[i]->now + quota.interval <= ops[last]->now);
        }
        assert(!(ops[last] matches Op::Penalize { key: k, .. } && k == key));
        if ops[last].asks_for(key) {
            assert(mid.requested(key, quota, ops[last]->now).1 is Ok);
            assert(end.table[key] <= ops[last]->now + quota.interval);
        }
    }
}

/// The run of `count` requests of `key` at one moment.
pub open spec fn volley<K>(key: K, quota: Quota, now: u64, count: nat) -> Seq<Op<K>> {
    Seq::new(count, |i: int| Op::Request { key, quota, now })
}

/// A key that is new to the limiter can use its burst at once: as many requests as the tolerance
/// covers are admitted at one moment, and when that many have come, the next is told to wait for
/// what lies beyond the tolerance.
pub proof fn burst_is_admitted<K>(
    state: LimiterState<K>,
    key: K,
    quota: Quota,
    now: u64,
    count: nat,
)
    requires
        !state.table.contains_key(key),
        count > 0,
        quota.interval * (count - 1) <= quota.tolerance,
        now + quota.interval * count <= u64::MAX,
    ensures
        admitted(state, volley(key, quota, now, count), key) == count,
        quota.interval * count > quota.tolerance ==> run(
            state,
            volley(key, quota, now, count),
        ).requested(key, quota, now).1 == Err::<(), _>(
            RateLimitError { time_left: (quota.interval * count - quota.tolerance) as u64 },
        ),
{
    volley_arrival(state, key, quota, now, count);
    counting_keeps_arrivals(run(state, volley(key, quota, now, count)), now, key, now);
}

proof fn volley_arrival<K>(state: LimiterState<K>, key: K, quota: Quota, now: u64, count: nat)
    requires
        !state.table.contains_key(key),
        count > 0 ==> quota.interval * (count - 1) <= quota.tolerance,
        now + quota.interval * count <= u64::MAX,
    ensures
        admitted(state, volley(key, quota, now, count), key) == count,
        arrival(entry(run(state, volley(key, quota, now, count)).table, key), now) == now
            + quota.interval * count,
    decreases count,
{
    let ops = volley(key, quota, now, count);
    if count == 0 {
        assert(quota.interval * count == 0) by (nonlinear_arith)
            requires
                count == 0,
        ;
    } else {
        let fewer = (count - 1) as nat;
        assert(ops.drop_last() =~= volley(key, quota, now, fewer));
        let t = quota.interval as int;
        let n = count as int;
        assert(t * n == t * (n - 1) + t) by (nonlinear_arith);
        assert(n >= 2 ==> t * (n - 2) <= t * (n - 1)) by (nonlinear_arith)
            requires
                t >= 0,
        ;
        volley_arrival(state, key, quota, now, fewer);
        counting_keeps_arrivals(run(state, ops.drop_last()), now, key, now);
    }
}

/// The time that a refusal names is exact: as long as the key's entry stays as it is, a request
/// is admitted from that time on and not a nanosecond sooner.
pub proof fn refusal_names_the_wait<K>(
    state: LimiterState<K>,
    key: K,
    quota: Quota,
    now: u64,
    later: u64,
)
    requires
        state.requested(key, quota, now).1 is Err,
        now <= later,
    ensures
        state.requested(key, quota, now).1->Err_0.time_left > 0,
        state.requested(key, quota, now).0.requested(key, quota, later).1 is Ok <==> later >= now
            + state.requested(key, quota, now).1->Err_0.time_left,
{
    let after = state.requested(key, quota, now).0;
    counting_keeps_arrivals(state, now, key, now);
    counting_keeps_arrivals(state, now, key, later);
    counting_keeps_arrivals(after, later, key, later);
}

/// Whether two tables cannot be told apart by a request at `from` or later.
pub open spec fn agree<K>(a: Map<K, u64>, b: Map<K, u64>, from: u64) -> bool {
    forall|key: K, now: u64|
        #![trigger arrival(entry(a, key), now)]
        #![trigger arrival(entry(b, key), now)]
        from <= now ==> arrival(entry(a, key), now) == arrival(entry(b, key), now)
}

/// What a limiter answers to a run of requests.
pub open spec fn answers<K>(state: LimiterState<K>, ops: Seq<Op<K>>) -> Seq<
    Option<Result<(), RateLimitError>>,
>
    decreases ops.len(),
{
    if ops.len() == 0 {
        Seq::empty()
    } else {
        let before = run(state, ops.drop_last());
        answers(state, ops.drop_last()).push(
            match ops.last() {
                Op::Request { key, quota, now } => Some(before.requested(key, quota, now).1),
                _ => None,
            },
        )
    }
}

/// Whether a run holds no penalty.
pub open spec fn no_penalties<K>(ops: Seq<Op<K>>) -> bool {
    forall|i: int| #![trigger ops[i]] 0 <= i < ops.len() ==> ops[i] !is Penalize
}

/// Whether every request of a run came at `start` or later.
pub open spec fn requests_from<K>(ops: Seq<Op<K>>, start: u64) -> bool {
    forall|i: int|
        #![trigger ops[i]]
        0 <= i < ops.len() ==> (ops[i] matches Op::Request { now, .. } ==> start <= now)
}

/// Garbage collection does not change an answer: two limiters that agree at the start, and that
/// differ in their intervals, in their counts and in what was cleaned away, answer the same run
/// of requests, resets and cleanups alike, as long as neither lets a request be overtaken by a
/// cleanup.
///
/// Penalties are left out. A key whose entry is over can be penalized as long as the entry is
/// there, and no more once it is cleaned away.
pub proof fn gc_is_invisible<K>(
    a: LimiterState<K>,
    b: LimiterState<K>,
    ops: Seq<Op<K>>,
    start: u64,
)
    requires
        agree(a.table, b.table, start),
        no_penalties(ops),
        requests_from(ops, start),
        forall|key: K| #[trigger] not_overtaken(a, ops, key, 0, u64::MAX),
        forall|key: K| #[trigger] not_overtaken(b, ops, key, 0, u64::MAX),
    ensures
        answers(a, ops) == answers(b, ops),
{
    runs_agree(a, b, ops, start);
}

proof fn runs_agree<K>(a: LimiterState<K>, b: LimiterState<K>, ops: Seq<Op<K>>, start: u64)
    requires
        agree(a.table, b.table, start),
        no_penalties(ops),
        requests_from(ops, start),
        forall|key: K| #[trigger] not_overtaken(a, ops, key, 0, u64::MAX),
        forall|key: K| #[trigger] not_overtaken(b, ops, key, 0, u64::MAX),
    ensures
        answers(a, ops) == answers(b, ops),
        forall|key: K, now: u64|
            #![trigger arrival(entry(run(a, ops).table, key), now)]
            start <= now && remembers(a, ops, key, now) && remembers(b, ops, key, now) ==> arrival(
                entry(run(a, ops).table, key),
                now,
            ) == arrival(entry(run(b, ops).table, key), now),
    decreases ops.len(),
{
    if ops.len() > 0 {
        let rest = ops.drop_last();
        let op = ops.last();
        assert forall|i: int| 0 <= i < rest.len() implies #[trigger] rest[i] == ops[i] by {}
        assert forall|key: K| #[trigger] not_overtaken(a, rest, key, 0, u64::MAX) by {
            assert(not_overtaken(a, ops, key, 0, u64::MAX));
        }
        assert forall|key: K| #[trigger] not_overtaken(b, rest, key, 0, u64::MAX) by {
            assert(not_overtaken(b, ops, key, 0, u64::MAX));
        }
        runs_agree(a, b, rest, start);
        let x = run(a, rest);
        let y = run(b, rest);
        assert(op == ops[ops.len() - 1]);
        if op is Request {
            assert(not_overtaken(a, ops, op->Request_key, 0, u64::MAX));
            assert(not_overtaken(b, ops, op->Request_key, 0, u64::MAX));
            let key = op->Request_key;
            assert(arrival(entry(x.table, key), op->now) == arrival(entry(y.table, key), op->now));
            counting_keeps_arrivals(x, op->now, key, op->now);
            counting_keeps_arrivals(y, op->now, key, op->now);
        }
        assert forall|key: K, now: u64|
            #![trigger arrival(entry(run(a, ops).table, key), now)]
            start <= now && remembers(a, ops, key, now) && remembers(b, ops, key, now)
            implies arrival(entry(run(a, ops).table, key), now) == arrival(
            entry(run(b, ops).table, key),
            now,
        ) by {
            assert(arrival(entry(x.table, key), now) == arrival(entry(y.table, key), now));
            assert(arrival(entry(swept(x, op).table, key), now) == arrival(
                entry(x.table, key),
                now,
            ));
            assert(arrival(entry(swept(y, op).table, key), now) == arrival(
                entry(y.table, key),
                now,
            ));
        }
    }
}

/// How many requests, of whatever keys, a run holds.
pub open spec fn requests_in<K>(ops: Seq<Op<K>>) -> nat
    decreases ops.len(),
{
    if ops.len() == 0 {
        0
    } else {
        requests_in(ops.drop_last()) + if ops.last() is Request {
            1nat
        } else {
            0nat
        }
    }
}

/// The table is cleaned on every `gc_interval`-th request, and on no other, whatever else the
/// limiter is used for meanwhile.
pub proof fn gc_runs_on_every_nth_request<K>(gc_interval: u64, ops: Seq<Op<K>>)
    requires
        0 < gc_interval < u64::MAX,
    ensures
        run(LimiterState::fresh(gc_interval), ops).gc_due() <==> (requests_in(ops) + 1)
            % (gc_interval as nat) == 0,
{
    requests_are_counted(gc_interval, ops);
    next_remainder(requests_in(ops) as int, gc_interval as int);
}

proof fn next_remainder(count: int, n: int)
    requires
        count >= 0,
        n > 0,
    ensures
        (count + 1) % n == if count % n + 1 == n {
            0
        } else {
            count % n + 1
        },
{
    let q = count / n;
    let r = count % n;
    assert(count == n * q + r && 0 <= r < n) by (nonlinear_arith)
        requires
            n > 0,
            q == count / n,
            r == count % n,
    ;
    if r + 1 == n {
        assert(count + 1 == n * (q + 1)) by (nonlinear_arith)
            requires
                count == n * q + r,
                r + 1 == n,
        ;
        vstd::arithmetic::div_mod::lemma_fundamental_div_mod_converse(count + 1, n, q + 1, 0);
    } else {
        assert(count + 1 == q * n + (r + 1)) by (nonlinear_arith)
            requires
                count == n * q + r,
        ;
        vstd::arithmetic::div_mod::lemma_fundamental_div_mod_converse(count + 1, n, q, r + 1);
    }
}

proof fn requests_are_counted<K>(gc_interval: u64, ops: Seq<Op<K>>)
    requires
        0 < gc_interval < u64::MAX,
    ensures
        run(LimiterState::fresh(gc_interval), ops).gc_interval == gc_interval,
        run(LimiterState::fresh(gc_interval), ops).requests == requests_in(ops)
            % (gc_interval as nat),
    decreases ops.len(),
{
    if ops.len() > 0 {
        let rest = ops.drop_last();
        requests_are_counted::<K>(gc_interval, rest);
        next_remainder(requests_in(rest) as int, gc_interval as int);
    } else {
        vstd::arithmetic::div_mod::lemma_small_mod(0, gc_interval as nat);
    }
}

/// An interval of `u64::MAX` turns garbage collection off: no request ever removes an entry, nor
/// does anything else but a cleanup or a reset of its key.
pub proof fn gc_can_be_turned_off<K>(state: LimiterState<K>, ops: Seq<Op<K>>, key: K)
    requires
        state.gc_interval == u64::MAX,
        forall|i: int| #![trigger ops[i]] 0 <= i < ops.len() ==> ops[i] !is Clean,
        unforgiven(ops, key),
        state.table.contains_key(key),
    ensures
        run(state, ops).table.contains_key(key),
        run(state, ops).gc_interval == u64::MAX,
    decreases ops.len(),
{
    if ops.len() > 0 {
        let rest = ops.drop_last();
        assert forall|i: int| 0 <= i < rest.len() implies #[trigger] rest[i] == ops[i] by {}
        gc_can_be_turned_off(state, rest, key);
        assert(ops[ops.len() - 1] !is Clean);
    }
}

/// Whether a use is one of these keys. A cleanup is nobody's.
pub open spec fn is_use_of<K>(op: Op<K>, keys: Set<K>) -> bool {
    match op {
        Op::Request { key, .. } => keys.contains(key),
        Op::Penalize { key, .. } => keys.contains(key),
        Op::Reset { key } => keys.contains(key),
        Op::Clean { .. } => false,
    }
}

/// A run without the uses of these keys.
pub open spec fn without<K>(ops: Seq<Op<K>>, keys: Set<K>) -> Seq<Op<K>>
    decreases ops.len(),
{
    if ops.len() == 0 {
        ops
    } else if is_use_of(ops.last(), keys) {
        without(ops.drop_last(), keys)
    } else {
        without(ops.drop_last(), keys).push(ops.last())
    }
}

/// What a limiter answers to the requests of `key` in a run.
pub open spec fn answers_to<K>(state: LimiterState<K>, ops: Seq<Op<K>>, key: K) -> Seq<
    Result<(), RateLimitError>,
>
    decreases ops.len(),
{
    if ops.len() == 0 {
        Seq::empty()
    } else {
        let earlier = answers_to(state, ops.drop_last(), key);
        match ops.last() {
            Op::Request { key: k, quota, now } => if k == key {
                earlier.push(run(state, ops.drop_last()).requested(k, quota, now).1)
            } else {
                earlier
            },
            _ => earlier,
        }
    }
}

/// What some keys do is never seen by another: the requests of `other` in a run are answered as
/// they are in the run without any use of `keys`, as long as no cleanup overtakes one of them and
/// `other` is not penalized.
///
/// The requests of `keys` count towards the next cleanup, so that without them the table is
/// cleaned at other times. What that means for penalties is said at [`gc_is_invisible`].
pub proof fn keys_are_independent<K>(
    state: LimiterState<K>,
    ops: Seq<Op<K>>,
    keys: Set<K>,
    other: K,
)
    requires
        !keys.contains(other),
        unpunished(ops, other),
        not_overtaken(state, ops, other, 0, u64::MAX),
        not_overtaken(state, without(ops, keys), other, 0, u64::MAX),
    ensures
        answers_to(state, ops, other) == answers_to(state, without(ops, keys), other),
{
    arrivals_are_independent(state, ops, keys, other);
}

proof fn arrivals_are_independent<K>(
    state: LimiterState<K>,
    ops: Seq<Op<K>>,
    keys: Set<K>,
    other: K,
)
    requires
        !keys.contains(other),
        unpunished(ops, other),
        not_overtaken(state, ops, other, 0, u64::MAX),
        not_overtaken(state, without(ops, keys), other, 0, u64::MAX),
    ensures
        answers_to(state, ops, other) == answers_to(state, without(ops, keys), other),
        forall|now: u64|
            #![trigger arrival(entry(run(state, ops).table, other), now)]
            remembers(state, ops, other, now) && remembers(state, without(ops, keys), other, now)
                ==> arrival(entry(run(state, ops).table, other), now) == arrival(
                entry(run(state, without(ops, keys)).table, other),
                now,
            ),
    decreases ops.len(),
{
    if ops.len() > 0 {
        let rest = ops.drop_last();
        let op = ops.last();
        let fewer = without(ops, keys);
        assert forall|i: int| 0 <= i < rest.len() implies #[trigger] rest[i] == ops[i] by {}
        assert(op == ops[ops.len() - 1]);
        if !is_use_of(op, keys) {
            assert(fewer.drop_last() =~= without(rest, keys));
        }
        arrivals_are_independent(state, rest, keys, other);
        let x = run(state, rest);
        let y = run(state, without(rest, keys));
        if op.asks_for(other) {
            assert(arrival(entry(x.table, other), op->now) == arrival(
                entry(y.table, other),
                op->now,
            ));
            counting_keeps_arrivals(x, op->now, other, op->now);
            counting_keeps_arrivals(y, op->now, other, op->now);
        }
        assert forall|now: u64|
            #![trigger arrival(entry(run(state, ops).table, other), now)]
            remembers(state, ops, other, now) && remembers(state, fewer, other, now)
            implies arrival(entry(run(state, ops).table, other), now) == arrival(
            entry(run(state, fewer).table, other),
            now,
        ) by {
            assert(arrival(entry(x.table, other), now) == arrival(entry(y.table, other), now));
            assert(arrival(entry(swept(x, op).table, other), now) == arrival(
                entry(x.table, other),
                now,
            ));
            if !is_use_of(op, keys) {
                assert(arrival(entry(swept(y, op).table, other), now) == arrival(
                    entry(y.table, other),
                    now,
                ));
            }
        }
    }
}

/// In a run that comes in order, what some keys do is never seen by another that is not
/// penalized.
pub proof fn keys_are_independent_in_order<K>(
    state: LimiterState<K>,
    ops: Seq<Op<K>>,
    keys: Set<K>,
    other: K,
)
    requires
        !keys.contains(other),
        unpunished(ops, other),
        in_order(ops),
    ensures
        answers_to(state, ops, other) == answers_to(state, without(ops, keys), other),
{
    order_survives_removal(ops, keys);
    order_prevents_overtaking(state, ops, other, 0, u64::MAX);
    order_prevents_overtaking(state, without(ops, keys), other, 0, u64::MAX);
    keys_are_independent(state, ops, keys, other);
}

proof fn order_survives_removal<K>(ops: Seq<Op<K>>, keys: Set<K>)
    requires
        in_order(ops),
    ensures
        in_order(without(ops, keys)),
        forall|time: u64| over_by(ops, time) ==> #[trigger] over_by(without(ops, keys), time),
    decreases ops.len(),
{
    if ops.len() > 0 {
        let rest = ops.drop_last();
        let last = ops.len() - 1;
        let fewer = without(rest, keys);
        assert forall|i: int| 0 <= i < rest.len() implies #[trigger] rest[i] == ops[i] by {}
        assert(in_order(rest));
        order_survives_removal(rest, keys);
        assert forall|time: u64| over_by(ops, time) implies over_by(rest, time) by {
            assert forall|i: int| #![trigger rest[i]] 0 <= i < rest.len()
                && rest[i].time() is Some implies rest[i].time()->0 <= time by {
                assert(ops[i].time()->0 <= time);
            }
        }
        if !is_use_of(ops.last(), keys) {
            assert(without(ops, keys) == fewer.push(ops.last()));
            if ops[last].time() is Some {
                let time = ops[last].time()->0;
                assert forall|i: int| #![trigger rest[i]] 0 <= i < rest.len()
                    && rest[i].time() is Some implies rest[i].time()->0 <= time by {
                    assert(ops[i].time()->0 <= ops[last].time()->0);
                }
                assert(over_by(rest, time));
                assert(over_by(fewer, time));
            }
            assert forall|time: u64| over_by(ops, time) implies #[trigger] over_by(
                without(ops, keys),
                time,
            ) by {
                assert(over_by(fewer, time));
                assert(ops[last].time() is Some ==> ops[last].time()->0 <= time);
            }
        }
    }
}

/// While no request cleans the table, what some keys do is not seen by another in any run at
/// all, penalties and the order of times included.
pub proof fn keys_are_independent_without_gc<K>(
    state: LimiterState<K>,
    ops: Seq<Op<K>>,
    keys: Set<K>,
    other: K,
)
    requires
        !keys.contains(other),
        state.gc_interval == u64::MAX,
    ensures
        answers_to(state, ops, other) == answers_to(state, without(ops, keys), other),
        entry(run(state, ops).table, other) == entry(run(state, without(ops, keys)).table, other),
        run(state, ops).gc_interval == u64::MAX,
        run(state, without(ops, keys)).gc_interval == u64::MAX,
    decreases ops.len(),
{
    if ops.len() > 0 {
        let rest = ops.drop_last();
        if !is_use_of(ops.last(), keys) {
            assert(without(ops, keys).drop_last() =~= without(rest, keys));
        }
        keys_are_independent_without_gc(state, rest, keys, other);
    }
}

/// The keys of a route, where a key is made of a route and a client.
pub open spec fn on_route<R, C>(route: R) -> Set<(R, C)> {
    Set::new(|key: (R, C)| key.0 == route)
}

/// With keys that are made of a route and a client, routes are limited apart: what any clients do
/// on one route is never seen by a client on another, if the uses come in order and the client is
/// not penalized there.
pub proof fn routes_are_independent<R, C>(
    state: LimiterState<(R, C)>,
    ops: Seq<Op<(R, C)>>,
    route: R,
    other: R,
    client: C,
)
    requires
        route != other,
        in_order(ops),
        unpunished(ops, (other, client)),
    ensures
        answers_to(state, ops, (other, client)) == answers_to(
            state,
            without(ops, on_route(route)),
            (other, client),
        ),
{
    keys_are_independent_in_order(state, ops, on_route(route), (other, client));
}

/// Every key that has an entry is held.
pub proof fn entries_are_held<K>(state: LimiterState<K>)
    requires
        state.reachable(),
    ensures
        state.table.dom().subset_of(state.held),
        state.held.finite(),
{
    let fresh = LimiterState::<K>::fresh(state.gc_interval);
    let ops = choose|ops: Seq<Op<K>>| state == #[trigger] run(fresh, ops);
    uses_hold_entries(fresh, ops);
}

proof fn uses_hold_entries<K>(state: LimiterState<K>, ops: Seq<Op<K>>)
    requires
        state.table.dom().subset_of(state.held),
        state.held.finite(),
    ensures
        run(state, ops).table.dom().subset_of(run(state, ops).held),
        run(state, ops).held.finite(),
    decreases ops.len(),
{
    if ops.len() > 0 {
        uses_hold_entries(state, ops.drop_last());
    }
}

/// A cleanup frees all that can be freed: after it the limiter holds just the keys that have an
/// entry, and all of these entries are still to come.
pub proof fn cleanup_frees<K>(state: LimiterState<K>, before: u64)
    requires
        state.reachable(),
    ensures
        state.cleaned(before).held == state.cleaned(before).table.dom(),
        forall|key: K| #[trigger]
            state.cleaned(before).held.contains(key) <==> state.table.contains_key(key)
                && state.table[key] > before,
{
    entries_are_held(state);
    assert(state.cleaned(before).held =~= state.cleaned(before).table.dom());
}

/// A request that cleans the table leaves the limiter with just the keys whose entries are still
/// to come at its time, and with its own if it is admitted.
pub proof fn gc_frees<K>(state: LimiterState<K>, key: K, quota: Quota, now: u64)
    requires
        state.reachable(),
        state.gc_due(),
    ensures
        forall|other: K|
            other != key ==> (#[trigger] state.requested(key, quota, now).0.held.contains(other)
                <==> state.table.contains_key(other) && state.table[other] > now),
{
    cleanup_frees(state, now);
    assert forall|other: K| other != key implies (#[trigger] state.requested(
        key,
        quota,
        now,
    ).0.held.contains(other) <==> state.table.contains_key(other) && state.table[other] > now) by {
        assert(state.cleaned(now).held.contains(other) <==> state.table.contains_key(other)
            && state.table[other] > now);
    }
}

/// Nothing but requests makes the limiter hold more, and each of them by no more than one key.
pub proof fn held_keys_grow_by_requests<K>(state: LimiterState<K>, ops: Seq<Op<K>>)
    requires
        state.held.finite(),
    ensures
        run(state, ops).held.finite(),
        run(state, ops).held.len() <= state.held.len() + requests_in(ops),
    decreases ops.len(),
{
    if ops.len() > 0 {
        let mid = run(state, ops.drop_last());
        held_keys_grow_by_requests(state, ops.drop_last());
        match ops.last() {
            Op::Request { now, .. } => {
                assert(mid.counted(now).held.subset_of(mid.held));
                vstd::set_lib::lemma_len_subset(mid.counted(now).held, mid.held);
            },
            Op::Clean { before, among } => {
                assert(mid.cleaned_among(before, among).held.subset_of(mid.held));
                vstd::set_lib::lemma_len_subset(mid.cleaned_among(before, among).held, mid.held);
            },
            _ => {},
        }
    }
}

/// A penalty adds to the wait: a key whose theoretical arrival time is not yet past has to wait
/// for exactly the penalty longer.
pub proof fn penalty_adds_to_the_wait<K>(
    state: LimiterState<K>,
    key: K,
    penalty: u64,
    now: u64,
)
    requires
        state.table.contains_key(key),
        now <= state.table[key],
        state.table[key] + penalty <= u64::MAX,
    ensures
        arrival(entry(state.penalized(key, penalty).table, key), now) == arrival(
            entry(state.table, key),
            now,
        ) + penalty,
{
}

/// After a reset the next request of the key is admitted, and it finds the key as new as a key
/// that was never seen.
pub proof fn reset_forgets<K>(state: LimiterState<K>, key: K, quota: Quota, now: u64)
    ensures
        !state.forgotten(key).table.contains_key(key),
        state.forgotten(key).requested(key, quota, now).1 is Ok,
        state.forgotten(key).requested(key, quota, now).0.table[key] == clamp(
            now + quota.interval,
        ),
{
    counting_keeps_arrivals(state.forgotten(key), now, key, now);
}

} // verus!
