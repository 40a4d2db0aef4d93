//! The generic cell rate algorithm (GCRA) and the table of its per-key states.
//!
//! All times are nanoseconds on one clock that starts with the limiter. The state of a key is a
//! single number, its theoretical arrival time: the moment at which the key has used up
//! everything it was granted so far.

use std::collections::HashMap;
use std::hash::{BuildHasher, Hash};
use std::sync::Arc;
use vstd::prelude::*;
use vstd::std_specs::hash::{builds_valid_hashers, obeys_key_model};

verus! {

/// How often a key may be used: on average once per `interval`, with an arrival accepted up to
/// `tolerance` ahead of its time. Both are in nanoseconds.
#[derive(Debug, Clone, Copy, PartialEq, Eq, Structural)]
pub struct Quota {
    pub interval: u64,
    pub tolerance: u64,
}

impl Quota {
    /// One request per `interval` nanoseconds on average, and up to `burst` of them at once.
    ///
    /// A `burst` of zero counts as one.
    pub fn new(interval: u64, burst: u64) -> (quota: Quota)
        ensures
            quota.interval == interval,
            quota.tolerance == clamp(interval * extra(burst)),
            burst <= 1 ==> quota.tolerance == 0,
            burst >= 1 && interval * (burst - 1) <= u64::MAX ==> quota.tolerance == interval * (
            burst - 1),
            burst >= 1 && interval * (burst - 1) > u64::MAX ==> quota.tolerance == u64::MAX,
    {
        let more: u64 = burst.saturating_sub(1);
        assert(more == 0 ==> interval * more == 0) by (nonlinear_arith);
        let tolerance: u64 = match interval.checked_mul(more) {
            Some(product) => product,
            None => u64::MAX,
        };
        Quota { interval, tolerance }
    }

    /// One request per `interval` nanoseconds, never two at once.
    pub fn simple(interval: u64) -> (quota: Quota)
        ensures
            quota.interval == interval,
            quota.tolerance == 0,
    {
        Quota { interval, tolerance: 0 }
    }
}

impl Default for Quota {
    /// One request per second.
    fn default() -> (quota: Quota)
        ensures
            quota.interval == 1_000_000_000,
            quota.tolerance == 0,
    {
        Quota::simple(1_000_000_000)
    }
}

/// The refusal of a request, with the time in nanoseconds after which it would be admitted.
#[derive(Debug, Clone, Copy, PartialEq, Eq, Structural)]
pub struct RateLimitError {
    pub time_left: u64,
}

/// The requests that a burst allows beyond the first.
pub open spec fn extra(burst: u64) -> int {
    if burst == 0 {
        0
    } else {
        burst - 1
    }
}

/// A time held in 64 bits: what lies beyond the clock stays at its end.
pub open spec fn clamp(time: int) -> int {
    if time <= u64::MAX {
        time
    } else {
        u64::MAX as int
    }
}

/// The theoretical arrival time of a key at `now`: never in the past, and `now` for a key that
/// has no entry.
pub open spec fn arrival(entry: Option<u64>, now: u64) -> int {
    match entry {
        Some(tat) => if tat > now {
            tat as int
        } else {
            now as int
        },
        None => now as int,
    }
}

/// Whether a request at `now` keeps to `quota`: it is ahead of its theoretical arrival time by
/// no more than the tolerance.
pub open spec fn conforms(entry: Option<u64>, quota: Quota, now: u64) -> bool {
    arrival(entry, now) - now <= quota.tolerance
}

/// What a request at `now` brings about: the key's next theoretical arrival time, or the time
/// that is left until the request would conform.
pub open spec fn verdict(entry: Option<u64>, quota: Quota, now: u64) -> Result<
    u64,
    RateLimitError,
> {
    if conforms(entry, quota, now) {
        Ok(clamp(arrival(entry, now) + quota.interval) as u64)
    } else {
        Err(RateLimitError { time_left: (arrival(entry, now) - now - quota.tolerance) as u64 })
    }
}

/// Decides one request from the state of its key.
pub fn decide(entry: Option<u64>, quota: Quota, now: u64) -> (next: Result<u64, RateLimitError>)
    ensures
        next == verdict(entry, quota, now),
        next is Ok <==> (entry matches Some(tat) ==> tat <= now + quota.tolerance),
        next matches Ok(tat) ==> {
            let held = if entry is Some && entry->0 > now {
                entry->0
            } else {
                now
            };
            tat == if held + quota.interval <= u64::MAX {
                held + quota.interval
            } else {
                u64::MAX as int
            }
        },
        next matches Err(refusal) ==> entry is Some && now + quota.tolerance + refusal.time_left
            == entry->0,
{
    let tat: u64 = match entry {
        Some(tat) => if tat > now {
            tat
        } else {
            now
        },
        None => now,
    };
    let ahead: u64 = tat - now;
    if ahead <= quota.tolerance {
        Ok(tat.saturating_add(quota.interval))
    } else {
        Err(RateLimitError { time_left: ahead - quota.tolerance })
    }
}

/// Whether `std`'s hash map behaves as a map for these keys and this hasher: equal keys hash
/// alike, and `==` on keys is identity.
pub open spec fn is_map<K, H>() -> bool {
    obeys_key_model::<K>() && builds_valid_hashers::<H>()
}

/// The entries that a cleanup at `before` of the keys `among` keeps: those whose time is still to
/// come, and those of all other keys.
pub open spec fn pending<K>(table: Map<K, u64>, before: u64, among: Set<K>) -> Map<K, u64> {
    table.restrict(
        Set::new(
            |key: K| table.contains_key(key) && (table[key] > before || !among.contains(key)),
        ),
    )
}

/// The entry of a key, if it has one.
pub open spec fn entry<K>(table: Map<K, u64>, key: K) -> Option<u64> {
    if table.contains_key(key) {
        Some(table[key])
    } else {
        None
    }
}

/// The state of a [`RateLimiter`].
#[verifier::ext_equal]
#[verifier::reject_recursive_types(K)]
pub struct LimiterState<K> {
    /// The theoretical arrival time of every key that has one.
    pub table: Map<K, u64>,
    /// The keys that the limiter holds in memory: those that have an entry, and those that were
    /// forgotten since the last cleanup.
    pub held: Set<K>,
    /// The number of requests after which the table is cleaned.
    pub gc_interval: u64,
    /// The requests since the last cleanup.
    pub requests: u64,
}

impl<K> LimiterState<K> {
    /// A limiter that has seen no request.
    pub open spec fn fresh(gc_interval: u64) -> Self {
        LimiterState { table: Map::empty(), held: Set::empty(), gc_interval, requests: 0 }
    }

    /// Whether the next request cleans the table. An interval of `u64::MAX` turns this off.
    pub open spec fn gc_due(self) -> bool {
        self.gc_interval != u64::MAX && self.requests + 1 >= self.gc_interval
    }

    /// Without the entries that are over at `before`, and without every key that has no entry.
    pub open spec fn cleaned(self, before: u64) -> Self {
        self.cleaned_among(before, Set::full())
    }

    /// Without the keys `among` whose entries are over at `before`, or that have none: neither
    /// the entry nor the key is held any more.
    pub open spec fn cleaned_among(self, before: u64, among: Set<K>) -> Self {
        let table = pending(self.table, before, among);
        LimiterState {
            table,
            held: self.held.intersect(among.complement().union(table.dom())),
            ..self
        }
    }

    /// After counting one request at `now`, with the cleanup if it is due.
    pub open spec fn counted(self, now: u64) -> Self {
        if self.gc_interval == u64::MAX {
            self
        } else if self.gc_due() {
            LimiterState { requests: 0, ..self.cleaned(now) }
        } else {
            LimiterState { requests: (self.requests + 1) as u64, ..self }
        }
    }

    /// After a request of `key` at `now`, and how the request was decided.
    pub open spec fn requested(self, key: K, quota: Quota, now: u64) -> (
        Self,
        Result<(), RateLimitError>,
    ) {
        let counted = self.counted(now);
        match verdict(entry(counted.table, key), quota, now) {
            Ok(next) => (
                LimiterState {
                    table: counted.table.insert(key, next),
                    held: counted.held.insert(key),
                    ..counted
                },
                Ok(()),
            ),
            Err(refusal) => (counted, Err(refusal)),
        }
    }

    /// After moving the theoretical arrival time of `key` back by `penalty`.
    pub open spec fn penalized(self, key: K, penalty: u64) -> Self {
        if self.table.contains_key(key) {
            LimiterState {
                table: self.table.insert(key, clamp(self.table[key] + penalty) as u64),
                ..self
            }
        } else {
            self
        }
    }

    /// After forgetting `key`. It is held until the next cleanup.
    pub open spec fn forgotten(self, key: K) -> Self {
        LimiterState { table: self.table.remove(key), ..self }
    }
}

/// One use of a limiter. A cleanup may come in steps, each of which is a use that looks at some
/// keys.
#[verifier::reject_recursive_types(K)]
pub enum Op<K> {
    Request { key: K, quota: Quota, now: u64 },
    Penalize { key: K, penalty: u64 },
    Reset { key: K },
    Clean { before: u64, among: Set<K> },
}

impl<K> Op<K> {
    /// The time at which the clock stood, for the uses that read it.
    pub open spec fn time(self) -> Option<u64> {
        match self {
            Op::Request { now, .. } => Some(now),
            Op::Penalize { .. } => None,
            Op::Reset { .. } => None,
            Op::Clean { before, .. } => Some(before),
        }
    }

    /// Whether this is a request of `key`.
    pub open spec fn asks_for(self, key: K) -> bool {
        self matches Op::Request { key: k, .. } && k == key
    }
}

/// The state after one use.
pub open spec fn step<K>(state: LimiterState<K>, op: Op<K>) -> LimiterState<K> {
    match op {
        Op::Request { key, quota, now } => state.requested(key, quota, now).0,
        Op::Penalize { key, penalty } => state.penalized(key, penalty),
        Op::Reset { key } => state.forgotten(key),
        Op::Clean { before, among } => state.cleaned_among(before, among),
    }
}

/// The state after a run of uses.
pub open spec fn run<K>(state: LimiterState<K>, ops: Seq<Op<K>>) -> LimiterState<K>
    decreases ops.len(),
{
    if ops.len() == 0 {
        state
    } else {
        step(run(state, ops.drop_last()), ops.last())
    }
}

impl<K> LimiterState<K> {
    /// Whether some run of uses leads from an empty limiter to this state.
    pub open spec fn reachable(self) -> bool {
        exists|ops: Seq<Op<K>>| self == #[trigger] run(Self::fresh(self.gc_interval), ops)
    }
}

/// An empty limiter is where every run begins.
pub proof fn fresh_is_reachable<K>(gc_interval: u64)
    ensures
        LimiterState::<K>::fresh(gc_interval).reachable(),
{
    let fresh = LimiterState::<K>::fresh(gc_interval);
    assert(fresh == run(LimiterState::<K>::fresh(fresh.gc_interval), Seq::<Op<K>>::empty()));
}

/// Every use leads from a state that can be reached to another one.
pub proof fn use_is_reachable<K>(state: LimiterState<K>, op: Op<K>)
    requires
        state.reachable(),
    ensures
        step(state, op).reachable(),
{
    let fresh = LimiterState::<K>::fresh(state.gc_interval);
    let ops = choose|ops: Seq<Op<K>>| state == #[trigger] run(fresh, ops);
    assert(ops.push(op).drop_last() =~= ops);
    let next = step(state, op);
    assert(next == run(LimiterState::<K>::fresh(next.gc_interval), ops.push(op)));
}

/// The number of keys that one step of a cleanup looks at.
pub const STEP: usize = 64;

/// The states of all keys, and the count of requests that paces their cleanup.
///
/// The keys stand in a list as well, each of them once, so that a cleanup can go through them in
/// steps. A key that was forgotten keeps its place in the list, with no time, until a cleanup comes
/// by.
#[verifier::reject_recursive_types(K)]
#[verifier::reject_recursive_types(H)]
pub struct RateLimiter<K, H> {
    slots: HashMap<Arc<K>, Option<u64>, H>,
    keys: Vec<Arc<K>>,
    gc_interval: u64,
    requests: u64,
}

/// The theoretical arrival times that slots hold.
pub open spec fn times<K>(slots: Map<Arc<K>, Option<u64>>) -> Map<K, u64> {
    Map::new(
        |key: K| slots.contains_key(Arc::new(key)) && slots[Arc::new(key)] is Some,
        |key: K| slots[Arc::new(key)]->0,
    )
}

/// The keys at the places `from..to` of a list.
pub open spec fn places<K>(keys: Seq<Arc<K>>, from: int, to: int) -> Set<K> {
    Set::new(
        |key: K|
            exists|i: int|
                0 <= i < keys.len() && from <= i < to && *#[trigger] keys[i] == key,
    )
}

/// The keys that have a slot.
pub open spec fn owners<K>(slots: Map<Arc<K>, Option<u64>>) -> Set<K> {
    Set::new(|key: K| slots.contains_key(Arc::new(key)))
}

/// Whether the list holds every key that has a slot, once, and no other.
pub open spec fn lists<K>(keys: Seq<Arc<K>>, slots: Map<Arc<K>, Option<u64>>) -> bool {
    &&& keys.no_duplicates()
    &&& places(keys, 0, keys.len() as int) == owners(slots)
}

/// How many places are left to look at after one step of a cleanup that had `left` of them, in a
/// list of this length.
pub open spec fn left_after(left: int, listed: int) -> int {
    let top = if left < listed {
        left
    } else {
        listed
    };
    if top > STEP {
        top - STEP
    } else {
        0
    }
}

impl<K, H> RateLimiter<K, H> {
    /// Whether the limiter keeps what it is told: a hash map over its keys behaves as a map, and
    /// its list holds the keys of the map, each of them once.
    pub closed spec fn is_sound(&self) -> bool {
        is_map::<K, H>() && lists(self.keys@, self.slots@)
    }

    /// The number of keys in the list.
    pub closed spec fn listed(&self) -> nat {
        self.keys@.len()
    }

    /// Whether a key has not moved up the list, if it is still held.
    pub open spec fn keeps_place(&self, next: &Self, key: K) -> bool {
        forall|n: int|
            self.keys_in(0, n).contains(key) && next@.held.contains(key)
                ==> #[trigger] next.keys_in(0, n).contains(key)
    }

    /// The keys at the places `from..to` of the list.
    pub closed spec fn keys_in(&self, from: int, to: int) -> Set<K> {
        places(self.keys@, from, to)
    }
}

/// The list of a sound limiter holds just the keys that the limiter holds, each of them once, and
/// every key that has an entry is among them.
pub proof fn list_is_what_is_held<K, H>(limiter: RateLimiter<K, H>)
    requires
        limiter.is_sound(),
    ensures
        limiter.keys_in(0, limiter.listed() as int) == limiter@.held,
        limiter@.held.finite(),
        limiter@.held.len() == limiter.listed(),
        limiter@.table.dom().subset_of(limiter@.held),
{
    list_is_as_long(limiter.keys@);
}

/// A key at the places below `left` is at one below `rest`, or at one from there on.
pub proof fn places_are_apart<K, H>(limiter: RateLimiter<K, H>, left: int, rest: int, key: K)
    ensures
        limiter.keys_in(0, left).contains(key) && rest <= left ==> limiter.keys_in(
            0,
            rest,
        ).contains(key) || limiter.keys_in(rest, left).contains(key),
        limiter.keys_in(0, limiter.listed() as int).contains(key) && left >= limiter.listed()
            ==> limiter.keys_in(0, left).contains(key),
        rest <= 0 ==> !limiter.keys_in(0, rest).contains(key),
        limiter.listed() <= usize::MAX,
{
    assert(limiter.keys.len() == limiter.keys@.len());
}

impl<K, H> View for RateLimiter<K, H> {
    type V = LimiterState<K>;

    closed spec fn view(&self) -> LimiterState<K> {
        LimiterState {
            table: times(self.slots@),
            held: owners(self.slots@),
            gc_interval: self.gc_interval,
            requests: self.requests,
        }
    }
}

/// `HashMap::with_hasher` of `std`: the new map is empty.
pub assume_specification<K, V, S>[ HashMap::<K, V, S>::with_hasher ](
    hash_builder: S,
) -> (map: HashMap<K, V, S>)
    ensures
        (map@ == Map::<K, V>::empty()),
;

/// `HashMap::get_mut` of `std`, for keys behind an `Arc`: a reference to the value of `key`,
/// through which nothing but that value can change, or `None` if the key is not in the map.
///
/// A key is looked up as what the `Arc` points to. That both hash alike is what `std` asks of all
/// that can be borrowed so, and it holds as long as the hasher is fed through `Hash` alone. On
/// nightly compilers `ahash` chooses how to hash by the type of the key as well. This is for stable
/// ones, where it does not.
#[verifier::external_body]
fn slot_mut<'a, K: Hash + Eq, H: BuildHasher>(
    slots: &'a mut HashMap<Arc<K>, Option<u64>, H>,
    key: &K,
) -> (slot: Option<&'a mut Option<u64>>)
    ensures
        (is_map::<K, H>()) ==> (slot is Some <==> old(slots)@.contains_key(Arc::new(*key))),
        (is_map::<K, H>()) ==> (slot matches Some(tat) ==> *tat == old(slots)@[Arc::new(*key)]
            && final(slots)@ == old(slots)@.insert(Arc::new(*key), *final(tat))),
        (is_map::<K, H>()) ==> (slot is None ==> final(slots)@ == old(slots)@),
{
    slots.get_mut(key)
}

/// `HashMap::insert` of `std`, for keys behind an `Arc`: the key has the value after that, every
/// other key has the value that it had, and the value that the key had before is returned.
///
/// `vstd` says this where it knows that the type of the keys is fit for a map, which it never
/// knows of an `Arc`.
#[verifier::external_body]
fn insert_slot<K: Hash + Eq, H: BuildHasher>(
    slots: &mut HashMap<Arc<K>, Option<u64>, H>,
    key: Arc<K>,
    slot: Option<u64>,
) -> (earlier: Option<Option<u64>>)
    ensures
        (is_map::<K, H>()) ==> final(slots)@ == old(slots)@.insert(key, slot),
        (is_map::<K, H>()) ==> earlier == old(slots)@.get(key),
{
    slots.insert(key, slot)
}

/// `HashMap::remove` of `std`, for keys behind an `Arc`: the key is not in the map after that,
/// every other key has the value that it had, and the value that the key had is returned.
///
/// What `vstd` says of it does not cover an `Arc`, as with [`insert_slot`], and what is looked up
/// is the same as with [`slot_mut`].
#[verifier::external_body]
fn remove_slot<K: Hash + Eq, H: BuildHasher>(
    slots: &mut HashMap<Arc<K>, Option<u64>, H>,
    key: &K,
) -> (removed: Option<Option<u64>>)
    ensures
        (is_map::<K, H>()) ==> final(slots)@ == old(slots)@.remove(Arc::new(*key)),
        (is_map::<K, H>()) ==> removed == old(slots)@.get(Arc::new(*key)),
{
    slots.remove(key)
}

/// When a key leaves the list, the last one takes its place: no other key is lost, and none moves
/// up.
proof fn leaves_list<K>(keys: Seq<Arc<K>>, i: int)
    requires
        0 <= i < keys.len(),
        keys.no_duplicates(),
    ensures
        ({
            let rest = keys.update(i, keys.last()).drop_last();
            &&& rest.no_duplicates()
            &&& places(rest, 0, rest.len() as int) == places(keys, 0, keys.len() as int).remove(
                *keys[i],
            )
            &&& forall|key: K, n: int|
                places(keys, 0, n).contains(key) && key != *keys[i] ==> #[trigger] places(
                    rest,
                    0,
                    n,
                ).contains(key)
        }),
{
    let rest = keys.update(i, keys.last()).drop_last();
    assert forall|key: K, n: int|
        places(keys, 0, n).contains(key) && key != *keys[i] implies #[trigger] places(
        rest,
        0,
        n,
    ).contains(key) by {
        let j = choose|j: int| 0 <= j < keys.len() && 0 <= j < n && *#[trigger] keys[j] == key;
        if j < rest.len() {
            assert(*rest[j] == key);
        } else {
            assert(*rest[i] == key);
        }
    }
    assert forall|key: K| places(rest, 0, rest.len() as int).contains(key) == places(
        keys,
        0,
        keys.len() as int,
    ).remove(*keys[i]).contains(key) by {
        if places(rest, 0, rest.len() as int).contains(key) {
            let j = choose|j: int| 0 <= j < rest.len() && *#[trigger] rest[j] == key;
            let k = if j == i {
                keys.len() - 1
            } else {
                j
            };
            assert(rest[j] == keys[k]);
            assert(keys[k] != keys[i]);
            assert(places(keys, 0, keys.len() as int).contains(*keys[k]));
        }
        if places(keys, 0, keys.len() as int).contains(key) && key != *keys[i] {
            assert(places(rest, 0, keys.len() as int).contains(key));
        }
    }
    assert(places(rest, 0, rest.len() as int) =~= places(keys, 0, keys.len() as int).remove(
        *keys[i],
    ));
}

/// A key that joins the list moves no other.
proof fn joins_list<K>(keys: Seq<Arc<K>>, more: Arc<K>)
    requires
        keys.no_duplicates(),
        !places(keys, 0, keys.len() as int).contains(*more),
    ensures
        keys.push(more).no_duplicates(),
        places(keys.push(more), 0, keys.push(more).len() as int) == places(
            keys,
            0,
            keys.len() as int,
        ).insert(*more),
        forall|key: K, n: int|
            places(keys, 0, n).contains(key) ==> #[trigger] places(keys.push(more), 0, n).contains(
                key,
            ),
{
    let longer = keys.push(more);
    assert forall|key: K, n: int| places(keys, 0, n).contains(key) implies #[trigger] places(
        longer,
        0,
        n,
    ).contains(key) by {
        let j = choose|j: int| 0 <= j < keys.len() && 0 <= j < n && *#[trigger] keys[j] == key;
        assert(*longer[j] == key);
    }
    assert forall|j: int| 0 <= j < keys.len() implies #[trigger] keys[j] != more by {
        if keys[j] == more {
            assert(places(keys, 0, keys.len() as int).contains(*keys[j]));
        }
    }
    assert forall|key: K| places(longer, 0, longer.len() as int).contains(key) == places(
        keys,
        0,
        keys.len() as int,
    ).insert(*more).contains(key) by {
        if places(longer, 0, longer.len() as int).contains(key) {
            let j = choose|j: int| 0 <= j < longer.len() && *#[trigger] longer[j] == key;
            if j < keys.len() {
                assert(*keys[j] == key);
            }
        }
        if places(keys, 0, keys.len() as int).contains(key) {
            assert(places(longer, 0, keys.len() as int).contains(key));
        }
        assert(*longer[keys.len() as int] == *more);
    }
    assert(places(longer, 0, longer.len() as int) =~= places(keys, 0, keys.len() as int).insert(
        *more,
    ));
}

/// A list without duplicates is as long as the set of its keys is large.
proof fn list_is_as_long<K>(keys: Seq<Arc<K>>)
    requires
        keys.no_duplicates(),
    ensures
        places(keys, 0, keys.len() as int).finite(),
        places(keys, 0, keys.len() as int).len() == keys.len(),
    decreases keys.len(),
{
    if keys.len() == 0 {
        assert(places(keys, 0, 0) =~= Set::empty());
    } else {
        let rest = keys.drop_last();
        list_is_as_long(rest);
        assert(rest.push(keys.last()) =~= keys);
        assert(!places(rest, 0, rest.len() as int).contains(*keys.last()));
        joins_list(rest, keys.last());
    }
}

/// Two uses in a row that keep the places of the keys keep them together, but for a key that the
/// first removes and the second brings back.
proof fn places_stay_kept<K, H>(
    first: &RateLimiter<K, H>,
    second: &RateLimiter<K, H>,
    third: &RateLimiter<K, H>,
)
    requires
        forall|key: K| #[trigger] first.keeps_place(second, key),
        forall|key: K| #[trigger] second.keeps_place(third, key),
    ensures
        forall|key: K|
            (third@.held.contains(key) ==> second@.held.contains(key))
                ==> #[trigger] first.keeps_place(third, key),
{
    assert forall|key: K|
        (third@.held.contains(key) ==> second@.held.contains(
            key,
        )) implies #[trigger] first.keeps_place(third, key) by {
        assert(first.keeps_place(second, key));
        assert(second.keeps_place(third, key));
        assert forall|n: int|
            first.keys_in(0, n).contains(key) && third@.held.contains(
                key,
            ) implies #[trigger] third.keys_in(0, n).contains(key) by {
            assert(second.keys_in(0, n).contains(key));
        }
    }
}

/// Lists that begin alike have the same keys there.
proof fn same_places<K>(a: Seq<Arc<K>>, b: Seq<Arc<K>>, n: int, from: int, to: int)
    requires
        0 <= n <= a.len(),
        n <= b.len(),
        a.take(n) == b.take(n),
        to <= n,
    ensures
        places(a, from, to) == places(b, from, to),
{
    assert forall|i: int| 0 <= i < n implies a[i] == b[i] by {
        assert(a[i] == a.take(n)[i]);
        assert(b[i] == b.take(n)[i]);
    }
    assert forall|key: K|
        places(a, from, to).contains(key) == places(b, from, to).contains(key) by {
        if places(a, from, to).contains(key) {
            let i = choose|i: int|
                0 <= i < a.len() && from <= i < to && *#[trigger] a[i] == key;
            assert(*b[i] == key);
        }
        if places(b, from, to).contains(key) {
            let i = choose|i: int|
                0 <= i < b.len() && from <= i < to && *#[trigger] b[i] == key;
            assert(*a[i] == key);
        }
    }
    assert(places(a, from, to) =~= places(b, from, to));
}

/// Two cleanups at one time are one of the keys of both.
proof fn cleanups_add_up<K>(
    state: LimiterState<K>,
    before: u64,
    keys: Seq<Arc<K>>,
    from: int,
    mid: int,
    to: int,
)
    requires
        from <= mid <= to,
    ensures
        state.cleaned_among(before, places(keys, mid, to)).cleaned_among(
            before,
            places(keys, from, mid),
        ) == state.cleaned_among(before, places(keys, from, to)),
{
    assert(places(keys, from, to) =~= places(keys, from, mid).union(places(keys, mid, to)));
    assert(state.cleaned_among(before, places(keys, mid, to)).cleaned_among(
        before,
        places(keys, from, mid),
    ).table =~= state.cleaned_among(before, places(keys, from, to)).table);
    assert(state.cleaned_among(before, places(keys, mid, to)).cleaned_among(
        before,
        places(keys, from, mid),
    ).held =~= state.cleaned_among(before, places(keys, from, to)).held);
}

impl<K: Hash + Eq, H: BuildHasher> RateLimiter<K, H> {
    /// An empty limiter that cleans its table on every `gc_interval`-th request, or never if
    /// that is `u64::MAX`.
    pub fn new(gc_interval: u64, hasher: H) -> (limiter: Self)
        ensures
            limiter@ == LimiterState::<K>::fresh(gc_interval),
            is_map::<K, H>() ==> limiter.is_sound(),
    {
        let limiter = RateLimiter {
            slots: HashMap::with_hasher(hasher),
            keys: Vec::new(),
            gc_interval,
            requests: 0,
        };
        assert(limiter@.table =~= Map::empty());
        assert(limiter@.held =~= Set::empty());
        assert(places(limiter.keys@, 0, 0) =~= Set::empty());
        limiter
    }

    /// Decides a request of `key` at `now`, and shows the key to `peek`.
    pub fn req_peek_key<F, X>(&mut self, key: K, quota: Quota, now: u64, peek: F) -> (res: (
        X,
        Result<(), RateLimitError>,
    )) where F: FnOnce(&K) -> X
        requires
            call_requires(peek, (&key,)),
        ensures
            call_ensures(peek, (&key,), res.0),
            old(self).is_sound() ==> (final(self)@, res.1) == old(self)@.requested(key, quota, now),
            old(self).is_sound() ==> final(self).is_sound(),
            old(self).is_sound() && old(self)@.gc_due() ==> final(self)@.held.remove(key)
                == final(self)@.table.dom().remove(key),
            old(self).is_sound() ==> forall|other: K|
                other != key ==> #[trigger] old(self).keeps_place(final(self), other),
            final(self)@.gc_interval == old(self)@.gc_interval,
    {
        self.count_request(now);
        let seen = peek(&key);
        let ghost id = Arc::new(key);
        let ghost counted = *self;
        match slot_mut(&mut self.slots, &key) {
            Some(slot) => match decide(*slot, quota, now) {
                Ok(next) => {
                    *slot = Some(next);
                    assert(is_map::<K, H>() ==> times(self.slots@) =~= times(counted.slots@).insert(
                        *id,
                        next,
                    ));
                    assert(is_map::<K, H>() ==> owners(self.slots@) =~= owners(counted.slots@));
                    proof {
                        if old(self).is_sound() {
                            assert(owners(counted.slots@).contains(*id));
                            assert(owners(counted.slots@) =~= owners(counted.slots@).insert(*id));
                            places_stay_kept(old(self), &counted, self);
                        }
                    }
                    (seen, Ok(()))
                },
                Err(refusal) => {
                    assert(is_map::<K, H>() ==> self.slots@ =~= counted.slots@);
                    proof {
                        if old(self).is_sound() {
                            places_stay_kept(old(self), &counted, self);
                        }
                    }
                    (seen, Err(refusal))
                },
            },
            None => match decide(None, quota, now) {
                Ok(next) => {
                    let key = Arc::new(key);
                    self.keys.push(key.clone());
                    insert_slot(&mut self.slots, key, Some(next));
                    proof {
                        if old(self).is_sound() {
                            assert(times(self.slots@) =~= times(counted.slots@).insert(*id, next));
                            assert(owners(self.slots@) =~= owners(counted.slots@).insert(*id));
                            joins_list(counted.keys@, id);
                            assert forall|other: K| #[trigger] counted.keeps_place(
                                self,
                                other,
                            ) by {
                                assert forall|n: int|
                                    counted.keys_in(0, n).contains(
                                        other,
                                    ) implies #[trigger] self.keys_in(0, n).contains(other) by {
                                    assert(places(counted.keys@.push(id), 0, n).contains(other));
                                }
                            }
                            places_stay_kept(old(self), &counted, self);
                        }
                    }
                    (seen, Ok(()))
                },
                Err(refusal) => (seen, Err(refusal)),
            },
        }
    }

    /// Counts a request at `now`, and cleans the table if it is the one that has to.
    fn count_request(&mut self, now: u64)
        ensures
            old(self).is_sound() ==> final(self)@ == old(self)@.counted(now),
            old(self).is_sound() && old(self)@.gc_due() ==> final(self)@.held
                == final(self)@.table.dom(),
            old(self).is_sound() ==> final(self).is_sound(),
            old(self).is_sound() ==> forall|key: K| #[trigger]
                old(self).keeps_place(final(self), key),
            final(self)@.gc_interval == old(self)@.gc_interval,
    {
        if self.gc_interval != u64::MAX {
            if self.requests.saturating_add(1) >= self.gc_interval {
                self.clean(now);
                let ghost cleaned = *self;
                self.requests = 0;
                proof {
                    if old(self).is_sound() {
                        places_stay_kept(old(self), &cleaned, self);
                    }
                }
            } else {
                self.requests = self.requests + 1;
            }
        }
    }

    /// Makes `key` wait for `penalty` nanoseconds longer. Returns whether it had an entry;
    /// without one there is nothing to add the penalty to.
    pub fn penalize(&mut self, key: &K, penalty: u64) -> (found: bool)
        ensures
            old(self).is_sound() ==> found == old(self)@.table.contains_key(*key),
            old(self).is_sound() ==> final(self)@ == old(self)@.penalized(*key, penalty),
            old(self).is_sound() ==> final(self).is_sound(),
            old(self).is_sound() ==> forall|other: K| #[trigger]
                old(self).keeps_place(final(self), other),
            final(self)@.gc_interval == old(self)@.gc_interval,
    {
        let found = match slot_mut(&mut self.slots, key) {
            Some(slot) => match *slot {
                Some(tat) => {
                    *slot = Some(tat.saturating_add(penalty));
                    true
                },
                None => false,
            },
            None => false,
        };
        assert(is_map::<K, H>() ==> owners(self.slots@) =~= owners(old(self).slots@));
        found
    }

    /// Forgets `key`, so that its next request is its first. Returns whether it had an entry.
    pub fn reset(&mut self, key: &K) -> (found: bool)
        ensures
            old(self).is_sound() ==> found == old(self)@.table.contains_key(*key),
            old(self).is_sound() ==> final(self)@ == old(self)@.forgotten(*key),
            old(self).is_sound() ==> final(self).is_sound(),
            old(self).is_sound() ==> forall|other: K| #[trigger]
                old(self).keeps_place(final(self), other),
            final(self)@.gc_interval == old(self)@.gc_interval,
    {
        let found = match slot_mut(&mut self.slots, key) {
            Some(slot) => {
                let found = slot.is_some();
                *slot = None;
                found
            },
            None => false,
        };
        assert(is_map::<K, H>() ==> owners(self.slots@) =~= owners(old(self).slots@));
        found
    }

    /// The number of keys that the limiter holds, which is how many a cleanup has to look at.
    pub fn len(&self) -> (len: usize)
        ensures
            len == self.listed(),
            self.is_sound() ==> self@.held.finite() && len == self@.held.len(),
            self.is_sound() ==> self.keys_in(0, len as int) == self@.held,
    {
        proof {
            if self.is_sound() {
                list_is_what_is_held(*self);
            }
        }
        self.keys.len()
    }

    /// Looks at the key at a place of the list, and removes it if its entry is over at `before`.
    fn look_at(&mut self, place: usize, before: u64)
        requires
            place < old(self).listed(),
        ensures
            old(self).is_sound() ==> final(self)@ == old(self)@.cleaned_among(
                before,
                old(self).keys_in(place as int, place + 1),
            ),
            old(self).is_sound() ==> final(self).is_sound(),
            old(self).is_sound() ==> forall|key: K| #[trigger]
                old(self).keeps_place(final(self), key),
            final(self).keys@.take(place as int) == old(self).keys@.take(place as int),
            final(self)@.gc_interval == old(self)@.gc_interval,
            final(self)@.requests == old(self)@.requests,
            final(self).listed() >= place,
    {
        let key = self.keys[place].clone();
        let is_over = match slot_mut(&mut self.slots, &*key) {
            Some(slot) => match *slot {
                Some(tat) => tat <= before,
                None => true,
            },
            None => true,
        };
        assert(is_map::<K, H>() ==> self.slots@ =~= old(self).slots@);
        if is_over {
            remove_slot(&mut self.slots, &*key);
            self.keys.swap_remove(place);
            proof {
                if old(self).is_sound() {
                    leaves_list(old(self).keys@, place as int);
                    assert(owners(self.slots@) =~= owners(old(self).slots@).remove(*key));
                    assert forall|other: K| #[trigger] old(self).keeps_place(self, other) by {
                        assert forall|n: int|
                            old(self).keys_in(0, n).contains(other) && self@.held.contains(
                                other,
                            ) implies #[trigger] self.keys_in(0, n).contains(other) by {
                            assert(other != *key);
                            assert(places(self.keys@, 0, n).contains(other));
                        }
                    }
                }
            }
        }
        proof {
            let here = places(old(self).keys@, place as int, place + 1);
            assert(*old(self).keys@[place as int] == *key);
            assert(here =~= Set::empty().insert(*key));
            if old(self).is_sound() {
                assert(self@.table =~= old(self)@.cleaned_among(before, here).table);
                assert(old(self)@.held.contains(*key)) by {
                    assert(places(
                        old(self).keys@,
                        0,
                        old(self).keys@.len() as int,
                    ).contains(*old(self).keys@[place as int]));
                }
                assert(self@.held =~= old(self)@.cleaned_among(before, here).held);
            }
        }
    }

    /// One step of a cleanup: looks at the last keys before the place `left`, no more than
    /// [`STEP`], and removes those whose entries are over at `before`. Returns how many places
    /// are left to look at. The keys there stay where they are.
    pub fn sweep(&mut self, before: u64, left: usize) -> (rest: usize)
        ensures
            rest == left_after(left as int, old(self).listed() as int),
            left > 0 ==> rest < left,
            left - rest <= STEP || old(self).listed() - rest <= STEP,
            old(self).is_sound() ==> final(self)@ == old(self)@.cleaned_among(
                before,
                old(self).keys_in(rest as int, left as int),
            ),
            old(self).is_sound() ==> final(self).is_sound(),
            old(self).is_sound() ==> forall|key: K| #[trigger]
                old(self).keeps_place(final(self), key),
            forall|from: int, to: int|
                to <= rest ==> #[trigger] final(self).keys_in(from, to) == old(self).keys_in(
                    from,
                    to,
                ),
            final(self)@.gc_interval == old(self)@.gc_interval,
            final(self)@.requests == old(self)@.requests,
            final(self).listed() >= rest,
    {
        let top: usize = if left < self.keys.len() {
            left
        } else {
            self.keys.len()
        };
        let rest: usize = top.saturating_sub(STEP);
        let mut place: usize = top;
        while place > rest
            invariant
                rest <= place <= top <= old(self).listed(),
                place <= self.listed(),
                self.keys@.take(place as int) == old(self).keys@.take(place as int),
                old(self).is_sound() ==> self.is_sound(),
                old(self).is_sound() ==> forall|key: K| #[trigger]
                    old(self).keeps_place(self, key),
                old(self).is_sound() ==> self@ == old(self)@.cleaned_among(
                    before,
                    old(self).keys_in(place as int, top as int),
                ),
                self@.gc_interval == old(self)@.gc_interval,
                self@.requests == old(self)@.requests,
            decreases place,
        {
            let ghost earlier = *self;
            place = place - 1;
            self.look_at(place, before);
            proof {
                let here = place as int;
                same_places(earlier.keys@, old(self).keys@, here + 1, here, here + 1);
                cleanups_add_up(old(self)@, before, old(self).keys@, here, here + 1, top as int);
                assert(self.keys@.take(here) =~= earlier.keys@.take(here + 1).take(here));
                assert(self.keys@.take(here) =~= old(self).keys@.take(here + 1).take(here));
                assert(old(self).keys@.take(here + 1).take(here) =~= old(self).keys@.take(here));
                if old(self).is_sound() {
                    places_stay_kept(old(self), &earlier, self);
                }
            }
        }
        proof {
            assert(old(self).keys_in(rest as int, left as int) =~= old(self).keys_in(
                rest as int,
                top as int,
            ));
            assert forall|from: int, to: int| to <= rest implies #[trigger] self.keys_in(from, to)
                == old(self).keys_in(from, to) by {
                same_places(self.keys@, old(self).keys@, rest as int, from, to);
            }
        }
        rest
    }

    /// Removes every entry that is over at `before`. Nothing is held after that but the keys that
    /// have an entry.
    pub fn clean(&mut self, before: u64)
        ensures
            old(self).is_sound() ==> final(self)@ == old(self)@.cleaned(before),
            old(self).is_sound() ==> final(self)@.held == final(self)@.table.dom(),
            old(self).is_sound() ==> final(self).keys_in(0, final(self).listed() as int)
                == final(self)@.table.dom(),
            old(self).is_sound() ==> final(self).is_sound(),
            old(self).is_sound() ==> forall|key: K| #[trigger]
                old(self).keeps_place(final(self), key),
            final(self)@.gc_interval == old(self)@.gc_interval,
            final(self)@.requests == old(self)@.requests,
    {
        let mut left: usize = self.len();
        let ghost all = left as int;
        while left > 0
            invariant
                left <= all,
                all == old(self).listed(),
                forall|from: int, to: int|
                    to <= left ==> #[trigger] self.keys_in(from, to) == old(self).keys_in(from, to),
                old(self).is_sound() ==> self.is_sound(),
                old(self).is_sound() ==> forall|key: K| #[trigger]
                    old(self).keeps_place(self, key),
                old(self).is_sound() ==> self@ == old(self)@.cleaned_among(
                    before,
                    old(self).keys_in(left as int, all),
                ),
                self@.gc_interval == old(self)@.gc_interval,
                self@.requests == old(self)@.requests,
            decreases left,
        {
            let ghost earlier = *self;
            left = self.sweep(before, left);
            proof {
                if old(self).is_sound() {
                    places_stay_kept(old(self), &earlier, self);
                }
            }
        }
    }
}

/// Whether a limiter goes from `now` to `next` by one step of a cleanup at `before`, which had
/// `left` places to look at and has `rest` of them after that: see [`RateLimiter::sweep`].
pub open spec fn is_swept<K, H>(
    now: RateLimiter<K, H>,
    next: RateLimiter<K, H>,
    before: u64,
    left: int,
    rest: int,
) -> bool {
    &&& rest <= left
    &&& next@ == now@.cleaned_among(before, now.keys_in(rest, left))
    &&& next.keys_in(0, rest) == now.keys_in(0, rest)
}

/// Whether a limiter goes from `now` to `next` by a use that does not move `key` up the list, nor
/// brings it there.
pub open spec fn passes_by<K, H>(
    now: RateLimiter<K, H>,
    next: RateLimiter<K, H>,
    key: K,
) -> bool {
    &&& now.keeps_place(&next, key)
    &&& next@.held.contains(key) ==> now@.held.contains(key)
}

/// Whether a limiter goes through these states while a cleanup at `before` has these places left:
/// each is followed by a step of the cleanup, or by a use that passes `key` by.
pub open spec fn is_cleanup<K, H>(
    states: Seq<RateLimiter<K, H>>,
    left: Seq<int>,
    before: u64,
    key: K,
) -> bool {
    &&& states.len() == left.len() > 0
    &&& left.first() >= states.first().listed()
    &&& forall|i: int|
        #![trigger states[i]]
        0 <= i < states.len() - 1 ==> is_swept(
            states[i],
            states[i + 1],
            before,
            left[i],
            left[i + 1],
        ) || (left[i + 1] == left[i] && passes_by(states[i], states[i + 1], key))
}

/// A cleanup in steps misses nothing: whatever else the limiter is used for between the steps, a
/// key that all the while has no entry, or one that is over, is not held any more when no place is
/// left to look at.
pub proof fn steps_miss_nothing<K, H>(
    states: Seq<RateLimiter<K, H>>,
    left: Seq<int>,
    before: u64,
    key: K,
)
    requires
        is_cleanup(states, left, before, key),
        left.last() <= 0,
        states.first().is_sound(),
        forall|i: int|
            #![trigger states[i]]
            0 <= i < states.len() && states[i]@.table.contains_key(key)
                ==> states[i]@.table[key] <= before,
    ensures
        !states.last()@.held.contains(key),
{
    what_is_over_is_left(states, left, before, key, states.len() - 1);
}

proof fn what_is_over_is_left<K, H>(
    states: Seq<RateLimiter<K, H>>,
    left: Seq<int>,
    before: u64,
    key: K,
    i: int,
)
    requires
        is_cleanup(states, left, before, key),
        states.first().is_sound(),
        forall|i: int|
            #![trigger states[i]]
            0 <= i < states.len() && states[i]@.table.contains_key(key)
                ==> states[i]@.table[key] <= before,
        0 <= i < states.len(),
    ensures
        states[i]@.held.contains(key) ==> states[i].keys_in(0, left[i]).contains(key),
    decreases i,
{
    if i > 0 {
        what_is_over_is_left(states, left, before, key, i - 1);
        let now = states[i - 1];
        assert(now.keys_in(0, left[i - 1]).subset_of(
            now.keys_in(0, left[i]).union(now.keys_in(left[i], left[i - 1])),
        ));
    } else {
        let first = states.first();
        assert(first.slots@.contains_key(Arc::new(key)) ==> places(
            first.keys@,
            0,
            first.keys@.len() as int,
        ).contains(key));
    }
}

} // verus!
