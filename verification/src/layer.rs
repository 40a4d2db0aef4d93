//! The rate limiter layer, its builder and its service.

use crate::extensions;
use crate::gc::GCInterval;
use crate::gcra::{fresh_is_reachable, is_map, step, use_is_reachable};
use crate::gcra::{left_after, list_is_what_is_held, passes_by, places_are_apart, run};
use crate::gcra::{LimiterState, Op, Quota, RateLimitError, RateLimiter};
use crate::key::{Key, State};
use crate::rate_laws::{gc_runs_on_every_nth_request, requests_in};
use crate::response::{Error, Poll, RateLimitedResponse};
use crate::wait_laws::{cleanup_ends_no_wait, wait};
use std::hash::BuildHasher;
use std::marker::PhantomData;
use std::sync::Arc;
use std::time::Duration;
use vstd::prelude::*;
use vstd::rwlock::{RwLock, RwLockPredicate, WriteHandle};
use vstd::std_specs::hash::builds_valid_hashers;

verus! {

/// `RandomState` of `ahash`, a source of hashers. Nothing is claimed of the hashes themselves.
#[verifier::external_type_specification]
#[verifier::external_body]
pub struct ExRandomState(ahash::RandomState);

/// Whether every source of hashers of this type, the given one among them, builds hashers that
/// agree: two hashers of one source that are fed alike come to the same hash.
pub open spec fn type_hashes_alike<H>(hasher: H) -> bool {
    builds_valid_hashers::<H>()
}

/// `RandomState::default` of `ahash`: the keys of a source are chosen when it is made, and every
/// hasher that it builds starts from these keys, so that hashers which are fed alike come to the
/// same hash. Nothing is claimed of which keys are chosen.
pub assume_specification[ <ahash::RandomState as Default>::default ]() -> (hasher:
    ahash::RandomState)
    ensures
        type_hashes_alike(hasher),
;

/// Copies the key of a request for the request's extensions.
///
/// Only keys that can be cloned have it, and the builder that asks for extensions brings it, so
/// that all others do without.
trait SetExtension<K>: Send + Sync + 'static {
    /// Whether `to` is a copy of `from`.
    spec fn copies(&self, from: K, to: K) -> bool;

    fn set_extension(&self, key: &K) -> (copy: K)
        ensures
            self.copies(*key, copy),
    ;
}

struct DoSetExtension;

impl<K: Clone> SetExtension<K> for DoSetExtension {
    closed spec fn copies(&self, from: K, to: K) -> bool {
        cloned(from, to)
    }

    fn set_extension(&self, key: &K) -> (copy: K) {
        key.clone()
    }
}

/// Builder for the rate limiter layer.
///
/// This struct is used to configure the rate limiter before building it.
#[verifier::reject_recursive_types(K)]
pub struct RateLimitLayerBuilder<K = (), S = (), H = ahash::RandomState> {
    default_quota: Quota,
    set_ext: Option<Box<dyn SetExtension<K>>>,
    gc_interval: GCInterval,
    state: S,
    hasher: PhantomData<H>,
}

impl<K, S, H> RateLimitLayerBuilder<K, S, H> {
    /// The quota of a key that has none of its own.
    pub closed spec fn default_quota(&self) -> Quota {
        self.default_quota
    }

    /// When the table is cleaned.
    pub closed spec fn gc_interval(&self) -> GCInterval {
        self.gc_interval
    }

    /// The application's state.
    pub closed spec fn state(&self) -> S {
        self.state
    }

    /// Whether the extension is inserted into requests.
    pub closed spec fn extends(&self) -> bool {
        self.set_ext is Some
    }

    /// Whether the extension may carry the key `to` for a request of the key `from`.
    pub closed spec fn copies(&self, from: K, to: K) -> bool {
        self.set_ext matches Some(set_ext) && set_ext.copies(from, to)
    }
}

impl<K: Key<S>, S: State, H: BuildHasher> RateLimitLayerBuilder<K, S, H> {
    /// The default configuration: the default quota, the default interval for garbage
    /// collection, and no extension.
    #[must_use]
    pub fn new(state: S) -> (builder: Self)
        ensures
            builder.state() == state,
            builder.default_quota() == (Quota { interval: 1_000_000_000, tolerance: 0 }),
            builder.gc_interval() == GCInterval::Requests(8192),
            !builder.extends(),
    {
        RateLimitLayerBuilder {
            state,
            default_quota: Quota::default(),
            set_ext: None,
            gc_interval: GCInterval::default(),
            hasher: PhantomData,
        }
    }

    /// Fallback quota for rate limiting if no specific quota is found for the key.
    #[must_use]
    pub fn with_default_quota(self, default_quota: Quota) -> (builder: Self)
        ensures
            builder.default_quota() == default_quota,
            builder.gc_interval() == self.gc_interval(),
            builder.state() == self.state(),
            builder.extends() == self.extends(),
            forall|from: K, to: K| builder.copies(from, to) == self.copies(from, to),
    {
        RateLimitLayerBuilder { default_quota, ..self }
    }

    /// Set the interval for which garbage collection for the rate limiter will occur. Garbage
    /// collection in this case is defined as removing old expired requests from the rate limiter
    /// table to avoid it growing indefinitely.
    ///
    /// The default is 8192 requests.
    ///
    /// This can also be a time [`Duration`], at which a background task cleans the rate limiter.
    /// No request runs a cleanup then, and none waits for one to end: see
    /// [`timed_gc_runs_in_no_request`] and [`RateLimitLayer::clean_sync`].
    #[must_use]
    pub fn with_gc_interval<G: Into<GCInterval>>(self, gc_interval: G) -> (builder: Self)
        ensures
            call_ensures(G::into, (gc_interval,), builder.gc_interval()),
            builder.default_quota() == self.default_quota(),
            builder.state() == self.state(),
            builder.extends() == self.extends(),
            forall|from: K, to: K| builder.copies(from, to) == self.copies(from, to),
    {
        RateLimitLayerBuilder { gc_interval: gc_interval.into(), ..self }
    }

    /// Set whether to insert the [`RateLimiter`](extensions::RateLimiter) extension into the
    /// request to allow for manual rate limiting control downstream.
    #[must_use]
    pub fn with_extension(self, extend: bool) -> (builder: Self) where K: Clone
        ensures
            builder.extends() == extend,
            forall|from: K, to: K| builder.copies(from, to) ==> cloned(from, to),
            builder.default_quota() == self.default_quota(),
            builder.gc_interval() == self.gc_interval(),
            builder.state() == self.state(),
    {
        let set_ext: Option<Box<dyn SetExtension<K>>> = match extend {
            true => Some(Box::new(DoSetExtension)),
            false => None,
        };
        RateLimitLayerBuilder { set_ext, ..self }
    }
}

impl<K: Key<S>, S: State, H: BuildHasher> RateLimitLayerBuilder<K, S, H> {
    /// Whether `quota` is the one that a request of `key` is held to: the key's own, or the
    /// default quota if the key has none.
    pub open spec fn grants(&self, key: K, quota: Quota) -> bool {
        exists|own: Option<Quota>| #[trigger]
            call_ensures(K::quota, (&key, &self.state()), own) && quota == self.fallback(own)
    }

    /// The quota of a key whose own quota this is.
    pub open spec fn fallback(&self, own: Option<Quota>) -> Quota {
        match own {
            Some(quota) => quota,
            None => self.default_quota(),
        }
    }

    /// The quota of a key whose own quota this is: the default quota stands in for none.
    pub fn quota_or_default(&self, own: Option<Quota>) -> (quota: Quota)
        ensures
            quota == self.fallback(own),
            own is None ==> quota == self.default_quota(),
            own matches Some(q) ==> quota == q,
    {
        own.unwrap_or(self.default_quota)
    }

    /// The key for the extension of a request, if requests get one.
    fn set_extension(&self, key: &K) -> (copy: Option<K>)
        ensures
            copy is Some <==> self.extends(),
            copy matches Some(copy) ==> self.copies(*key, copy),
    {
        match &self.set_ext {
            Some(set_ext) => Some(set_ext.set_extension(key)),
            None => None,
        }
    }

    /// The limiter of the layer: empty, and cleaned by requests at the interval that was set.
    pub fn limiter(&self) -> (limiter: RateLimiter<K, H>) where H: Default
        ensures
            limiter@ == LimiterState::<K>::fresh(self.gc_interval().requests()),
            is_map::<K, H>() ==> limiter.is_sound(),
            exists|hasher: H| call_ensures(H::default, (), hasher),
    {
        let hasher = H::default();
        assert(call_ensures(H::default, (), hasher));
        RateLimiter::new(self.gc_interval.to_requests(), hasher)
    }

    /// Build the [`RateLimitLayer`].
    ///
    /// This will create a new rate limiter. If the GC interval is a time [`Duration`], the layer
    /// has a [period](RateLimitLayer::gc_period) at which a background task has to clean it.
    #[must_use]
    pub fn build(self) -> (layer: RateLimitLayer<K, S, H>) where H: Default
        ensures
            layer.config() == self,
            exists|hasher: H| call_ensures(H::default, (), hasher),
            exists|limiter: RateLimiter<K, H>| #[trigger]
                layer.began_with(limiter) && limiter@ == LimiterState::<K>::fresh(
                    self.gc_interval().requests(),
                ),
    {
        let limiter = self.limiter();
        let ghost history = History { gc_interval: self.gc_interval.requests() };
        proof {
            fresh_is_reachable::<K>(limiter@.gc_interval);
        }
        let ghost first = limiter;
        let lock = RwLock::new(limiter, Ghost(history));
        let ghost made = lock;
        assert(call_ensures(
            RwLock::<RateLimiter<K, H>, History>::new,
            (first, Ghost(history)),
            lock,
        ));
        let layer = RateLimitLayer { limiter: Arc::new(lock), builder: Arc::new(self) };
        assert(layer.shared() == made);
        assert(layer.began_with(first));
        layer
    }
}

impl<K: Key<S> + Default, S: State + Default> Default for RateLimitLayerBuilder<K, S> {
    fn default() -> (builder: Self)
        ensures
            call_ensures(S::default, (), builder.state()),
            builder.default_quota() == (Quota { interval: 1_000_000_000, tolerance: 0 }),
            builder.gc_interval() == GCInterval::Requests(8192),
            !builder.extends(),
    {
        RateLimitLayerBuilder::new(S::default())
    }
}

/// That the limiter behind the lock keeps the interval it was built with, and that nothing but
/// its uses ever changed it.
pub struct History {
    pub gc_interval: u64,
}

impl<K, H> RwLockPredicate<RateLimiter<K, H>> for History {
    open spec fn inv(self, limiter: RateLimiter<K, H>) -> bool {
        &&& limiter@.gc_interval == self.gc_interval
        &&& is_map::<K, H>() ==> limiter.is_sound() && limiter@.reachable()
    }
}

/// A request as the limiter sees it.
pub struct Asked<K> {
    /// The key of the request.
    pub key: K,
    /// The quota that the request is held to.
    pub quota: Quota,
    /// The time at which the request came.
    pub now: u64,
    /// The key for the extension of the request, if it gets one.
    pub copy: Option<K>,
}

/// Rate limiter layer.
///
/// This struct is not meant to be used directly, but rather through the
/// [`RateLimitLayerBuilder`].
///
/// Note: The limiter is shared across all clones of the layer and service, behind a lock. While it
/// is locked nothing but `Hash`, `Eq` and `Drop` of the keys, and the hasher, is called from
/// outside. These must not panic, as that would leave the limiter locked.
#[verifier::reject_recursive_types(K)]
#[verifier::reject_recursive_types(H)]
pub struct RateLimitLayer<K = (), S = (), H = ahash::RandomState> {
    builder: Arc<RateLimitLayerBuilder<K, S, H>>,
    limiter: Arc<RwLock<RateLimiter<K, H>, History>>,
}

impl<K, S, H> RateLimitLayer<K, S, H> {
    #[verifier::type_invariant]
    spec fn is_configured(self) -> bool {
        self.limiter.pred().gc_interval == self.builder.gc_interval.requests()
    }

    /// What the layer was built from.
    pub closed spec fn config(&self) -> RateLimitLayerBuilder<K, S, H> {
        *self.builder
    }

    /// The lock that holds the limiter. Layers with the same lock share their limiter.
    pub closed spec fn shared(&self) -> RwLock<RateLimiter<K, H>, History> {
        *self.limiter
    }

    /// Whether this is the limiter that the lock was made with.
    pub open spec fn began_with(&self, limiter: RateLimiter<K, H>) -> bool {
        exists|history: History| #[trigger]
            call_ensures(
                RwLock::<RateLimiter<K, H>, History>::new,
                (limiter, Ghost(history)),
                self.shared(),
            )
    }

    /// Whether the shared limiter was taken out of its lock as `taken`, and put back as `given`.
    ///
    /// That a call of the lock returned can only be known by making it, and the handle that the
    /// lock hands out ties the two calls together.
    pub open spec fn is_turn(&self, taken: RateLimiter<K, H>, given: RateLimiter<K, H>) -> bool {
        exists|handle: WriteHandle<'_, RateLimiter<K, H>, History>|
            {
                &&& #[trigger] call_ensures(
                    RwLock::<RateLimiter<K, H>, History>::acquire_write,
                    (&self.shared(),),
                    (taken, handle),
                )
                &&& #[trigger] call_ensures(
                    WriteHandle::<RateLimiter<K, H>, History>::release_write,
                    (handle, given),
                    (),
                )
            }
    }

    /// Whether the shared limiter was taken and put back so with this handle.
    spec fn takes_turn(
        &self,
        handle: WriteHandle<'_, RateLimiter<K, H>, History>,
        taken: RateLimiter<K, H>,
        given: RateLimiter<K, H>,
    ) -> bool {
        &&& call_ensures(
            RwLock::<RateLimiter<K, H>, History>::acquire_write,
            (&self.shared(),),
            (taken, handle),
        )
        &&& call_ensures(
            WriteHandle::<RateLimiter<K, H>, History>::release_write,
            (handle, given),
            (),
        )
    }

    /// Whether a cleanup of the shared limiter at `before` took these turns and had these places
    /// left, first and after each of them.
    pub open spec fn is_cleanup(
        &self,
        before: u64,
        turns: Seq<(RateLimiter<K, H>, RateLimiter<K, H>)>,
        left: Seq<usize>,
    ) -> bool {
        &&& left.len() == turns.len() + 1
        &&& left.first() == usize::MAX
        &&& left.last() == 0
        &&& forall|i: int|
            #![trigger turns[i]]
            0 <= i < turns.len() ==> self.is_cleanup_turn(
                before,
                turns[i].0,
                turns[i].1,
                left[i],
                left[i + 1],
            )
    }

    /// Whether one turn of the shared limiter was a step of a cleanup at `before`, with `left`
    /// places to look at before it and `rest` after.
    pub open spec fn is_cleanup_turn(
        &self,
        before: u64,
        taken: RateLimiter<K, H>,
        given: RateLimiter<K, H>,
        left: usize,
        rest: usize,
    ) -> bool {
        &&& self.is_turn(taken, given)
        &&& rest == left_after(left as int, taken.listed() as int)
        &&& self.is_map() ==> {
            let among = taken.keys_in(rest as int, left as int);
            &&& taken.is_sound()
            &&& self.may_hold(taken@)
            &&& given@ == step(taken@, Op::Clean { before, among })
            &&& given.keys_in(0, rest as int) == taken.keys_in(0, rest as int)
        }
    }

    /// Whether the shared limiter can be in this state: some run of uses leads there from the
    /// limiter that the layer was built with.
    pub open spec fn may_hold(&self, state: LimiterState<K>) -> bool {
        state.gc_interval == self.config().gc_interval().requests() && state.reachable()
    }

    /// Whether the table of the limiter behaves as a map: see [`is_map`].
    pub open spec fn is_map(&self) -> bool {
        is_map::<K, H>()
    }
}

/// With a timed interval no request ever cleans the shared limiter itself: in no state that the
/// limiter can be in does counting a request change it.
pub proof fn timed_gc_runs_in_no_request<K, S, H>(
    layer: RateLimitLayer<K, S, H>,
    state: LimiterState<K>,
    now: u64,
)
    requires
        layer.config().gc_interval() is Time,
        layer.may_hold(state),
    ensures
        !state.gc_due(),
        state.counted(now) == state,
{
}

impl<K, S, H> Clone for RateLimitLayer<K, S, H> {
    fn clone(&self) -> (copy: Self)
        ensures
            copy == *self,
            copy.shared() == self.shared(),
    {
        proof {
            use_type_invariant(self);
        }
        RateLimitLayer { limiter: self.limiter.clone(), builder: self.builder.clone() }
    }
}

impl<K: Key<S>, S: State, H: BuildHasher> RateLimitLayer<K, S, H> {
    /// Begin building a new rate limiter layer starting with the default configuration.
    #[must_use]
    pub fn builder(state: S) -> (builder: RateLimitLayerBuilder<K, S, H>)
        ensures
            builder.state() == state,
            builder.default_quota() == (Quota { interval: 1_000_000_000, tolerance: 0 }),
            builder.gc_interval() == GCInterval::Requests(8192),
            !builder.extends(),
    {
        RateLimitLayerBuilder::new(state)
    }

    /// The service that puts this layer in front of `inner`.
    pub fn layer<I>(&self, inner: I) -> (service: RateLimitService<I, K, S, H>)
        ensures
            service.inner == inner,
            service.layer == *self,
    {
        RateLimitService { inner, layer: self.clone() }
    }

    /// The application's state, which keys are extracted with.
    pub fn state(&self) -> (state: &S)
        ensures
            *state == self.config().state(),
    {
        &self.builder.state
    }

    /// The period at which a background task has to clean the limiter, if there has to be one.
    pub fn gc_period(&self) -> (period: Option<Duration>)
        ensures
            period == self.config().gc_interval().period(),
            period == match self.config().gc_interval() {
                GCInterval::Requests(_) => None,
                GCInterval::Time(d) => Some(d),
            },
    {
        self.builder.gc_interval.to_period()
    }

    /// The quota that a request of `key` is held to.
    pub fn quota_of(&self, key: &K) -> (quota: Quota)
        ensures
            self.config().grants(*key, quota),
    {
        self.builder.quota_or_default(key.quota(&self.builder.state))
    }

    /// What the limiter's decision means for a request whose extension carries `copy`: it passes,
    /// with the extension if there is one, or it is refused.
    pub open spec fn concluded<E, R>(
        &self,
        copy: Option<K>,
        decision: Result<(), RateLimitError>,
    ) -> Result<Option<extensions::RateLimiter<K, S, H>>, Error<E, R>> {
        match decision {
            Ok(()) => Ok(
                match copy {
                    Some(key) => Some(extensions::RateLimiter { key, layer: *self }),
                    None => None,
                },
            ),
            Err(e) => Err(Error::RateLimit(e)),
        }
    }

    /// What the limiter's decision means for a request: it passes, with the extension if
    /// requests get one, or it is refused.
    pub fn conclude<E, R>(&self, copy: Option<K>, decision: Result<(), RateLimitError>) -> (res:
        Result<Option<extensions::RateLimiter<K, S, H>>, Error<E, R>>)
        ensures
            res == self.concluded::<E, R>(copy, decision),
            decision matches Err(e) ==> (res matches Err(Error::RateLimit(r)) && r == e),
            decision is Ok ==> {
                &&& res matches Ok(extension)
                &&& extension is Some <==> copy is Some
                &&& extension matches Some(extension) ==> Some(extension.key) == copy
                    && extension.layer == *self
            },
    {
        match decision {
            Ok(()) => match copy {
                Some(key) => Ok(Some(extensions::RateLimiter { key, layer: self.clone() })),
                None => Ok(None),
            },
            Err(e) => Err(Error::RateLimit(e)),
        }
    }

    /// Whether the shared limiter can decide a request of `key` at `now` in this way: it does so
    /// from some state that it can be in, by a quota of the key.
    pub open spec fn may_decide(
        &self,
        key: K,
        now: u64,
        decision: Result<(), RateLimitError>,
    ) -> bool {
        exists|quota: Quota, state: LimiterState<K>|
            {
                &&& #[trigger] self.config().grants(key, quota)
                &&& #[trigger] self.may_hold(state)
                &&& decision == state.requested(key, quota, now).1
            }
    }

    /// Whether this is how a request of `key` is answered when the limiter decides it so: it
    /// passes, with the extension of its key and this layer if and only if requests get one, or
    /// it is refused.
    pub open spec fn answers<E, R>(
        &self,
        key: K,
        decision: Result<(), RateLimitError>,
        res: Result<Option<extensions::RateLimiter<K, S, H>>, Error<E, R>>,
    ) -> bool {
        match decision {
            Ok(()) => {
                &&& res matches Ok(extension)
                &&& extension is Some <==> self.config().extends()
                &&& extension matches Some(extension) ==> self.config().copies(key, extension.key)
                    && extension.layer == *self
            },
            Err(e) => res == Err::<Option<extensions::RateLimiter<K, S, H>>, Error<E, R>>(
                Error::RateLimit(e),
            ),
        }
    }

    /// Makes a request out of its key: what the limiter has to know of it, or its rejection. The
    /// limiter is not asked.
    pub fn ask<E, R>(&self, key: Result<K, R>, now: u64) -> (asked: Result<Asked<K>, Error<E, R>>)
        ensures
            match key {
                Ok(key) => {
                    &&& asked matches Ok(asked)
                    &&& asked.key == key
                    &&& asked.now == now
                    &&& self.config().grants(key, asked.quota)
                    &&& asked.copy is Some <==> self.config().extends()
                    &&& asked.copy matches Some(copy) ==> self.config().copies(key, copy)
                },
                Err(rejection) => asked == Err::<Asked<K>, Error<E, R>>(
                    Error::KeyRejection(rejection),
                ),
            },
    {
        match key {
            Ok(key) => {
                let quota = self.quota_of(&key);
                let copy = self.builder.set_extension(&key);
                Ok(Asked { key, quota, now, copy })
            },
            Err(rejection) => Err(Error::KeyRejection(rejection)),
        }
    }

    /// Holds a request to its quota on the given limiter.
    pub fn limit_on<E, R>(&self, limiter: &mut RateLimiter<K, H>, asked: Asked<K>) -> (res: Result<
        Option<extensions::RateLimiter<K, S, H>>,
        Error<E, R>,
    >)
        ensures
            old(limiter).is_sound() ==> {
                let (after, decision) = old(limiter)@.requested(asked.key, asked.quota, asked.now);
                final(limiter)@ == after && res == self.concluded::<E, R>(asked.copy, decision)
            },
            exists|decision: Result<(), RateLimitError>|
                res == #[trigger] self.concluded::<E, R>(asked.copy, decision),
            old(limiter).is_sound() ==> final(limiter).is_sound(),
            old(limiter).is_sound() ==> forall|other: K|
                other != asked.key ==> #[trigger] old(limiter).keeps_place(final(limiter), other),
            final(limiter)@.gc_interval == old(limiter)@.gc_interval,
    {
        let Asked { key, quota, now, copy } = asked;
        let peek = |_key: &K| -> (unit: ()) { () };
        let (_, decision) = limiter.req_peek_key(key, quota, now, peek);
        self.conclude(copy, decision)
    }

    /// Holds a request at `now` to the quota of its key on the given limiter. A request whose key
    /// was rejected leaves the limiter as it is.
    pub fn limit_key_on<E, R>(
        &self,
        limiter: &mut RateLimiter<K, H>,
        key: Result<K, R>,
        now: u64,
    ) -> (res: Result<Option<extensions::RateLimiter<K, S, H>>, Error<E, R>>)
        ensures
            match key {
                Ok(key) => {
                    &&& old(limiter).is_sound() ==> exists|quota: Quota|
                        {
                            let (after, decision) = old(limiter)@.requested(key, quota, now);
                            &&& #[trigger] self.config().grants(key, quota)
                            &&& final(limiter)@ == after
                            &&& self.answers(key, decision, res)
                        }
                    &&& exists|decision: Result<(), RateLimitError>| #[trigger]
                        self.answers(key, decision, res)
                },
                Err(rejection) => {
                    &&& *final(limiter) == *old(limiter)
                    &&& res matches Err(Error::KeyRejection(r)) && r == rejection
                },
            },
            old(limiter).is_sound() ==> final(limiter).is_sound(),
            old(limiter).is_sound() ==> forall|other: K|
                key != Ok::<K, R>(other) ==> #[trigger] old(limiter).keeps_place(
                    final(limiter),
                    other,
                ),
            final(limiter)@.gc_interval == old(limiter)@.gc_interval,
    {
        match self.ask(key, now) {
            Ok(asked) => {
                let ghost copy = asked.copy;
                let ghost before = *limiter;
                let ghost id = asked.key;
                let ghost quota = asked.quota;
                let res = self.limit_on(limiter, asked);
                proof {
                    let decision = choose|decision: Result<(), RateLimitError>|
                        res == #[trigger] self.concluded::<E, R>(copy, decision);
                    assert(self.answers(id, decision, res));
                    if before.is_sound() {
                        assert(self.config().grants(id, quota));
                        assert(self.answers(id, before@.requested(id, quota, now).1, res));
                    }
                }
                res
            },
            Err(e) => Err(e),
        }
    }

    /// Holds a request at `now` to the quota of its key on the shared limiter, as
    /// [`limit_key_on`](RateLimitLayer::limit_key_on) does on a given one.
    ///
    /// A request whose key was rejected does not reach the limiter. In which state the shared
    /// limiter is depends on what its other owners do, so this speaks of the state in which it was
    /// taken: the request is answered from that, and what is put back is that state after just
    /// this request. See [`RateLimitLayer::is_turn`].
    ///
    /// The quota of the key and its copy for the extension are found before the limiter is
    /// locked.
    pub fn limit<E, R>(&self, key: Result<K, R>, now: u64) -> (res: Result<
        Option<extensions::RateLimiter<K, S, H>>,
        Error<E, R>,
    >)
        ensures
            match key {
                Ok(key) => exists|decision: Result<(), RateLimitError>|
                    {
                        &&& #[trigger] self.answers(key, decision, res)
                        &&& self.is_map() ==> self.may_decide(key, now, decision)
                    },
                Err(rejection) => res matches Err(Error::KeyRejection(r)) && r == rejection,
            },
            key matches Ok(key) ==> exists|
                taken: RateLimiter<K, H>,
                given: RateLimiter<K, H>,
                quota: Quota,
            |
                {
                    &&& #[trigger] self.is_turn(taken, given)
                    &&& #[trigger] self.config().grants(key, quota)
                    &&& self.is_map() ==> {
                        &&& self.may_hold(taken@)
                        &&& given@ == step(taken@, Op::Request { key, quota, now })
                        &&& self.answers(key, taken@.requested(key, quota, now).1, res)
                    }
                },
    {
        match self.ask(key, now) {
            Ok(asked) => {
                proof {
                    use_type_invariant(self);
                }
                let ghost copy = asked.copy;
                let ghost id = asked.key;
                let ghost quota = asked.quota;
                let (mut limiter, handle) = self.limiter.acquire_write();
                let ghost held = handle;
                let ghost taken = limiter;
                let ghost before = limiter@;
                let res = self.limit_on(&mut limiter, asked);
                let ghost given = limiter;
                proof {
                    let decision = choose|decision: Result<(), RateLimitError>|
                        res == #[trigger] self.concluded::<E, R>(copy, decision);
                    assert(self.answers(id, decision, res));
                    if self.is_map() {
                        let decision = before.requested(id, quota, now).1;
                        assert(self.may_hold(before));
                        assert(self.answers(id, decision, res));
                        assert(self.config().grants(id, quota));
                        assert(self.may_decide(id, now, decision));
                        use_is_reachable(before, Op::Request { key: id, quota, now });
                    }
                }
                handle.release_write(limiter);
                assert(self.takes_turn(held, taken, given));
                assert(self.is_turn(taken, given));
                res
            },
            Err(e) => Err(e),
        }
    }

    /// Makes `key` wait for `penalty` nanoseconds longer. Returns whether it had an entry in the
    /// shared limiter, which is put back as it was taken but for that.
    pub fn penalize_sync(&self, key: &K, penalty: u64) -> (found: bool)
        ensures
            self.is_map() ==> exists|state: LimiterState<K>| #[trigger]
                self.may_hold(state) && found == state.table.contains_key(*key),
            exists|taken: RateLimiter<K, H>, given: RateLimiter<K, H>|
                {
                    &&& #[trigger] self.is_turn(taken, given)
                    &&& self.is_map() ==> {
                        &&& self.may_hold(taken@)
                        &&& given@ == step(taken@, Op::Penalize { key: *key, penalty })
                        &&& found == taken@.table.contains_key(*key)
                    }
                },
    {
        proof {
            use_type_invariant(self);
        }
        let (mut limiter, handle) = self.limiter.acquire_write();
        let ghost held = handle;
        let ghost taken = limiter;
        let ghost earlier = limiter@;
        assert(self.is_map() ==> self.may_hold(earlier));
        let found = limiter.penalize(key, penalty);
        let ghost given = limiter;
        proof {
            if self.is_map() {
                use_is_reachable(earlier, Op::Penalize { key: *key, penalty });
            }
        }
        handle.release_write(limiter);
        assert(self.takes_turn(held, taken, given));
        assert(self.is_turn(taken, given));
        found
    }

    /// Forgets `key` in the shared limiter, which is put back as it was taken but for that. Returns
    /// whether the key had an entry.
    pub fn reset_sync(&self, key: &K) -> (found: bool)
        ensures
            self.is_map() ==> exists|state: LimiterState<K>| #[trigger]
                self.may_hold(state) && found == state.table.contains_key(*key),
            exists|taken: RateLimiter<K, H>, given: RateLimiter<K, H>|
                {
                    &&& #[trigger] self.is_turn(taken, given)
                    &&& self.is_map() ==> {
                        &&& self.may_hold(taken@)
                        &&& given@ == step(taken@, Op::Reset { key: *key })
                        &&& found == taken@.table.contains_key(*key)
                    }
                },
    {
        proof {
            use_type_invariant(self);
        }
        let (mut limiter, handle) = self.limiter.acquire_write();
        let ghost held = handle;
        let ghost taken = limiter;
        let ghost earlier = limiter@;
        assert(self.is_map() ==> self.may_hold(earlier));
        let found = limiter.reset(key);
        let ghost given = limiter;
        proof {
            if self.is_map() {
                use_is_reachable(earlier, Op::Reset { key: *key });
            }
        }
        handle.release_write(limiter);
        assert(self.takes_turn(held, taken, given));
        assert(self.is_turn(taken, given));
        found
    }

    /// One step of a cleanup of the shared limiter at `before`, with `left` places to look at, or
    /// `usize::MAX` of them to begin with. Returns how many are left after that. See
    /// [`RateLimiter::sweep`].
    pub fn clean_step(&self, before: u64, left: usize) -> (rest: usize)
        ensures
            exists|listed: nat| rest == #[trigger] left_after(left as int, listed as int),
            exists|taken: RateLimiter<K, H>, given: RateLimiter<K, H>| #[trigger]
                self.is_cleanup_turn(before, taken, given, left, rest),
    {
        proof {
            use_type_invariant(self);
        }
        let (mut limiter, handle) = self.limiter.acquire_write();
        let ghost held = handle;
        let ghost earlier = limiter;
        let rest: usize = limiter.sweep(before, left);
        let ghost given = limiter;
        proof {
            if self.is_map() {
                let among = earlier.keys_in(rest as int, left as int);
                use_is_reachable(earlier@, Op::Clean { before, among });
            }
        }
        handle.release_write(limiter);
        assert(self.takes_turn(held, earlier, given));
        assert(self.is_cleanup_turn(before, earlier, given, left, rest));
        rest
    }

    /// Removes every entry of the shared limiter that is over at `before`.
    ///
    /// This goes in steps of [`crate::gcra::STEP`] keys at most, and lets go of the limiter after
    /// each of them, so that no request has to wait for the cleanup to end. What others do between
    /// the steps does not hide a key from them: see [`crate::gcra::steps_miss_nothing`].
    pub fn clean_sync(&self, before: u64)
        ensures
            exists|
                turns: Seq<(RateLimiter<K, H>, RateLimiter<K, H>)>,
                places: Seq<usize>,
            | #[trigger]
                self.is_cleanup(before, turns, places),
    {
        let mut left: usize = usize::MAX;
        let ghost mut turns: Seq<(RateLimiter<K, H>, RateLimiter<K, H>)> = Seq::empty();
        let ghost mut places: Seq<usize> = seq![left];
        while left > 0
            invariant
                places.len() == turns.len() + 1,
                places.first() == usize::MAX,
                places.last() == left,
                forall|i: int|
                    #![trigger turns[i]]
                    0 <= i < turns.len() ==> self.is_cleanup_turn(
                        before,
                        turns[i].0,
                        turns[i].1,
                        places[i],
                        places[i + 1],
                    ),
            decreases left,
        {
            let ghost earlier = left;
            left = self.clean_step(before, left);
            proof {
                let (taken, given) = choose|taken: RateLimiter<K, H>, given: RateLimiter<K, H>|
                    #[trigger] self.is_cleanup_turn(before, taken, given, earlier, left);
                turns = turns.push((taken, given));
                places = places.push(left);
            }
        }
        assert(self.is_cleanup(before, turns, places));
    }
}

/// Rate limiter service.
///
/// This struct is not meant to be used directly, but rather through the
/// [`RateLimitLayerBuilder`].
///
/// Note: The limiter is shared across all clones of the layer and service.
#[verifier::reject_recursive_types(K)]
#[verifier::reject_recursive_types(H)]
pub struct RateLimitService<I, K = (), S = (), H = ahash::RandomState> {
    /// The service behind the limiter.
    pub inner: I,
    /// The layer that holds requests to their quotas.
    pub layer: RateLimitLayer<K, S, H>,
}

impl<I, K: Key<S>, S: State, H: BuildHasher> RateLimitService<I, K, S, H> {
    /// Whether a service is ready for a request: it is when the inner service is, and an error of
    /// the inner service is passed on as such.
    ///
    /// This takes no service, so that asking for readiness cannot use up a quota.
    pub fn poll_ready<E, R>(inner: Poll<Result<(), E>>) -> (ready: Poll<Result<(), Error<E, R>>>)
        ensures
            ready == match inner {
                Poll::Ready(Ok(())) => Poll::Ready(Ok(())),
                Poll::Ready(Err(e)) => Poll::Ready(Err(Error::<E, R>::Inner(e))),
                Poll::Pending => Poll::Pending,
            },
    {
        match inner {
            Poll::Ready(Ok(())) => Poll::Ready(Ok(())),
            Poll::Ready(Err(e)) => Poll::Ready(Err(Error::Inner(e))),
            Poll::Pending => Poll::Pending,
        }
    }

    /// Begins to answer a request with this body that came at `now`: a copy of the inner service
    /// and the body wait until the limiter has decided on the request. Whenever that will be,
    /// the request is judged by the time at which it came.
    pub fn call<B>(&self, body: B, now: u64) -> (call: (
        RateLimitedResponse<I, B>,
        Limiting<K, S, H>,
    )) where I: Clone
        ensures
            call.0 matches RateLimitedResponse::RateLimiting { inner, body: held } && cloned(
                self.inner,
                inner,
            ) && held == Some(body),
            call.0.holds_body(),
            call.1.layer == self.layer,
            call.1.now == now,
    {
        (
            RateLimitedResponse::RateLimiting { inner: self.inner.clone(), body: Some(body) },
            Limiting { layer: self.layer.clone(), now },
        )
    }
}

/// The limiter's part in the answer to a request that was called: what is left to learn is the
/// request's key.
#[verifier::reject_recursive_types(K)]
#[verifier::reject_recursive_types(H)]
pub struct Limiting<K = (), S = (), H = ahash::RandomState> {
    /// The layer that the request has to pass.
    pub layer: RateLimitLayer<K, S, H>,
    /// The time at which the request came.
    pub now: u64,
}

impl<K: Key<S>, S: State, H: BuildHasher> Limiting<K, S, H> {
    /// Decides the request on the given limiter, at the time at which it came, once its key is
    /// known.
    pub fn decide_on<E, R>(&self, limiter: &mut RateLimiter<K, H>, key: Result<K, R>) -> (res:
        Result<Option<extensions::RateLimiter<K, S, H>>, Error<E, R>>)
        ensures
            match key {
                Ok(key) => {
                    &&& old(limiter).is_sound() ==> exists|quota: Quota|
                        {
                            let (after, decision) = old(limiter)@.requested(key, quota, self.now);
                            &&& #[trigger] self.layer.config().grants(key, quota)
                            &&& final(limiter)@ == after
                            &&& self.layer.answers(key, decision, res)
                        }
                    &&& exists|decision: Result<(), RateLimitError>| #[trigger]
                        self.layer.answers(key, decision, res)
                },
                Err(rejection) => {
                    &&& *final(limiter) == *old(limiter)
                    &&& res matches Err(Error::KeyRejection(r)) && r == rejection
                },
            },
            old(limiter).is_sound() ==> final(limiter).is_sound(),
            old(limiter).is_sound() ==> forall|other: K|
                key != Ok::<K, R>(other) ==> #[trigger] old(limiter).keeps_place(
                    final(limiter),
                    other,
                ),
            final(limiter)@.gc_interval == old(limiter)@.gc_interval,
    {
        self.layer.limit_key_on(limiter, key, self.now)
    }

    /// Decides the request on the shared limiter, at the time at which it came, once its key is
    /// known.
    pub fn decide<E, R>(&self, key: Result<K, R>) -> (res: Result<
        Option<extensions::RateLimiter<K, S, H>>,
        Error<E, R>,
    >)
        ensures
            match key {
                Ok(key) => exists|decision: Result<(), RateLimitError>|
                    {
                        &&& #[trigger] self.layer.answers(key, decision, res)
                        &&& self.layer.is_map() ==> self.layer.may_decide(key, self.now, decision)
                    },
                Err(rejection) => res matches Err(Error::KeyRejection(r)) && r == rejection,
            },
            key matches Ok(key) ==> exists|
                taken: RateLimiter<K, H>,
                given: RateLimiter<K, H>,
                quota: Quota,
            |
                {
                    &&& #[trigger] self.layer.is_turn(taken, given)
                    &&& #[trigger] self.layer.config().grants(key, quota)
                    &&& self.layer.is_map() ==> {
                        &&& self.layer.may_hold(taken@)
                        &&& given@ == step(taken@, Op::Request { key, quota, now: self.now })
                        &&& self.layer.answers(
                            key,
                            taken@.requested(key, quota, self.now).1,
                            res,
                        )
                    }
                },
    {
        self.layer.limit(key, self.now)
    }
}

impl<I: Clone, K, S, H> Clone for RateLimitService<I, K, S, H> {
    fn clone(&self) -> (copy: Self)
        ensures
            cloned(self.inner, copy.inner),
            copy.layer == self.layer,
    {
        RateLimitService { inner: self.inner.clone(), layer: self.layer.clone() }
    }
}

/// A layer begins with an empty limiter in a lock of its own: what is known of the lock is that it
/// was made with that limiter.
pub proof fn layer_begins_with_its_own_lock<K, S, H>(
    layer: RateLimitLayer<K, S, H>,
    limiter: RateLimiter<K, H>,
)
    requires
        layer.began_with(limiter),
    ensures
        exists|history: History| #[trigger]
            call_ensures(
                RwLock::<RateLimiter<K, H>, History>::new,
                (limiter, Ghost(history)),
                layer.shared(),
            ),
{
}

/// A turn is one hold of the layer's own lock: the lock was acquired and gave out what the turn
/// began with, and what the turn ended with was released through the very handle that came with
/// it. What was given out is a state that the limiter can be in.
pub proof fn turn_is_one_hold_of_the_lock<K, S, H>(
    layer: RateLimitLayer<K, S, H>,
    taken: RateLimiter<K, H>,
    given: RateLimiter<K, H>,
)
    requires
        layer.is_turn(taken, given),
    ensures
        exists|handle: WriteHandle<'_, RateLimiter<K, H>, History>|
            {
                &&& #[trigger] call_ensures(
                    RwLock::<RateLimiter<K, H>, History>::acquire_write,
                    (&layer.shared(),),
                    (taken, handle),
                )
                &&& #[trigger] call_ensures(
                    WriteHandle::<RateLimiter<K, H>, History>::release_write,
                    (handle, given),
                    (),
                )
            },
        is_map::<K, H>() ==> taken.is_sound() && taken@.reachable(),
{
}

/// A cleanup of the shared limiter removes what is over at `before`, and nothing else: in none of
/// its turns does a key that has something to wait for at that time, or is asked for at that time
/// or later, have to wait any other than before the turn.
pub proof fn shared_cleanup_ends_no_wait<K, S, H>(
    layer: RateLimitLayer<K, S, H>,
    before: u64,
    turns: Seq<(RateLimiter<K, H>, RateLimiter<K, H>)>,
    left: Seq<usize>,
    i: int,
    key: K,
    time: u64,
)
    requires
        layer.is_cleanup(before, turns, left),
        layer.is_map(),
        0 <= i < turns.len(),
        before <= time || wait(turns[i].0@, key, before) > 0,
    ensures
        layer.is_turn(turns[i].0, turns[i].1),
        wait(turns[i].1@, key, time) == wait(turns[i].0@, key, time),
        turns[i].0@.table.contains_key(key) && turns[i].0@.table[key] > before
            ==> turns[i].1@.table.contains_key(key) && turns[i].1@.table[key]
            == turns[i].0@.table[key],
{
    assert(layer.is_cleanup_turn(before, turns[i].0, turns[i].1, left[i], left[i + 1]));
    let among = turns[i].0.keys_in(left[i + 1] as int, left[i] as int);
    cleanup_ends_no_wait(turns[i].0@, before, among, key, time);
}

/// A cleanup of the shared limiter misses nothing: whatever others do between its turns, a key that
/// has nothing to wait for at `before` in any of them, and that nobody brings back between them, is
/// not held any more when the cleanup has ended.
pub proof fn shared_cleanup_misses_nothing<K, S, H>(
    layer: RateLimitLayer<K, S, H>,
    before: u64,
    turns: Seq<(RateLimiter<K, H>, RateLimiter<K, H>)>,
    left: Seq<usize>,
    key: K,
)
    requires
        layer.is_cleanup(before, turns, left),
        layer.is_map(),
        forall|i: int|
            #![trigger turns[i]]
            0 <= i < turns.len() ==> wait(turns[i].0@, key, before) == 0,
        forall|i: int|
            #![trigger turns[i]]
            0 <= i < turns.len() - 1 ==> passes_by(turns[i].1, turns[i + 1].0, key),
    ensures
        turns.len() > 0,
        !turns.last().1@.held.contains(key),
{
    if turns.len() > 0 {
        key_is_left_or_gone(layer, before, turns, left, key, turns.len() - 1);
    }
}

proof fn key_is_left_or_gone<K, S, H>(
    layer: RateLimitLayer<K, S, H>,
    before: u64,
    turns: Seq<(RateLimiter<K, H>, RateLimiter<K, H>)>,
    left: Seq<usize>,
    key: K,
    i: int,
)
    requires
        layer.is_cleanup(before, turns, left),
        layer.is_map(),
        forall|i: int|
            #![trigger turns[i]]
            0 <= i < turns.len() ==> wait(turns[i].0@, key, before) == 0,
        forall|i: int|
            #![trigger turns[i]]
            0 <= i < turns.len() - 1 ==> passes_by(turns[i].1, turns[i + 1].0, key),
        0 <= i < turns.len(),
    ensures
        turns[i].1@.held.contains(key) ==> turns[i].1.keys_in(0, left[i + 1] as int).contains(
            key,
        ),
        left[i + 1] == 0 ==> !turns[i].1@.held.contains(key),
    decreases i,
{
    let (taken, given) = turns[i];
    assert(layer.is_cleanup_turn(before, taken, given, left[i], left[i + 1]));
    let among = taken.keys_in(left[i + 1] as int, left[i] as int);
    cleanup_ends_no_wait(taken@, before, among, key, before);
    list_is_what_is_held(taken);
    places_are_apart(taken, left[i] as int, left[i + 1] as int, key);
    if i > 0 {
        key_is_left_or_gone(layer, before, turns, left, key, i - 1);
        assert(passes_by(turns[i - 1].1, turns[i - 1 + 1].0, key));
        if given@.held.contains(key) {
            assert(taken@.held.contains(key));
            assert(taken.keys_in(0, left[i] as int).contains(key));
        }
    } else {
        assert(left[0] == usize::MAX);
        if given@.held.contains(key) {
            assert(taken@.held.contains(key));
            assert(taken.keys_in(0, left[i] as int).contains(key));
        }
    }
}

/// What the limiter decides is what a request is answered: an admitted one passes, with the
/// extension of its key and this layer if and only if requests get one, and a refused one is told
/// just what the limiter said.
pub proof fn answer_is_the_decision<E, R, K: Key<S>, S: State, H: BuildHasher>(
    layer: RateLimitLayer<K, S, H>,
    key: K,
    copy: Option<K>,
    decision: Result<(), RateLimitError>,
    res: Result<Option<extensions::RateLimiter<K, S, H>>, Error<E, R>>,
)
    requires
        layer.answers(key, decision, res) || res == layer.concluded::<E, R>(copy, decision),
    ensures
        decision matches Err(e) ==> (res matches Err(Error::RateLimit(r)) && r == e),
        decision is Ok ==> res is Ok,
        layer.answers(key, decision, res) ==> (res matches Ok(extension) ==> {
            &&& extension is Some <==> layer.config().extends()
            &&& extension matches Some(extension) ==> layer.config().copies(key, extension.key)
                && extension.layer == layer
        }),
        res == layer.concluded::<E, R>(copy, decision) ==> (res matches Ok(extension) ==> {
            &&& extension is Some <==> copy is Some
            &&& extension matches Some(extension) ==> copy == Some(extension.key)
                && extension.layer == layer
        }),
{
}

/// A key is held to its own quota if it has one, and to the default quota of the layer if it has
/// none.
pub proof fn own_quota_comes_first<K: Key<S>, S: State, H: BuildHasher>(
    builder: RateLimitLayerBuilder<K, S, H>,
    key: K,
    quota: Quota,
)
    requires
        builder.grants(key, quota),
    ensures
        exists|own: Option<Quota>|
            {
                &&& #[trigger] call_ensures(K::quota, (&key, &builder.state()), own)
                &&& own is None ==> quota == builder.default_quota()
                &&& own matches Some(q) ==> quota == q
            },
{
}

/// A layer that was set up to clean after a number of requests cleans on every one of that number,
/// whatever else its limiter is used for meanwhile.
pub proof fn layer_cleans_on_every_nth_request<K, S, H>(
    layer: RateLimitLayer<K, S, H>,
    ops: Seq<Op<K>>,
    n: u64,
)
    requires
        layer.config().gc_interval() == GCInterval::Requests(n),
        0 < n < u64::MAX,
    ensures
        run(LimiterState::fresh(layer.config().gc_interval().requests()), ops).gc_due() <==> (
        requests_in(ops) + 1) % (n as nat) == 0,
{
    gc_runs_on_every_nth_request(n, ops);
}

/// Two services of one layer, whether made from clones of it or cloned from each other, have the
/// same limiter, and it does not matter through which of them a request comes: the limiter can
/// decide it in the same ways, from the same states and by the same quotas, and it is answered
/// alike.
pub proof fn clones_decide_alike<I, J, E, R, K: Key<S>, S: State, H: BuildHasher>(
    service: RateLimitService<I, K, S, H>,
    other: RateLimitService<J, K, S, H>,
    key: K,
    now: u64,
    decision: Result<(), RateLimitError>,
    res: Result<Option<extensions::RateLimiter<K, S, H>>, Error<E, R>>,
)
    requires
        service.layer == other.layer,
    ensures
        service.layer.shared() == other.layer.shared(),
        forall|state: LimiterState<K>|
            service.layer.may_hold(state) == #[trigger] other.layer.may_hold(state),
        forall|quota: Quota|
            service.layer.config().grants(key, quota) == #[trigger] other.layer.config().grants(
                key,
                quota,
            ),
        service.layer.may_decide(key, now, decision) == other.layer.may_decide(key, now, decision),
        service.layer.answers(key, decision, res) == other.layer.answers(key, decision, res),
{
}

} // verus!
