//! Defines the [`RateLimiter`] extension for the request's extensions.

use crate::gcra;
use crate::gcra::{step, LimiterState, Op};
use crate::key::{Key, State};
use crate::layer::RateLimitLayer;
use std::hash::BuildHasher;
use vstd::prelude::*;

verus! {

/// Request extension to access the internal rate limiter used during that request, such as to
/// apply a penalty or reset the rate limit.
#[verifier::reject_recursive_types(K)]
#[verifier::reject_recursive_types(H)]
pub struct RateLimiter<K = (), S = (), H = ahash::RandomState> {
    pub key: K,
    pub layer: RateLimitLayer<K, S, H>,
}

impl<K: Clone, S, H> Clone for RateLimiter<K, S, H> {
    fn clone(&self) -> (copy: Self)
        ensures
            cloned(self.key, copy.key),
            copy.layer == self.layer,
    {
        RateLimiter { key: self.key.clone(), layer: self.layer.clone() }
    }
}

impl<K: Key<S>, S: State, H: BuildHasher> RateLimiter<K, S, H> {
    /// Get the key used to identify the rate limiter entry.
    pub fn key(&self) -> (key: &K)
        ensures
            *key == self.key,
    {
        &self.key
    }

    /// Makes the key of the request wait for `penalty` nanoseconds longer on the given limiter.
    /// Returns whether it had an entry.
    pub fn penalize(&self, limiter: &mut gcra::RateLimiter<K, H>, penalty: u64) -> (found: bool)
        ensures
            old(limiter).is_sound() ==> found == old(limiter)@.table.contains_key(self.key),
            old(limiter).is_sound() ==> final(limiter)@ == old(limiter)@.penalized(
                self.key,
                penalty,
            ),
            old(limiter).is_sound() ==> final(limiter).is_sound(),
            old(limiter).is_sound() ==> forall|other: K| #[trigger]
                old(limiter).keeps_place(final(limiter), other),
            final(limiter)@.gc_interval == old(limiter)@.gc_interval,
    {
        limiter.penalize(&self.key, penalty)
    }

    /// Makes the key of the request wait for `penalty` nanoseconds longer on the shared limiter.
    /// Returns whether it had an entry.
    pub fn penalize_sync(&self, penalty: u64) -> (found: bool)
        ensures
            self.layer.is_map() ==> exists|state: LimiterState<K>| #[trigger]
                self.layer.may_hold(state) && found == state.table.contains_key(self.key),
            exists|taken: gcra::RateLimiter<K, H>, given: gcra::RateLimiter<K, H>|
                {
                    &&& #[trigger] self.layer.is_turn(taken, given)
                    &&& self.layer.is_map() ==> {
                        &&& self.layer.may_hold(taken@)
                        &&& given@ == step(taken@, Op::Penalize { key: self.key, penalty })
                        &&& found == taken@.table.contains_key(self.key)
                    }
                },
    {
        self.layer.penalize_sync(&self.key, penalty)
    }

    /// Forgets the key of the request on the given limiter. Returns whether it had an entry.
    pub fn reset(&self, limiter: &mut gcra::RateLimiter<K, H>) -> (found: bool)
        ensures
            old(limiter).is_sound() ==> found == old(limiter)@.table.contains_key(self.key),
            old(limiter).is_sound() ==> final(limiter)@ == old(limiter)@.forgotten(self.key),
            old(limiter).is_sound() ==> final(limiter).is_sound(),
            old(limiter).is_sound() ==> forall|other: K| #[trigger]
                old(limiter).keeps_place(final(limiter), other),
            final(limiter)@.gc_interval == old(limiter)@.gc_interval,
    {
        limiter.reset(&self.key)
    }

    /// Forgets the key of the request on the shared limiter. Returns whether it had an entry.
    pub fn reset_sync(&self) -> (found: bool)
        ensures
            self.layer.is_map() ==> exists|state: LimiterState<K>| #[trigger]
                self.layer.may_hold(state) && found == state.table.contains_key(self.key),
            exists|taken: gcra::RateLimiter<K, H>, given: gcra::RateLimiter<K, H>|
                {
                    &&& #[trigger] self.layer.is_turn(taken, given)
                    &&& self.layer.is_map() ==> {
                        &&& self.layer.may_hold(taken@)
                        &&& given@ == step(taken@, Op::Reset { key: self.key })
                        &&& found == taken@.table.contains_key(self.key)
                    }
                },
    {
        self.layer.reset_sync(&self.key)
    }

    /// Removes every entry that is over at `before` from the given limiter.
    pub fn clean(&self, limiter: &mut gcra::RateLimiter<K, H>, before: u64)
        ensures
            old(limiter).is_sound() ==> final(limiter)@ == old(limiter)@.cleaned(before),
            old(limiter).is_sound() ==> final(limiter)@.held == final(limiter)@.table.dom(),
            old(limiter).is_sound() ==> final(limiter).keys_in(0, final(limiter).listed() as int)
                == final(limiter)@.table.dom(),
            old(limiter).is_sound() ==> final(limiter).is_sound(),
            old(limiter).is_sound() ==> forall|other: K| #[trigger]
                old(limiter).keeps_place(final(limiter), other),
            final(limiter)@.gc_interval == old(limiter)@.gc_interval,
    {
        limiter.clean(before)
    }

    /// Removes every entry that is over at `before` from the shared limiter.
    pub fn clean_sync(&self, before: u64)
        ensures
            exists|
                turns: Seq<(gcra::RateLimiter<K, H>, gcra::RateLimiter<K, H>)>,
                places: Seq<usize>,
            | #[trigger]
                self.layer.is_cleanup(before, turns, places),
    {
        self.layer.clean_sync(before)
    }
}

} // verus!
