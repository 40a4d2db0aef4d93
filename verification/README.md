# axum_gcra

GCRA-based rate limiting for axum with per-key quotas, verified with Verus.

- `src/` is the verified library.
  - `gcra.rs`: quotas, the decision on one request, and the table of all keys, which can be
    cleaned in steps
  - `rate_laws.rs`: what holds over any run of requests: the rate and the burst that a quota
    allows, the wait that a refusal names, when garbage collection, other keys and other routes are
    not seen, and what garbage collection frees
  - `key.rs`: the `Key` trait, and where the key of a request comes from
  - `gc.rs`: `GCInterval`, and the steps of the background task
  - `layer.rs`, `extensions.rs`: builder, layer, service, and the request extension
  - `response.rs`: errors, and the steps from a request to its answer
  - `route.rs`: `Route`
- `app/` puts the library in front of axum services: it reads the clock, extracts keys, calls the
  inner service and runs the background task.
- `tests/` run the library.

All times in the library are nanoseconds on one clock. A request is judged by the time at which it
came, and requests may be decided in another order. The rate law holds in any order, but for a
request that a cleanup has overtaken: one that came before the cleanup and is decided after it.
But for such requests, garbage collection does not change an answer either, as long as there are no
penalties: a key that is over can be penalized only until it is cleaned away.

Contracts that speak of the table hold for keys and hashers over which a hash map behaves as a map.
For the keys `vstd` has to know it, as it does for integers; for the key `()` it says nothing. For
the hashers `vstd` knows it of `std`'s `RandomState`, and `layer.rs` says it of `ahash`'s. This is
for stable compilers: on nightly ones `ahash` hashes some keys by their static type.

The limiter of a layer is shared by its clones behind a lock. Functions that take a limiter by `&mut`
state exactly what becomes of it; those that use the shared one state what holds for some state that
it can be in. `app/` keeps a limiter behind a mutex of its own and uses the exact functions.

A request may clean the table, if that is how garbage collection was set up, and then holds the lock
until it is done. All other cleanups let go of it after every few keys.

Quotas by route come from the key: a key that is made of a route and a client brings the quota of
its route, and routes are then limited apart.
