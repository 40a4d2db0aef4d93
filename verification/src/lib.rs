//! GCRA-based rate limiting with per-key quotas.
//!
//! A [`RateLimitLayer`] holds requests to a quota before they reach an inner service. Requests
//! are told apart by a [`Key`], which may bring a [`Quota`] of its own. What a key has used up is
//! kept by the generic cell rate algorithm of [`gcra`], in a table that is cleaned of what is over
//! as [`GCInterval`] says.
//!
//! The library decides, and leaves it to its user to read the clock, to extract keys, to call the
//! inner service and to run the background task of a timed garbage collection:
//!
//! - [`key::get_user_key`] tells where the key of a request comes from,
//! - [`RateLimitService::call`] begins to answer a request, and keeps the time at which it came,
//! - [`Limiting::decide`] decides whether the request passes, on the limiter that the layer shares,
//!   and [`Limiting::decide_on`] does so on a given one,
//! - [`RateLimitedResponse`] tells when to call the inner service and what to answer,
//! - [`gc::GcTask`] tells the background task what to do.
//!
//! Times are nanoseconds on one clock. Requests are judged by the time at which they came, and may
//! be decided in another order. [`rate_laws`] states what follows for any run of requests, and
//! [`wait_laws`] what each use of a limiter does to the waits of its keys.

pub mod extensions;
pub mod gc;
pub mod gcra;
pub mod key;
pub mod layer;
pub mod rate_laws;
pub mod response;
pub mod route;
pub mod wait_laws;

pub use gc::GCInterval;
pub use gcra::{Quota, RateLimitError};
pub use key::{Key, State};
pub use layer::{Limiting, RateLimitLayer, RateLimitLayerBuilder, RateLimitService};
pub use response::{Error, RateLimitedResponse};
pub use route::Route;
