//! Core of a crawl-and-recommend engine for a music catalog site.
//!
//! The crate models the relational cache (collectors, items, the two
//! edge relations, work queues and progress targets) as a verified
//! in-memory store, and proves the rules that the crawl workers, the
//! progress manager and the recommender rely on: idempotent edge
//! inserts, monotone token fill, freshness windows, monotone progress
//! counts, the paginator's done signal, and the shape of the
//! recommendation list.
//!
//! Network access, HTML scraping, JSON decoding and the HTTP surface
//! live outside this crate; they hand plain values in and take plain
//! values back.

use vstd::prelude::*;

pub mod analyze;
pub mod collectors;
pub mod items;
pub mod progress_manager;
pub mod store;
pub mod types;

verus! {

/// Failure kinds of the engine.
///
/// `NetworkError`, `SerializationError` and `PageError` are transient:
/// the worker leaves the entity queued and retries on a later tick.
/// `NotFoundError` marks the entity done so it is not retried.
/// `RateLimit` rolls back the partial crawl of the in-flight entity.
/// `DbResultError` reports a row that a lookup owed but did not find.
#[derive(Clone, Copy, Debug, PartialEq, Eq, Structural)]
pub enum Error {
    NetworkError,
    NotFoundError,
    SerializationError,
    DbResultError,
    RateLimit,
    PageError,
}

} // verus!
