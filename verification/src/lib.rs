//! Verified core of a categories catalog service: cursor codec, cache-key
//! scheme, event vocabulary, keyset pagination, the write path's store
//! semantics, and the cache-update worker's decision logic.
use vstd::prelude::*;

pub mod ids;
pub mod text;
pub mod events;
pub mod keys;
pub mod timestamp;
pub mod pagination;
pub mod category;
pub mod connection;
pub mod params;
pub mod config;
pub mod store;
pub mod read;
pub mod worker;

verus! {

/// Surface-level error kinds of the service.
#[derive(Clone, Copy, Debug, PartialEq, Eq, Structural)]
pub enum ApiError {
    /// Validation failure: bad pagination combination, bad cursor, bad input.
    Invalid,
    /// The addressed row does not exist.
    NotFound,
    /// Database, decode or pool failure.
    Internal,
    /// The broker rejected a publish.
    PublishRefused,
    /// No connection was available within the pool timeout.
    PoolExhausted,
}

} // verus!
