//! The Relay-style connection shape and the listing cache payload.
use vstd::prelude::*;

use crate::category::Category;
use crate::pagination::Pagination;

verus! {

/// One edge of a connection: a row with its opaque cursor.
#[derive(Clone, Debug, PartialEq, Eq)]
pub struct Node {
    /// The row itself.
    pub node: Category,
    /// The cursor naming the row's position.
    pub cursor: String,
}

/// Whether pages exist beyond either end of the returned edges.
#[derive(Clone, Copy, Debug, PartialEq, Eq, Structural)]
pub struct PageInfo {
    /// Rows exist after the last edge.
    pub has_next_page: bool,
    /// Rows exist before the first edge.
    pub has_previous_page: bool,
}

/// A page of rows in ascending `(created_at, id)` order.
#[derive(Clone, Debug, PartialEq, Eq)]
pub struct Connection {
    /// The page's edges.
    pub edges: Vec<Node>,
    /// Position of the page within the listing.
    pub page_info: PageInfo,
}

/// Which listing a connection belongs to.
#[derive(Clone, Debug, PartialEq, Eq)]
pub enum ListingScope {
    /// The listing of all categories.
    All,
    /// One parent's sub-categories; `None` means top-level rows.
    Sub(Option<String>),
}

/// The payload of a listing cache event: the connection together with the
/// inputs its cache key is derived from.
#[derive(Clone, Debug, PartialEq, Eq)]
pub struct ConnectionCacheRequest {
    /// The page to cache.
    pub connection: Connection,
    /// The pagination that produced it.
    pub pagination: Pagination,
    /// The listing it belongs to.
    pub scope: ListingScope,
}

} // verus!
