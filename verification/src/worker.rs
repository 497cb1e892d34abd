//! The cache-update worker's decision logic: each consumed event becomes one
//! idempotent cache directive, and the directives' effect on a cache model.
use vstd::prelude::*;

use crate::ApiError;
use crate::category::Category;
use crate::connection::{ConnectionCacheRequest, ListingScope};
use crate::events::{Entity, Event};
use crate::keys::{
    cursor_token, index_name_token, index_count, parent_token, CacheKey, CursorParams, Index,
};
use crate::text::int_digits;
use crate::pagination::{CursorType, Pagination};
use crate::text::join_colon;

verus! {

/// A decoded event payload.
#[derive(Clone, Debug, PartialEq, Eq)]
pub enum EventPayload {
    /// A single row.
    Category(Category),
    /// A cached listing with the inputs its key derives from.
    Connection(ConnectionCacheRequest),
}

/// What the worker does to the cache for one message.
#[derive(Clone, Debug, PartialEq, Eq)]
pub enum CacheDirective {
    /// Write the payload at the key, expiring after the TTL.
    Write {
        /// The cache key.
        key: String,
        /// The value to store.
        payload: EventPayload,
        /// Expiry in milliseconds.
        ttl_ms: u64,
    },
    /// Remove the key.
    Remove {
        /// The cache key.
        key: String,
    },
    /// Reserved event: acknowledge and change nothing.
    Skip,
}

/// The single-category key text for an id.
pub open spec fn category_key_text(id: Seq<char>) -> Seq<char> {
    join_colon(seq!["categories"@, "id="@ + id])
}

/// The listing key text a batch payload's inputs derive.
pub open spec fn batch_key_text(req: ConnectionCacheRequest) -> Seq<char> {
    let cursor = match req.pagination.cursor_value {
        Some(CursorType::After(c)) => Some(c@),
        Some(CursorType::Before(c)) => Some(c@),
        None => None,
    };
    let idx = req.pagination.index.unwrap();
    match req.scope {
        ListingScope::All => join_colon(
            seq![
                "categories"@,
                "all"@,
                cursor_token(cursor),
                index_name_token(idx),
                int_digits(index_count(idx)),
            ],
        ),
        ListingScope::Sub(p) => join_colon(
            seq![
                "categories"@,
                "subcategories"@,
                cursor_token(cursor),
                index_name_token(idx),
                int_digits(index_count(idx)),
                parent_token(crate::category::opt_str_view(p)),
            ],
        ),
    }
}

/// Copies an optional string.
fn clone_opt_str(p: &Option<String>) -> (r: Option<String>)
    ensures
        crate::category::opt_str_view(r) == crate::category::opt_str_view(*p),
{
    match p {
        Some(s) => Some(s.clone()),
        None => None,
    }
}

/// Extracts the cursor and index a listing cache key derives from.
pub fn get_cursor_params(pagination: Option<Pagination>) -> (r: Option<(Option<String>, Index)>)
    ensures
        match r {
            Some(pair) => pagination matches Some(p) && p.index == Some(pair.1) && match (
                pair.0,
                p.cursor_value,
            ) {
                (Some(c), Some(CursorType::After(c2))) => c == c2,
                (Some(c), Some(CursorType::Before(c2))) => c == c2,
                (None, None) => true,
                _ => false,
            },
            None => match pagination {
                Some(p) => p.index is None,
                None => true,
            },
        },
{
    if let Some(pagination) = pagination {
        if let Some(index) = pagination.index {
            let cursor = match pagination.cursor_value {
                Some(CursorType::After(value)) => Some(value),
                Some(CursorType::Before(value)) => Some(value),
                None => None,
            };
            Some((cursor, index))
        } else {
            None
        }
    } else {
        None
    }
}

/// Decides the cache operation for one delivered event.
///
/// Single-row events write or evict the row's key; batch listing events
/// write the listing key derived from the embedded pagination; reserved
/// events are skipped; a payload of the wrong schema is a decode failure.
pub fn process_event(event: &Event, payload: EventPayload) -> (r: Result<CacheDirective, ApiError>)
    ensures
        match (*event, payload) {
            (Event::SetSingle(Entity::Categories), EventPayload::Category(c)) => (r matches Ok(
                CacheDirective::Write { key, payload: pl, ttl_ms },
            ) && key@ == category_key_text(c.id@) && pl == EventPayload::Category(c) && ttl_ms
                == 20000),
            (Event::UpdateSingle(Entity::Categories), EventPayload::Category(c)) => (r matches Ok(
                CacheDirective::Write { key, payload: pl, ttl_ms },
            ) && key@ == category_key_text(c.id@) && pl == EventPayload::Category(c) && ttl_ms
                == 20000),
            (Event::DeleteSingle(Entity::Categories), EventPayload::Category(c)) => (r matches Ok(
                CacheDirective::Remove { key },
            ) && key@ == category_key_text(c.id@)),
            (Event::UpdateBatch(Entity::Categories), EventPayload::Connection(req)) => match req
                .pagination
                .index {
                Some(_) => (r matches Ok(CacheDirective::Write { key, payload: pl, ttl_ms })
                    && key@ == batch_key_text(req) && pl == EventPayload::Connection(req)
                    && ttl_ms == 20000),
                None => r == Ok::<CacheDirective, ApiError>(CacheDirective::Skip),
            },
            (Event::SetBatch(_), _) => r == Ok::<CacheDirective, ApiError>(CacheDirective::Skip),
            (Event::DeleteBatch(_), _) => r == Ok::<CacheDirective, ApiError>(CacheDirective::Skip),
            (Event::CacheUpdateSingle(_), _) => r == Ok::<CacheDirective, ApiError>(CacheDirective::Skip),
            (Event::CacheUpdateBatch(_), _) => r == Ok::<CacheDirective, ApiError>(CacheDirective::Skip),
            _ => r == Err::<CacheDirective, ApiError>(ApiError::Internal),
        },
{
    match event {
        Event::SetSingle(Entity::Categories) | Event::UpdateSingle(Entity::Categories) => {
            match payload {
                EventPayload::Category(c) => {
                    let key = CacheKey::Category(c.id.clone()).render();
                    Ok(CacheDirective::Write {
                        key,
                        payload: EventPayload::Category(c),
                        ttl_ms: 20000,
                    })
                },
                _ => Err(ApiError::Internal),
            }
        },
        Event::DeleteSingle(Entity::Categories) => {
            match payload {
                EventPayload::Category(c) => {
                    let key = CacheKey::Category(c.id.clone()).render();
                    Ok(CacheDirective::Remove { key })
                },
                _ => Err(ApiError::Internal),
            }
        },
        Event::UpdateBatch(Entity::Categories) => {
            match payload {
                EventPayload::Connection(req) => {
                    match &req.pagination.index {
                        Some(idx) => {
                            let cursor: Option<String> = match &req.pagination.cursor_value {
                                Some(CursorType::After(c)) => Some(c.clone()),
                                Some(CursorType::Before(c)) => Some(c.clone()),
                                None => None,
                            };
                            let params = CursorParams { cursor, index: *idx };
                            let key = match &req.scope {
                                ListingScope::All => CacheKey::Categories(params).render(),
                                ListingScope::Sub(p) => CacheKey::CategoriesSubCategory(
                                    params,
                                    clone_opt_str(p),
                                ).render(),
                            };
                            Ok(CacheDirective::Write {
                                key,
                                payload: EventPayload::Connection(req),
                                ttl_ms: 20000,
                            })
                        },
                        None => Ok(CacheDirective::Skip),
                    }
                },
                _ => Err(ApiError::Internal),
            }
        },
        Event::SetBatch(_) => Ok(CacheDirective::Skip),
        Event::DeleteBatch(_) => Ok(CacheDirective::Skip),
        Event::CacheUpdateSingle(_) => Ok(CacheDirective::Skip),
        Event::CacheUpdateBatch(_) => Ok(CacheDirective::Skip),
    }
}

/// The effect of one directive on the cache, as a map of keys to values.
pub open spec fn apply_directive(
    m: Map<Seq<char>, EventPayload>,
    d: CacheDirective,
) -> Map<Seq<char>, EventPayload> {
    match d {
        CacheDirective::Write { key, payload, ttl_ms } => m.insert(key@, payload),
        CacheDirective::Remove { key } => m.remove(key@),
        CacheDirective::Skip => m,
    }
}

/// Worker idempotence: replaying a directive leaves the cache as one
/// application left it — every operation is a write-replace or a delete.
pub proof fn lemma_directive_idempotent(m: Map<Seq<char>, EventPayload>, d: CacheDirective)
    ensures
        apply_directive(apply_directive(m, d), d) == apply_directive(m, d),
{
    match d {
        CacheDirective::Write { key, payload, ttl_ms } => {
            assert(apply_directive(apply_directive(m, d), d) =~= apply_directive(m, d));
        },
        CacheDirective::Remove { key } => {
            assert(apply_directive(apply_directive(m, d), d) =~= apply_directive(m, d));
        },
        CacheDirective::Skip => {},
    }
}

/// Delete visibility: once a removal directive is applied, the key reads
/// empty.
pub proof fn lemma_delete_visibility(m: Map<Seq<char>, EventPayload>, d: CacheDirective)
    ensures
        match d {
            CacheDirective::Remove { key } => !apply_directive(m, d).dom().contains(key@),
            _ => true,
        },
{
}

} // verus!
