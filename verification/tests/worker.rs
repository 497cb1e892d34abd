//! The cache-update worker: directives, idempotence, delete visibility.
use std::collections::HashMap;

use sellershut::category::Category;
use sellershut::connection::{
    Connection, ConnectionCacheRequest, ListingScope, PageInfo,
};
use sellershut::events::{Entity, Event};
use sellershut::keys::{CacheKey, CursorParams, Index};
use sellershut::pagination::Pagination;
use sellershut::timestamp::Timestamp;
use sellershut::worker::{get_cursor_params, process_event, CacheDirective, EventPayload};

fn sample_category() -> Category {
    Category {
        id: "aaaaaaaaaaaaaaaaaaaa2".to_string(),
        name: "alpha".to_string(),
        sub_categories: vec![],
        image_url: None,
        parent_id: None,
        created_at: Timestamp { seconds: 100, nanos: 0 },
        updated_at: Timestamp { seconds: 100, nanos: 0 },
    }
}

fn batch_payload() -> ConnectionCacheRequest {
    ConnectionCacheRequest {
        connection: Connection {
            edges: vec![],
            page_info: PageInfo { has_next_page: false, has_previous_page: false },
        },
        pagination: Pagination { cursor_value: None, index: Some(Index::First(10)) },
        scope: ListingScope::All,
    }
}

/// Applies a directive to an in-memory cache the way the service's cache
/// client would.
fn apply(cache: &mut HashMap<String, EventPayload>, d: &CacheDirective) {
    match d {
        CacheDirective::Write { key, payload, ttl_ms } => {
            assert_eq!(*ttl_ms, 20000);
            cache.insert(key.clone(), payload.clone());
        }
        CacheDirective::Remove { key } => {
            cache.remove(key);
        }
        CacheDirective::Skip => {}
    }
}

#[test]
fn set_single_writes_the_row_key() {
    let c = sample_category();
    let d = process_event(
        &Event::SetSingle(Entity::Categories),
        EventPayload::Category(c.clone()),
    )
    .unwrap();
    match &d {
        CacheDirective::Write { key, payload, ttl_ms } => {
            assert_eq!(key, "categories:id=aaaaaaaaaaaaaaaaaaaa2");
            assert_eq!(*payload, EventPayload::Category(c));
            assert_eq!(*ttl_ms, 20000);
        }
        _ => panic!("expected a write directive"),
    }
}

#[test]
fn replay_is_idempotent() {
    let c = sample_category();
    let d = process_event(
        &Event::UpdateSingle(Entity::Categories),
        EventPayload::Category(c),
    )
    .unwrap();
    let mut once: HashMap<String, EventPayload> = HashMap::new();
    apply(&mut once, &d);
    let mut twice = once.clone();
    apply(&mut twice, &d);
    assert_eq!(once, twice);
}

#[test]
fn delete_single_evicts_and_stays_evicted() {
    let c = sample_category();
    let key = CacheKey::Category(c.id.clone()).render();
    let mut cache: HashMap<String, EventPayload> = HashMap::new();
    cache.insert(key.clone(), EventPayload::Category(c.clone()));

    let d = process_event(
        &Event::DeleteSingle(Entity::Categories),
        EventPayload::Category(c),
    )
    .unwrap();
    apply(&mut cache, &d);
    assert!(cache.get(&key).is_none());
    // replaying the delete leaves the cache unchanged
    let before = cache.clone();
    apply(&mut cache, &d);
    assert_eq!(cache, before);
}

#[test]
fn update_batch_writes_the_listing_key() {
    let req = batch_payload();
    let expected_key = CacheKey::Categories(CursorParams {
        cursor: None,
        index: Index::First(10),
    })
    .render();
    let d = process_event(
        &Event::UpdateBatch(Entity::Categories),
        EventPayload::Connection(req.clone()),
    )
    .unwrap();
    match &d {
        CacheDirective::Write { key, payload, .. } => {
            assert_eq!(*key, expected_key);
            assert_eq!(*payload, EventPayload::Connection(req));
        }
        _ => panic!("expected a write directive"),
    }
}

#[test]
fn update_batch_without_index_is_skipped() {
    let mut req = batch_payload();
    req.pagination.index = None;
    let d = process_event(
        &Event::UpdateBatch(Entity::Categories),
        EventPayload::Connection(req),
    )
    .unwrap();
    assert_eq!(d, CacheDirective::Skip);
}

#[test]
fn reserved_events_are_skipped() {
    let c = sample_category();
    for e in [
        Event::SetBatch(Entity::Categories),
        Event::DeleteBatch(Entity::Categories),
        Event::CacheUpdateSingle(Entity::Categories),
        Event::CacheUpdateBatch(Entity::Categories),
    ] {
        let d = process_event(&e, EventPayload::Category(c.clone())).unwrap();
        assert_eq!(d, CacheDirective::Skip);
    }
}

#[test]
fn mismatched_payload_is_a_decode_failure() {
    let c = sample_category();
    assert!(process_event(
        &Event::UpdateBatch(Entity::Categories),
        EventPayload::Category(c.clone()),
    )
    .is_err());
    assert!(process_event(
        &Event::SetSingle(Entity::Categories),
        EventPayload::Connection(batch_payload()),
    )
    .is_err());
}

#[test]
fn cursor_params_extraction() {
    let p = Pagination { cursor_value: None, index: Some(Index::Last(7)) };
    assert_eq!(get_cursor_params(Some(p)), Some((None, Index::Last(7))));
    let missing = Pagination { cursor_value: None, index: None };
    assert_eq!(get_cursor_params(Some(missing)), None);
    assert_eq!(get_cursor_params(None), None);
}
