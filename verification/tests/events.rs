//! The event <-> subject bijection.
use sellershut::events::{Entity, Event};

fn all_events() -> Vec<Event> {
    vec![
        Event::SetSingle(Entity::Categories),
        Event::SetBatch(Entity::Categories),
        Event::UpdateSingle(Entity::Categories),
        Event::UpdateBatch(Entity::Categories),
        Event::DeleteSingle(Entity::Categories),
        Event::DeleteBatch(Entity::Categories),
        Event::CacheUpdateSingle(Entity::Categories),
        Event::CacheUpdateBatch(Entity::Categories),
    ]
}

#[test]
fn subjects_are_exact() {
    assert_eq!(Event::SetSingle(Entity::Categories).subject(), "categories.update.index.set.single");
    assert_eq!(Event::SetBatch(Entity::Categories).subject(), "categories.update.index.set.batch");
    assert_eq!(
        Event::UpdateSingle(Entity::Categories).subject(),
        "categories.update.index.update.single"
    );
    assert_eq!(
        Event::UpdateBatch(Entity::Categories).subject(),
        "categories.update.index.update.batch"
    );
    assert_eq!(
        Event::DeleteSingle(Entity::Categories).subject(),
        "categories.update.index.delete.single"
    );
    assert_eq!(
        Event::DeleteBatch(Entity::Categories).subject(),
        "categories.update.index.delete.batch"
    );
    assert_eq!(
        Event::CacheUpdateSingle(Entity::Categories).subject(),
        "categories.update.set.single"
    );
    assert_eq!(Event::CacheUpdateBatch(Entity::Categories).subject(), "categories.update.set.batch");
}

#[test]
fn parse_inverts_subject() {
    for e in all_events() {
        assert_eq!(Event::parse(&e.subject()), Some(e));
    }
}

#[test]
fn parse_rejects_outside_grammar() {
    assert_eq!(Event::parse(""), None);
    assert_eq!(Event::parse("users.update.index.set.single"), None);
    assert_eq!(Event::parse("categories.update.index.set"), None);
    assert_eq!(Event::parse("categories.update.index.set.single.extra"), None);
    assert_eq!(Event::parse("CATEGORIES.UPDATE.INDEX.SET.SINGLE"), None);
    assert_eq!(Entity::parse("categories"), Some(Entity::Categories));
    assert_eq!(Entity::parse("users"), None);
}
