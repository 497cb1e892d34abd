//! Event vocabulary: the subject grammar and the (entity, action) <-> subject
//! bijection that the publisher and the cache-update worker share.
use vstd::prelude::*;

use crate::text::str_eq;

verus! {

/// Entity type.
#[derive(Debug, Clone, Copy, PartialEq, Eq, Structural)]
pub enum Entity {
    /// Categories
    Categories,
}

/// Events carried on the durable log.
#[derive(Debug, Clone, Copy, PartialEq, Eq, Structural)]
pub enum Event {
    /// Sets a single item in cache and search index
    SetSingle(Entity),
    /// Sets a batch of items in cache and search index
    SetBatch(Entity),
    /// Updates a single item in cache and search index
    UpdateSingle(Entity),
    /// Updates a batch of items in cache and search index
    UpdateBatch(Entity),
    /// Deletes a single item from cache and search index
    DeleteSingle(Entity),
    /// Deletes a batch of items from cache and search index
    DeleteBatch(Entity),
    /// Updates a single item in cache only
    CacheUpdateSingle(Entity),
    /// Updates a batch of items in cache only
    CacheUpdateBatch(Entity),
}

/// The broker subject an event is published on.
pub open spec fn subject_of(e: Event) -> Seq<char> {
    match e {
        Event::SetSingle(_) => "categories.update.index.set.single"@,
        Event::SetBatch(_) => "categories.update.index.set.batch"@,
        Event::UpdateSingle(_) => "categories.update.index.update.single"@,
        Event::UpdateBatch(_) => "categories.update.index.update.batch"@,
        Event::DeleteSingle(_) => "categories.update.index.delete.single"@,
        Event::DeleteBatch(_) => "categories.update.index.delete.batch"@,
        Event::CacheUpdateSingle(_) => "categories.update.set.single"@,
        Event::CacheUpdateBatch(_) => "categories.update.set.batch"@,
    }
}

/// The event a subject denotes; `None` for anything outside the grammar.
pub open spec fn parse_subject(s: Seq<char>) -> Option<Event> {
    if s == subject_of(Event::SetSingle(Entity::Categories)) {
        Some(Event::SetSingle(Entity::Categories))
    } else if s == subject_of(Event::SetBatch(Entity::Categories)) {
        Some(Event::SetBatch(Entity::Categories))
    } else if s == subject_of(Event::UpdateSingle(Entity::Categories)) {
        Some(Event::UpdateSingle(Entity::Categories))
    } else if s == subject_of(Event::UpdateBatch(Entity::Categories)) {
        Some(Event::UpdateBatch(Entity::Categories))
    } else if s == subject_of(Event::DeleteSingle(Entity::Categories)) {
        Some(Event::DeleteSingle(Entity::Categories))
    } else if s == subject_of(Event::DeleteBatch(Entity::Categories)) {
        Some(Event::DeleteBatch(Entity::Categories))
    } else if s == subject_of(Event::CacheUpdateSingle(Entity::Categories)) {
        Some(Event::CacheUpdateSingle(Entity::Categories))
    } else if s == subject_of(Event::CacheUpdateBatch(Entity::Categories)) {
        Some(Event::CacheUpdateBatch(Entity::Categories))
    } else {
        None
    }
}

/// Distinct events have distinct subjects.
pub proof fn lemma_subjects_distinct(e1: Event, e2: Event)
    ensures
        e1 != e2 ==> subject_of(e1) != subject_of(e2),
{
    reveal_strlit("categories.update.index.set.single");
    reveal_strlit("categories.update.index.set.batch");
    reveal_strlit("categories.update.index.update.single");
    reveal_strlit("categories.update.index.update.batch");
    reveal_strlit("categories.update.index.delete.single");
    reveal_strlit("categories.update.index.delete.batch");
    reveal_strlit("categories.update.set.single");
    reveal_strlit("categories.update.set.batch");
    assert("categories.update.index.set.single"@.len() == 34);
    assert("categories.update.index.set.batch"@.len() == 33);
    assert("categories.update.index.update.single"@.len() == 37);
    assert("categories.update.index.update.batch"@.len() == 36);
    assert("categories.update.index.delete.single"@.len() == 37);
    assert("categories.update.index.delete.batch"@.len() == 36);
    assert("categories.update.set.single"@.len() == 28);
    assert("categories.update.set.batch"@.len() == 27);
    assert("categories.update.index.update.single"@[24]
        != "categories.update.index.delete.single"@[24]);
    assert("categories.update.index.update.batch"@[24]
        != "categories.update.index.delete.batch"@[24]);
    assert("categories.update.index.update.single"@
        != "categories.update.index.delete.single"@);
    assert("categories.update.index.update.batch"@ != "categories.update.index.delete.batch"@);
}

/// The subject map is injective over events.
pub proof fn lemma_subject_injective(e1: Event, e2: Event)
    requires
        subject_of(e1) == subject_of(e2),
    ensures
        e1 == e2,
{
    lemma_subjects_distinct(e1, e2);
}

/// Parsing the subject of an event yields that event back.
pub proof fn lemma_subject_roundtrip(e: Event)
    ensures
        parse_subject(subject_of(e)) == Some(e),
{
    lemma_subjects_distinct(e, Event::SetSingle(Entity::Categories));
    lemma_subjects_distinct(e, Event::SetBatch(Entity::Categories));
    lemma_subjects_distinct(e, Event::UpdateSingle(Entity::Categories));
    lemma_subjects_distinct(e, Event::UpdateBatch(Entity::Categories));
    lemma_subjects_distinct(e, Event::DeleteSingle(Entity::Categories));
    lemma_subjects_distinct(e, Event::DeleteBatch(Entity::Categories));
    lemma_subjects_distinct(e, Event::CacheUpdateSingle(Entity::Categories));
    lemma_subjects_distinct(e, Event::CacheUpdateBatch(Entity::Categories));
}

/// A string that is no event's subject does not parse.
pub proof fn lemma_parse_subject_none(s: Seq<char>)
    ensures
        parse_subject(s) is None <==> (forall|e: Event| s != subject_of(e)),
{
}

impl Entity {
    /// The name of the entity as it appears in subjects.
    pub fn name(&self) -> (r: String)
        ensures
            r@ == "categories"@,
    {
        String::from_str("categories")
    }

    /// Parses an entity name.
    pub fn parse(s: &str) -> (r: Option<Entity>)
        ensures
            match r {
                Some(_) => s@ == "categories"@,
                None => s@ != "categories"@,
            },
    {
        if str_eq(s, "categories") {
            Some(Entity::Categories)
        } else {
            None
        }
    }
}

impl Event {
    /// Renders the subject this event is published on.
    pub fn subject(&self) -> (r: String)
        ensures
            r@ == subject_of(*self),
    {
        match self {
            Event::SetSingle(_) => String::from_str("categories.update.index.set.single"),
            Event::SetBatch(_) => String::from_str("categories.update.index.set.batch"),
            Event::UpdateSingle(_) => String::from_str("categories.update.index.update.single"),
            Event::UpdateBatch(_) => String::from_str("categories.update.index.update.batch"),
            Event::DeleteSingle(_) => String::from_str("categories.update.index.delete.single"),
            Event::DeleteBatch(_) => String::from_str("categories.update.index.delete.batch"),
            Event::CacheUpdateSingle(_) => String::from_str("categories.update.set.single"),
            Event::CacheUpdateBatch(_) => String::from_str("categories.update.set.batch"),
        }
    }

    /// Parses a subject back to its event; rejects anything else.
    pub fn parse(s: &str) -> (r: Option<Event>)
        ensures
            r == parse_subject(s@),
    {
        if str_eq(s, "categories.update.index.set.single") {
            Some(Event::SetSingle(Entity::Categories))
        } else if str_eq(s, "categories.update.index.set.batch") {
            Some(Event::SetBatch(Entity::Categories))
        } else if str_eq(s, "categories.update.index.update.single") {
            Some(Event::UpdateSingle(Entity::Categories))
        } else if str_eq(s, "categories.update.index.update.batch") {
            Some(Event::UpdateBatch(Entity::Categories))
        } else if str_eq(s, "categories.update.index.delete.single") {
            Some(Event::DeleteSingle(Entity::Categories))
        } else if str_eq(s, "categories.update.index.delete.batch") {
            Some(Event::DeleteBatch(Entity::Categories))
        } else if str_eq(s, "categories.update.set.single") {
            Some(Event::CacheUpdateSingle(Entity::Categories))
        } else if str_eq(s, "categories.update.set.batch") {
            Some(Event::CacheUpdateBatch(Entity::Categories))
        } else {
            None
        }
    }
}

} // verus!
