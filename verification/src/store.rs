//! The store of record, modelled as rows sorted by the pagination key
//! `(created_at, id)`: the write path's row semantics and the keyset
//! queries the listing read path issues.
use vstd::prelude::*;

use crate::ApiError;
use crate::category::{valid_category, Category};
use crate::timestamp::{ts_valid, Timestamp};

verus! {

/// Lexicographic order on ids by code point.
pub open spec fn id_lt(a: Seq<char>, b: Seq<char>) -> bool
    decreases a.len(),
{
    if b.len() == 0 {
        false
    } else if a.len() == 0 {
        true
    } else if a[0] != b[0] {
        (a[0] as int) < (b[0] as int)
    } else {
        id_lt(a.drop_first(), b.drop_first())
    }
}

/// The id order is irreflexive, asymmetric and total.
pub proof fn lemma_id_lt_props(a: Seq<char>, b: Seq<char>)
    ensures
        !(id_lt(a, b) && id_lt(b, a)),
        a == b <==> (!id_lt(a, b) && !id_lt(b, a)),
    decreases a.len() + b.len(),
{
    if a.len() == 0 && b.len() == 0 {
        assert(a =~= b);
    } else if a.len() == 0 {
        assert(id_lt(a, b));
        assert(a.len() != b.len());
    } else if b.len() == 0 {
        assert(id_lt(b, a));
        assert(a.len() != b.len());
    } else {
        lemma_id_lt_props(a.drop_first(), b.drop_first());
        if a[0] != b[0] {
            assert(a != b);
            assert(a[0] as int != b[0] as int);
        } else {
            if a.drop_first() == b.drop_first() {
                assert(a =~= b) by {
                    assert forall|i: int| 0 <= i < a.len() implies a[i] == b[i] by {
                        if i > 0 {
                            assert(a[i] == a.drop_first()[i - 1]);
                            assert(b[i] == b.drop_first()[i - 1]);
                        }
                    }
                }
            } else {
                assert(a != b);
            }
        }
    }
}

/// The id order is transitive.
pub proof fn lemma_id_lt_trans(a: Seq<char>, b: Seq<char>, c: Seq<char>)
    requires
        id_lt(a, b),
        id_lt(b, c),
    ensures
        id_lt(a, c),
    decreases a.len() + b.len() + c.len(),
{
    if c.len() == 0 {
    } else if b.len() == 0 {
    } else if a.len() == 0 {
    } else {
        if a[0] == b[0] && b[0] == c[0] {
            lemma_id_lt_trans(a.drop_first(), b.drop_first(), c.drop_first());
        }
    }
}

/// The pagination key order: by instant, then by id.
pub open spec fn key_lt(t1: Timestamp, i1: Seq<char>, t2: Timestamp, i2: Seq<char>) -> bool {
    t1.spec_lt(t2) || (t1 == t2 && id_lt(i1, i2))
}

/// A row strictly before another in the listing order.
pub open spec fn row_lt(a: Category, b: Category) -> bool {
    key_lt(a.created_at, a.id@, b.created_at, b.id@)
}

/// The key order is transitive.
pub proof fn lemma_key_lt_trans(
    t1: Timestamp,
    i1: Seq<char>,
    t2: Timestamp,
    i2: Seq<char>,
    t3: Timestamp,
    i3: Seq<char>,
)
    requires
        key_lt(t1, i1, t2, i2),
        key_lt(t2, i2, t3, i3),
    ensures
        key_lt(t1, i1, t3, i3),
{
    if t1 == t2 && t2 == t3 {
        lemma_id_lt_trans(i1, i2, i3);
    }
}

/// Rows in strictly ascending key order.
pub open spec fn sorted(s: Seq<Category>) -> bool {
    forall|i: int, j: int| 0 <= i < j < s.len() ==> row_lt(#[trigger] s[i], #[trigger] s[j])
}

/// Pairwise distinct ids.
pub open spec fn distinct_ids(s: Seq<Category>) -> bool {
    forall|i: int, j: int|
        0 <= i < j < s.len() ==> (#[trigger] s[i]).id@ != (#[trigger] s[j]).id@
}

/// A well-formed table: sorted, valid rows, unique ids.
pub open spec fn wf_rows(s: Seq<Category>) -> bool {
    &&& sorted(s)
    &&& distinct_ids(s)
    &&& forall|i: int| 0 <= i < s.len() ==> valid_category(#[trigger] s[i])
}

/// How many rows are not after the cursor key: `created_at < t`, or equal
/// `created_at` and `id <= i`.
pub open spec fn count_le(s: Seq<Category>, t: Timestamp, id: Seq<char>) -> int
    decreases s.len(),
{
    if s.len() == 0 {
        0
    } else {
        (if !key_lt(t, id, s[0].created_at, s[0].id@) {
            1int
        } else {
            0int
        }) + count_le(s.drop_first(), t, id)
    }
}

/// How many rows are strictly before the cursor key.
pub open spec fn count_lt(s: Seq<Category>, t: Timestamp, id: Seq<char>) -> int
    decreases s.len(),
{
    if s.len() == 0 {
        0
    } else {
        (if key_lt(s[0].created_at, s[0].id@, t, id) {
            1int
        } else {
            0int
        }) + count_lt(s.drop_first(), t, id)
    }
}

/// On a sorted table the rows not after the cursor form the prefix of
/// length `count_le`.
pub proof fn lemma_count_le_boundary(s: Seq<Category>, t: Timestamp, id: Seq<char>)
    requires
        sorted(s),
    ensures
        0 <= count_le(s, t, id) <= s.len(),
        forall|i: int|
            0 <= i < s.len() ==> (i < count_le(s, t, id) <==> !key_lt(
                t,
                id,
                (#[trigger] s[i]).created_at,
                s[i].id@,
            )),
    decreases s.len(),
{
    if s.len() > 0 {
        let rest = s.drop_first();
        assert(sorted(rest)) by {
            assert forall|i: int, j: int| 0 <= i < j < rest.len() implies row_lt(
                #[trigger] rest[i],
                #[trigger] rest[j],
            ) by {
                assert(rest[i] == s[i + 1]);
                assert(rest[j] == s[j + 1]);
            }
        }
        lemma_count_le_boundary(rest, t, id);
        if key_lt(t, id, s[0].created_at, s[0].id@) {
            // the head is after the cursor; so is every later row
            assert(count_le(s, t, id) == count_le(rest, t, id));
            assert forall|i: int| 0 <= i < rest.len() implies key_lt(
                t,
                id,
                (#[trigger] rest[i]).created_at,
                rest[i].id@,
            ) by {
                assert(row_lt(s[0], s[i + 1]));
                assert(rest[i] == s[i + 1]);
                lemma_key_lt_trans(
                    t,
                    id,
                    s[0].created_at,
                    s[0].id@,
                    rest[i].created_at,
                    rest[i].id@,
                );
            }
            assert(count_le(rest, t, id) == 0) by {
                if count_le(rest, t, id) > 0 {
                    assert(!key_lt(t, id, rest[0].created_at, rest[0].id@));
                }
            }
            assert forall|i: int| 0 <= i < s.len() implies (i < count_le(s, t, id) <==> !key_lt(
                t,
                id,
                (#[trigger] s[i]).created_at,
                s[i].id@,
            )) by {
                if i > 0 {
                    assert(s[i] == rest[i - 1]);
                }
            }
        } else {
            assert(count_le(s, t, id) == 1 + count_le(rest, t, id));
            assert forall|i: int| 0 <= i < s.len() implies (i < count_le(s, t, id) <==> !key_lt(
                t,
                id,
                (#[trigger] s[i]).created_at,
                s[i].id@,
            )) by {
                if i > 0 {
                    assert(s[i] == rest[i - 1]);
                }
            }
        }
    }
}

/// On a sorted table the rows before the cursor form the prefix of length
/// `count_lt`.
pub proof fn lemma_count_lt_boundary(s: Seq<Category>, t: Timestamp, id: Seq<char>)
    requires
        sorted(s),
    ensures
        0 <= count_lt(s, t, id) <= s.len(),
        forall|i: int|
            0 <= i < s.len() ==> (i < count_lt(s, t, id) <==> key_lt(
                (#[trigger] s[i]).created_at,
                s[i].id@,
                t,
                id,
            )),
    decreases s.len(),
{
    if s.len() > 0 {
        let rest = s.drop_first();
        assert(sorted(rest)) by {
            assert forall|i: int, j: int| 0 <= i < j < rest.len() implies row_lt(
                #[trigger] rest[i],
                #[trigger] rest[j],
            ) by {
                assert(rest[i] == s[i + 1]);
                assert(rest[j] == s[j + 1]);
            }
        }
        lemma_count_lt_boundary(rest, t, id);
        if key_lt(s[0].created_at, s[0].id@, t, id) {
            assert forall|i: int| 0 <= i < s.len() implies (i < count_lt(s, t, id) <==> key_lt(
                (#[trigger] s[i]).created_at,
                s[i].id@,
                t,
                id,
            )) by {
                if i > 0 {
                    assert(s[i] == rest[i - 1]);
                }
            }
        } else {
            // the head is not before the cursor; no later row is either
            assert forall|i: int| 0 <= i < rest.len() implies !key_lt(
                (#[trigger] rest[i]).created_at,
                rest[i].id@,
                t,
                id,
            ) by {
                assert(rest[i] == s[i + 1]);
                assert(row_lt(s[0], s[i + 1]));
                if key_lt(rest[i].created_at, rest[i].id@, t, id) {
                    lemma_key_lt_trans(
                        s[0].created_at,
                        s[0].id@,
                        rest[i].created_at,
                        rest[i].id@,
                        t,
                        id,
                    );
                }
            }
            assert(count_lt(rest, t, id) == 0) by {
                if count_lt(rest, t, id) > 0 {
                    assert(key_lt(rest[0].created_at, rest[0].id@, t, id));
                }
            }
            assert forall|i: int| 0 <= i < s.len() implies (i < count_lt(s, t, id) <==> key_lt(
                (#[trigger] s[i]).created_at,
                s[i].id@,
                t,
                id,
            )) by {
                if i > 0 {
                    assert(s[i] == rest[i - 1]);
                }
            }
        }
    }
}

/// The row holding an id, scanning from the front.
pub open spec fn by_id_spec(s: Seq<Category>, id: Seq<char>) -> Option<Category>
    decreases s.len(),
{
    if s.len() == 0 {
        None
    } else if s[0].id@ == id {
        Some(s[0])
    } else {
        by_id_spec(s.drop_first(), id)
    }
}

/// A table with distinct ids finds each of its rows by id.
pub proof fn lemma_by_id_present(s: Seq<Category>, i: int)
    requires
        distinct_ids(s),
        0 <= i < s.len(),
    ensures
        by_id_spec(s, s[i].id@) == Some(s[i]),
    decreases s.len(),
{
    if i == 0 {
    } else {
        let rest = s.drop_first();
        assert(distinct_ids(rest)) by {
            assert forall|a: int, b: int| 0 <= a < b < rest.len() implies (
            #[trigger] rest[a]).id@ != (#[trigger] rest[b]).id@ by {
                assert(rest[a] == s[a + 1]);
                assert(rest[b] == s[b + 1]);
            }
        }
        assert(rest[i - 1] == s[i]);
        lemma_by_id_present(rest, i - 1);
        assert(s[0].id@ != s[i].id@);
    }
}

/// No row answers to an id that none holds.
pub proof fn lemma_by_id_absent(s: Seq<Category>, id: Seq<char>)
    requires
        forall|i: int| 0 <= i < s.len() ==> (#[trigger] s[i]).id@ != id,
    ensures
        by_id_spec(s, id) == None::<Category>,
    decreases s.len(),
{
    if s.len() > 0 {
        let rest = s.drop_first();
        assert(forall|i: int| 0 <= i < rest.len() ==> (#[trigger] rest[i]).id@ != id) by {
            assert(forall|i: int|
                0 <= i < rest.len() ==> #[trigger] rest[i] == s[i + 1]);
        }
        lemma_by_id_absent(rest, id);
    }
}

/// An id that no lookup finds is held by no row.
pub proof fn lemma_by_id_none_forall(s: Seq<Category>, id: Seq<char>)
    requires
        by_id_spec(s, id) is None,
    ensures
        forall|i: int| 0 <= i < s.len() ==> (#[trigger] s[i]).id@ != id,
    decreases s.len(),
{
    if s.len() > 0 {
        lemma_by_id_none_forall(s.drop_first(), id);
        assert forall|i: int| 0 <= i < s.len() implies (#[trigger] s[i]).id@ != id by {
            if i > 0 {
                assert(s[i] == s.drop_first()[i - 1]);
            }
        }
    }
}

/// The authoritative table.
#[derive(Clone, Debug)]
pub struct Store {
    /// Rows in ascending `(created_at, id)` order.
    pub rows: Vec<Category>,
}

impl Store {
    /// A well-formed store.
    pub open spec fn wf(&self) -> bool {
        wf_rows(self.rows@)
    }

    /// An empty table.
    pub fn new() -> (r: Store)
        ensures
            r.wf(),
            r.rows@.len() == 0,
    {
        Store { rows: Vec::new() }
    }

    /// Decides the key order against a cursor key.
    fn row_after_cursor(row: &Category, t: &Timestamp, id: &str) -> (r: bool)
        ensures
            r == key_lt(*t, id@, row.created_at, row.id@),
    {
        if t.lt(&row.created_at) {
            true
        } else if row.created_at.lt(t) {
            false
        } else {
            id_lt_x(id, row.id.as_str())
        }
    }

    /// Decides whether a row is strictly before a cursor key.
    fn row_before_cursor(row: &Category, t: &Timestamp, id: &str) -> (r: bool)
        ensures
            r == key_lt(row.created_at, row.id@, *t, id@),
    {
        if row.created_at.lt(t) {
            true
        } else if t.lt(&row.created_at) {
            false
        } else {
            id_lt_x(row.id.as_str(), id)
        }
    }

    /// Looks a row up by primary key.
    pub fn by_id(&self, id: &str) -> (r: Option<&Category>)
        ensures
            match r {
                Some(c) => by_id_spec(self.rows@, id@) == Some(*c),
                None => by_id_spec(self.rows@, id@) is None,
            },
    {
        let n = self.rows.len();
        let mut i: usize = 0;
        proof {
            assert(self.rows@.skip(0) =~= self.rows@);
        }
        while i < n
            invariant
                n == self.rows@.len(),
                0 <= i <= n,
                by_id_spec(self.rows@, id@) == by_id_spec(self.rows@.skip(i as int), id@),
            decreases n - i,
        {
            proof {
                assert(self.rows@.skip(i as int)[0] == self.rows@[i as int]);
                assert(self.rows@.skip(i as int).drop_first() =~= self.rows@.skip(i + 1));
            }
            let row = vstd::slice::slice_index_get(self.rows.as_slice(), i);
            if crate::text::str_eq(row.id.as_str(), id) {
                return Some(row);
            }
            i += 1;
        }
        proof {
            assert(self.rows@.skip(n as int).len() == 0);
        }
        None
    }

    /// Inserts a freshly created row at its key position.
    ///
    /// Fails without changing the table when the id is already taken, as the
    /// store's unique-key constraint would.
    pub fn create(&mut self, row: Category) -> (r: Result<(), ApiError>)
        requires
            old(self).wf(),
            valid_category(row),
        ensures
            final(self).wf(),
            match r {
                Ok(()) => by_id_spec(old(self).rows@, row.id@) is None && final(self).rows@ == old(
                    self,
                ).rows@.insert(count_le(old(self).rows@, row.created_at, row.id@), row),
                Err(e) => e == ApiError::Internal && by_id_spec(old(self).rows@, row.id@) is Some
                    && *final(self) == *old(self),
            },
    {
        if self.by_id(row.id.as_str()).is_some() {
            return Err(ApiError::Internal);
        }
        let ghost rows0 = self.rows@;
        let n = self.rows.len();
        let mut i: usize = 0;
        let mut stop: bool = false;
        while i < n && !stop
            invariant
                n == self.rows@.len(),
                0 <= i <= n,
                self.rows@ == rows0,
                sorted(rows0),
                stop ==> i < n && key_lt(
                    row.created_at,
                    row.id@,
                    rows0[i as int].created_at,
                    rows0[i as int].id@,
                ),
                forall|j: int|
                    0 <= j < i ==> !key_lt(
                        row.created_at,
                        row.id@,
                        (#[trigger] rows0[j]).created_at,
                        rows0[j].id@,
                    ),
            decreases n - i + (if stop { 0int } else { 1int }),
        {
            let after = Self::row_after_cursor(
                vstd::slice::slice_index_get(self.rows.as_slice(), i),
                &row.created_at,
                row.id.as_str(),
            );
            if after {
                stop = true;
            } else {
                i += 1;
            }
        }
        proof {
            lemma_by_id_none_forall(rows0, row.id@);
            lemma_count_le_boundary(rows0, row.created_at, row.id@);
            assert(count_le(rows0, row.created_at, row.id@) == i) by {
                if stop {
                    assert(key_lt(row.created_at, row.id@, rows0[i as int].created_at, rows0[
                        i as int].id@));
                }
                if count_le(rows0, row.created_at, row.id@) > i {
                    assert(!key_lt(row.created_at, row.id@, rows0[i as int].created_at, rows0[
                        i as int].id@));
                }
                if count_le(rows0, row.created_at, row.id@) < i {
                    let k = count_le(rows0, row.created_at, row.id@);
                    assert(!key_lt(row.created_at, row.id@, rows0[k].created_at, rows0[k].id@));
                }
            }
        }
        self.rows.insert(i, row);
        proof {
            let s1 = self.rows@;
            let pos = i as int;
            assert(s1 == rows0.insert(pos, row));
            assert forall|a: int| 0 <= a < s1.len() implies valid_category(#[trigger] s1[a]) by {
                if a < pos {
                    assert(s1[a] == rows0[a]);
                } else if a == pos {
                    assert(s1[a] == row);
                } else {
                    assert(s1[a] == rows0[a - 1]);
                }
            }
            assert forall|a: int, b: int| 0 <= a < b < s1.len() implies row_lt(
                #[trigger] s1[a],
                #[trigger] s1[b],
            ) by {
                lemma_insert_position(rows0, row, pos, a, b);
            }
            assert forall|a: int, b: int| 0 <= a < b < s1.len() implies (#[trigger] s1[a]).id@ != (
            #[trigger] s1[b]).id@ by {
                lemma_insert_position(rows0, row, pos, a, b);
                assert(row_lt(s1[a], s1[b]));
                if s1[a].id@ == s1[b].id@ {
                    lemma_id_lt_props(s1[a].id@, s1[b].id@);
                }
            }
        }
        Ok(())
    }

    /// Rewrites a row's mutable fields, stamping the update instant.
    ///
    /// The id and creation instant stay; fails with the row missing.
    pub fn update(&mut self, input: Category, now: Timestamp) -> (r: Result<(), ApiError>)
        requires
            old(self).wf(),
            valid_category(input),
            ts_valid(now),
        ensures
            final(self).wf(),
            match r {
                Ok(()) => exists|i: int|
                    0 <= i < old(self).rows@.len() && (#[trigger] old(self).rows@[i]).id@
                        == input.id@ && final(self).rows@ == old(self).rows@.update(
                        i,
                        Category {
                            id: input.id,
                            name: input.name,
                            sub_categories: input.sub_categories,
                            image_url: input.image_url,
                            parent_id: input.parent_id,
                            created_at: old(self).rows@[i].created_at,
                            updated_at: now,
                        },
                    ),
                Err(e) => *final(self) == *old(self) && e == ApiError::NotFound && by_id_spec(
                    old(self).rows@,
                    input.id@,
                ) is None,
            },
    {
        let ghost rows0 = self.rows@;
        let n = self.rows.len();
        let mut i: usize = 0;
        proof {
            assert(rows0.skip(0) =~= rows0);
        }
        while i < n
            invariant
                n == self.rows@.len(),
                self.rows@ == rows0,
                *self == *old(self),
                rows0 == old(self).rows@,
                wf_rows(rows0),
                valid_category(input),
                ts_valid(now),
                0 <= i <= n,
                by_id_spec(rows0, input.id@) == by_id_spec(rows0.skip(i as int), input.id@),
                forall|j: int| 0 <= j < i ==> (#[trigger] rows0[j]).id@ != input.id@,
            decreases n - i,
        {
            proof {
                assert(rows0.skip(i as int)[0] == rows0[i as int]);
                assert(rows0.skip(i as int).drop_first() =~= rows0.skip(i + 1));
            }
            let hit = {
                let row = vstd::slice::slice_index_get(self.rows.as_slice(), i);
                crate::text::str_eq(row.id.as_str(), input.id.as_str())
            };
            if hit {
                proof {
                    assert(self.rows@[i as int] == rows0[i as int]);
                    assert(self.rows@[i as int].id@ == input.id@);
                }
                let created_at = vstd::slice::slice_index_get(self.rows.as_slice(), i).created_at;
                let fresh = Category {
                    id: input.id,
                    name: input.name,
                    sub_categories: input.sub_categories,
                    image_url: input.image_url,
                    parent_id: input.parent_id,
                    created_at,
                    updated_at: now,
                };
                let ghost fresh_g = fresh;
                self.rows.set(i, fresh);
                proof {
                    assert(self.rows@ == rows0.update(i as int, fresh_g));
                    assert(fresh_g.id@ == rows0[i as int].id@);
                    assert(fresh_g.created_at == rows0[i as int].created_at);
                    lemma_update_keeps_wf(rows0, i as int, fresh_g);
                }
                return Ok(());
            }
            i += 1;
        }
        proof {
            assert(rows0.skip(n as int).len() == 0);
        }
        Err(ApiError::NotFound)
    }

    /// Removes a row by id, returning it.
    ///
    /// Fails with the row missing.
    pub fn delete(&mut self, id: &str) -> (r: Result<Category, ApiError>)
        requires
            old(self).wf(),
        ensures
            final(self).wf(),
            match r {
                Ok(c) => by_id_spec(old(self).rows@, id@) == Some(c) && (exists|i: int|
                    0 <= i < old(self).rows@.len() && old(self).rows@[i] == c && final(self).rows@
                        == old(self).rows@.remove(i)),
                Err(e) => *final(self) == *old(self) && e == ApiError::NotFound && by_id_spec(
                    old(self).rows@,
                    id@,
                ) is None,
            },
    {
        let ghost rows0 = self.rows@;
        let n = self.rows.len();
        let mut i: usize = 0;
        proof {
            assert(rows0.skip(0) =~= rows0);
        }
        while i < n
            invariant
                n == self.rows@.len(),
                self.rows@ == rows0,
                *self == *old(self),
                rows0 == old(self).rows@,
                wf_rows(rows0),
                0 <= i <= n,
                by_id_spec(rows0, id@) == by_id_spec(rows0.skip(i as int), id@),
                forall|j: int| 0 <= j < i ==> (#[trigger] rows0[j]).id@ != id@,
            decreases n - i,
        {
            proof {
                assert(rows0.skip(i as int)[0] == rows0[i as int]);
                assert(rows0.skip(i as int).drop_first() =~= rows0.skip(i + 1));
            }
            let hit = {
                let row = vstd::slice::slice_index_get(self.rows.as_slice(), i);
                crate::text::str_eq(row.id.as_str(), id)
            };
            if hit {
                proof {
                    assert(by_id_spec(rows0.skip(i as int), id@) == Some(rows0[i as int]));
                }
                let removed = self.rows.remove(i);
                proof {
                    assert(removed == rows0[i as int]);
                    assert(self.rows@ == rows0.remove(i as int));
                    lemma_remove_keeps_wf(rows0, i as int);
                }
                return Ok(removed);
            }
            i += 1;
        }
        proof {
            assert(rows0.skip(n as int).len() == 0);
        }
        Err(ApiError::NotFound)
    }
}

/// Inserting keeps the order when the position is the key boundary.
proof fn lemma_insert_position(s: Seq<Category>, row: Category, pos: int, a: int, b: int)
    requires
        sorted(s),
        0 <= pos <= s.len(),
        forall|j: int|
            0 <= j < pos ==> !key_lt(
                row.created_at,
                row.id@,
                (#[trigger] s[j]).created_at,
                s[j].id@,
            ),
        forall|j: int|
            pos <= j < s.len() ==> key_lt(
                row.created_at,
                row.id@,
                (#[trigger] s[j]).created_at,
                s[j].id@,
            ),
        forall|j: int| 0 <= j < s.len() ==> (#[trigger] s[j]).id@ != row.id@,
        0 <= a < b < s.len() + 1,
    ensures
        row_lt(s.insert(pos, row)[a], s.insert(pos, row)[b]),
{
    let s1 = s.insert(pos, row);
    if a < pos && b < pos {
        assert(s1[a] == s[a] && s1[b] == s[b]);
    } else if a < pos && b == pos {
        assert(s1[a] == s[a] && s1[b] == row);
        assert(!key_lt(row.created_at, row.id@, s[a].created_at, s[a].id@));
        lemma_id_lt_props(s[a].id@, row.id@);
        if s[a].created_at == row.created_at {
            assert(!id_lt(row.id@, s[a].id@));
            assert(s[a].id@ != row.id@);
            assert(id_lt(s[a].id@, row.id@));
        }
    } else if a < pos {
        assert(s1[a] == s[a] && s1[b] == s[b - 1]);
        if b - 1 == a {
            assert(key_lt(row.created_at, row.id@, s[b - 1].created_at, s[b - 1].id@));
            assert(!key_lt(row.created_at, row.id@, s[a].created_at, s[a].id@));
            assert(false);
        }
    } else if a == pos {
        assert(s1[a] == row && s1[b] == s[b - 1]);
        assert(key_lt(row.created_at, row.id@, s[b - 1].created_at, s[b - 1].id@));
    } else {
        assert(s1[a] == s[a - 1] && s1[b] == s[b - 1]);
    }
}

/// Replacing a row with one of the same key keeps well-formedness.
proof fn lemma_update_keeps_wf(s: Seq<Category>, i: int, fresh: Category)
    requires
        wf_rows(s),
        0 <= i < s.len(),
        fresh.id@ == s[i].id@,
        fresh.created_at == s[i].created_at,
        valid_category(fresh),
    ensures
        wf_rows(s.update(i, fresh)),
{
    let s1 = s.update(i, fresh);
    assert forall|a: int, b: int| 0 <= a < b < s1.len() implies row_lt(
        #[trigger] s1[a],
        #[trigger] s1[b],
    ) && s1[a].id@ != s1[b].id@ by {
        assert(row_lt(s[a], s[b]));
        if a == i {
            assert(s1[a].id@ == s[a].id@ && s1[a].created_at == s[a].created_at);
            assert(s1[b] == s[b]);
        } else if b == i {
            assert(s1[b].id@ == s[b].id@ && s1[b].created_at == s[b].created_at);
            assert(s1[a] == s[a]);
        } else {
            assert(s1[a] == s[a] && s1[b] == s[b]);
        }
    }
}

/// Removing a row keeps well-formedness.
proof fn lemma_remove_keeps_wf(s: Seq<Category>, i: int)
    requires
        wf_rows(s),
        0 <= i < s.len(),
    ensures
        wf_rows(s.remove(i)),
{
    let s1 = s.remove(i);
    assert forall|a: int, b: int| 0 <= a < b < s1.len() implies row_lt(
        #[trigger] s1[a],
        #[trigger] s1[b],
    ) && s1[a].id@ != s1[b].id@ by {
        let a0 = if a < i {
            a
        } else {
            a + 1
        };
        let b0 = if b < i {
            b
        } else {
            b + 1
        };
        assert(s1[a] == s[a0] && s1[b] == s[b0]);
        assert(row_lt(s[a0], s[b0]));
    }
    assert forall|a: int| 0 <= a < s1.len() implies valid_category(#[trigger] s1[a]) by {
        let a0 = if a < i {
            a
        } else {
            a + 1
        };
        assert(s1[a] == s[a0]);
    }
}


/// Read-after-write: a freshly inserted row is found by its id.
/// After a successful insert at the key boundary, looking the id up
/// returns exactly the inserted row.
pub proof fn lemma_read_after_write(rows: Seq<Category>, row: Category)
    requires
        wf_rows(rows),
        valid_category(row),
        by_id_spec(rows, row.id@) is None,
    ensures
        by_id_spec(
            rows.insert(count_le(rows, row.created_at, row.id@), row),
            row.id@,
        ) == Some(row),
{
    lemma_by_id_none_forall(rows, row.id@);
    lemma_count_le_boundary(rows, row.created_at, row.id@);
    let pos = count_le(rows, row.created_at, row.id@);
    let s1 = rows.insert(pos, row);
    assert forall|a: int, b: int| 0 <= a < b < s1.len() implies (#[trigger] s1[a]).id@ != (
    #[trigger] s1[b]).id@ by {
        lemma_insert_position(rows, row, pos, a, b);
        assert(row_lt(s1[a], s1[b]));
        if s1[a].id@ == s1[b].id@ {
            lemma_id_lt_props(s1[a].id@, s1[b].id@);
        }
    }
    assert(s1[pos] == row);
    lemma_by_id_present(s1, pos);
}

/// Decides the lexicographic id order.
pub fn id_lt_x(a: &str, b: &str) -> (r: bool)
    ensures
        r == id_lt(a@, b@),
{
    let la = a.unicode_len();
    let lb = b.unicode_len();
    let mut i: usize = 0;
    proof {
        assert(a@.skip(0) =~= a@);
        assert(b@.skip(0) =~= b@);
    }
    loop
        invariant
            la == a@.len(),
            lb == b@.len(),
            0 <= i <= la,
            0 <= i <= lb,
            id_lt(a@, b@) == id_lt(a@.skip(i as int), b@.skip(i as int)),
        decreases la - i,
    {
        proof {
            let sa = a@.skip(i as int);
            let sb = b@.skip(i as int);
            if i < la && i < lb {
                assert(sa[0] == a@[i as int]);
                assert(sb[0] == b@[i as int]);
                assert(sa.drop_first() =~= a@.skip(i + 1));
                assert(sb.drop_first() =~= b@.skip(i + 1));
            }
        }
        if i >= lb {
            return false;
        }
        if i >= la {
            return true;
        }
        let ca = a.get_char(i);
        let cb = b.get_char(i);
        if ca != cb {
            let xa = ca as u32;
            let xb = cb as u32;
            proof {
                assert(xa as int == ca as int);
                assert(xb as int == cb as int);
            }
            return xa < xb;
        }
        i += 1;
    }
}

} // verus!
