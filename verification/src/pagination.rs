//! Pagination model: cursor values, the opaque cursor codec over base64url,
//! and the page-size clamp.
use vstd::prelude::*;

use crate::ApiError;
use crate::keys::Index;
use crate::text::{chars_to_string, is_b64_str, no_colon, push_str_chars, str_to_chars};

verus! {

/// A cursor together with the side it pages from.
#[derive(Clone, Debug, PartialEq, Eq)]
pub enum CursorType {
    /// Page forward, strictly after this cursor.
    After(String),
    /// Page backward, strictly before this cursor.
    Before(String),
}

/// The pagination arguments of a listing request.
#[derive(Clone, Debug, PartialEq, Eq)]
pub struct Pagination {
    /// The cursor, when one was supplied.
    pub cursor_value: Option<CursorType>,
    /// Page direction and size.
    pub index: Option<Index>,
}

/// What an encoded cursor carries: the timestamp text, a colon, the id.
pub open spec fn cursor_payload(dt: Seq<char>, id: Seq<char>) -> Seq<char> {
    dt + seq![':'] + id
}

/// The rendered form of what base64url makes of a character sequence.
pub uninterp spec fn b64url_of(s: Seq<char>) -> Seq<char>;

/// Relies on base64's `URL_SAFE_NO_PAD` engine: the encoding depends on the
/// input bytes alone, uses the url-safe alphabet, and is empty only for empty
/// input.
#[verifier::external_body]
fn b64url_encode(s: &str) -> (r: String)
    ensures
        r@ == b64url_of(s@),
        is_b64_str(r@),
        r@.len() == 0 <==> s@.len() == 0,
{
    base64::Engine::encode(&base64::engine::general_purpose::URL_SAFE_NO_PAD, s.as_bytes())
}

/// Relies on the same engine's strict decode (no padding accepted, no
/// trailing bits) together with UTF-8 decoding: it accepts exactly the
/// strings `encode` produces and restores exactly the characters encoded.
#[verifier::external_body]
fn b64url_decode(s: &str) -> (r: Option<String>)
    ensures
        match r {
            Some(d) => s@ == b64url_of(d@) && (forall|d2: Seq<char>|
                s@ == b64url_of(d2) ==> d2 == d@),
            None => forall|d2: Seq<char>| s@ != b64url_of(d2),
        },
{
    match base64::Engine::decode(&base64::engine::general_purpose::URL_SAFE_NO_PAD, s.as_bytes()) {
        Ok(bytes) => match String::from_utf8(bytes) {
            Ok(text) => Some(text),
            Err(_) => None,
        },
        Err(_) => None,
    }
}

/// Splitting at the last colon is unambiguous.
proof fn lemma_last_colon_split(p: Seq<char>, k: int, dt: Seq<char>, id: Seq<char>)
    requires
        0 <= k < p.len(),
        p[k] == ':',
        forall|i: int| k < i < p.len() ==> p[i] != ':',
        p == cursor_payload(dt, id),
        no_colon(id),
    ensures
        dt == p.subrange(0, k),
        id == p.subrange(k + 1, p.len() as int),
{
    let u = dt + seq![':'] + id;
    assert(u.len() == dt.len() + 1 + id.len());
    assert(u[dt.len() as int] == ':') by {
        assert((dt + seq![':'])[dt.len() as int] == ':');
        assert(u[dt.len() as int] == (dt + seq![':'])[dt.len() as int]);
    }
    if k < dt.len() {
        assert(u[dt.len() as int] != ':');
        assert(false);
    }
    if k > dt.len() {
        assert(u[k] == id[k - dt.len() - 1]);
        assert(false);
    }
    assert(k == dt.len());
    assert(dt =~= p.subrange(0, k)) by {
        assert forall|i: int| 0 <= i < k implies dt[i] == p.subrange(0, k)[i] by {
            assert(u[i] == (dt + seq![':'])[i]);
            assert((dt + seq![':'])[i] == dt[i]);
        }
    }
    assert(id =~= p.subrange(k + 1, p.len() as int)) by {
        assert forall|i: int| 0 <= i < id.len() implies id[i] == p.subrange(
            k + 1,
            p.len() as int,
        )[i] by {
            assert(u[dt.len() + 1 + i] == id[i]);
        }
    }
}

/// A payload splits one way only when the id part holds no colon.
pub proof fn lemma_payload_unique(dt1: Seq<char>, id1: Seq<char>, dt2: Seq<char>, id2: Seq<char>)
    requires
        cursor_payload(dt1, id1) == cursor_payload(dt2, id2),
        no_colon(id1),
        no_colon(id2),
    ensures
        dt1 == dt2,
        id1 == id2,
{
    let p = cursor_payload(dt1, id1);
    let k = dt1.len() as int;
    assert(p.len() == dt1.len() + 1 + id1.len());
    assert(p[k] == ':') by {
        assert((dt1 + seq![':'])[k] == ':');
        assert(p[k] == (dt1 + seq![':'])[k]);
    }
    assert forall|i: int| k < i < p.len() implies p[i] != ':' by {
        assert(p[i] == id1[i - k - 1]);
    }
    lemma_last_colon_split(p, k, dt1, id1);
    lemma_last_colon_split(p, k, dt2, id2);
}

/// Pagination cursor: an opaque rendering of `(created_at, id)`.
#[derive(Debug)]
pub struct CursorBuilder {
    id: String,
    dt: String,
}

impl CursorBuilder {
    /// The id the cursor names.
    pub closed spec fn spec_id(&self) -> Seq<char> {
        self.id@
    }

    /// The timestamp text the cursor names.
    pub closed spec fn spec_dt(&self) -> Seq<char> {
        self.dt@
    }

    /// Create cursor
    pub fn new(id: &str, dt: &str) -> (r: Self)
        ensures
            r.spec_id() == id@,
            r.spec_dt() == dt@,
    {
        CursorBuilder { id: id.to_owned(), dt: dt.to_owned() }
    }

    /// get id
    pub fn id(&self) -> (r: &str)
        ensures
            r@ == self.spec_id(),
    {
        self.id.as_str()
    }

    /// get date time
    pub fn dt(&self) -> (r: &str)
        ensures
            r@ == self.spec_dt(),
    {
        self.dt.as_str()
    }

    /// encode a cursor
    pub fn encode(&self) -> (r: String)
        ensures
            r@ == b64url_of(cursor_payload(self.spec_dt(), self.spec_id())),
            is_b64_str(r@),
    {
        let mut payload: Vec<char> = Vec::new();
        push_str_chars(&mut payload, self.dt.as_str());
        payload.push(':');
        push_str_chars(&mut payload, self.id.as_str());
        let text = chars_to_string(&payload);
        assert(text@ =~= cursor_payload(self.spec_dt(), self.spec_id()));
        b64url_encode(text.as_str())
    }

    /// decode a cursor
    ///
    /// Fails when the input is not the encoding of any text, or when that
    /// text has no separator. Decoding an encoded cursor whose id holds no
    /// colon gives the timestamp text and id back: the cursor round trip.
    pub fn decode(params: &str) -> (r: Result<CursorBuilder, ApiError>)
        ensures
            (r matches Ok(c) ==> no_colon(c.spec_id()) && params@ == b64url_of(
                cursor_payload(c.spec_dt(), c.spec_id()),
            )),
            forall|dt: Seq<char>, id: Seq<char>|
                no_colon(id) && params@ == b64url_of(#[trigger] cursor_payload(dt, id)) ==> (
                r matches Ok(c) && c.spec_dt() == dt && c.spec_id() == id),
            (r matches Err(e) ==> e == ApiError::Invalid),
    {
        let payload = match b64url_decode(params) {
            Some(p) => p,
            None => {
                return Err(ApiError::Invalid);
            },
        };
        let v = str_to_chars(payload.as_str());
        let n = v.len();
        let mut i: usize = n;
        let mut found: bool = false;
        let mut k: usize = 0;
        while i > 0 && !found
            invariant
                n == v@.len(),
                0 <= i <= n,
                !found ==> forall|j: int| i <= j < n ==> v@[j] != ':',
                found ==> i < n && v@[i as int] == ':' && k == i && (forall|j: int|
                    i < j < n ==> v@[j] != ':'),
            decreases i + (if found { 0int } else { 1int }),
        {
            i -= 1;
            if v[i] == ':' {
                found = true;
                k = i;
            }
        }
        if !found {
            proof {
                assert forall|dt: Seq<char>, id: Seq<char>|
                    !(no_colon(id) && params@ == b64url_of(
                        #[trigger] cursor_payload(dt, id),
                    )) by {
                    if no_colon(id) && params@ == b64url_of(cursor_payload(dt, id)) {
                        assert(v@ == cursor_payload(dt, id));
                        assert((dt + seq![':'])[dt.len() as int] == ':');
                        assert(v@[dt.len() as int] == (dt + seq![':'])[dt.len() as int]);
                    }
                }
            }
            return Err(ApiError::Invalid);
        }
        let mut dt_chars: Vec<char> = Vec::new();
        let mut j: usize = 0;
        while j < k
            invariant
                n == v@.len(),
                0 <= j <= k < n,
                dt_chars@ =~= v@.subrange(0, j as int),
            decreases k - j,
        {
            dt_chars.push(v[j]);
            assert(dt_chars@ =~= v@.subrange(0, j + 1 as int));
            j += 1;
        }
        let mut id_chars: Vec<char> = Vec::new();
        let mut j2: usize = k + 1;
        while j2 < n
            invariant
                n == v@.len(),
                k < j2 <= n,
                id_chars@ =~= v@.subrange(k + 1 as int, j2 as int),
            decreases n - j2,
        {
            id_chars.push(v[j2]);
            assert(id_chars@ =~= v@.subrange(k + 1 as int, j2 + 1 as int));
            j2 += 1;
        }
        let dt = chars_to_string(&dt_chars);
        let id = chars_to_string(&id_chars);
        let c = CursorBuilder { id, dt };
        proof {
            assert(v@ =~= cursor_payload(c.spec_dt(), c.spec_id()));
            assert forall|dt2: Seq<char>, id2: Seq<char>|
                no_colon(id2) && params@ == b64url_of(
                    #[trigger] cursor_payload(dt2, id2),
                ) implies c.spec_dt() == dt2 && c.spec_id() == id2 by {
                assert(v@ == cursor_payload(dt2, id2));
                lemma_last_colon_split(v@, k as int, dt2, id2);
            }
        }
        Ok(c)
    }

    /// Gets pagination direction
    pub fn is_paginating_from_left(pagination: &Pagination) -> (r: bool)
        ensures
            r == paginating_from_left(pagination),
    {
        match &pagination.cursor_value {
            Some(value) => match value {
                CursorType::After(_) => true,
                CursorType::Before(_) => false,
            },
            None => true,
        }
    }

    /// Checks if cursor is unavailable
    pub fn is_cursor_unavailable(pagination: &Pagination) -> (r: bool)
        ensures
            r == (pagination.cursor_value is None),
    {
        match &pagination.cursor_value {
            Some(_) => false,
            None => true,
        }
    }
}

/// Whether the request pages forward.
pub open spec fn paginating_from_left(p: &Pagination) -> bool {
    match p.cursor_value {
        Some(CursorType::After(_)) => true,
        Some(CursorType::Before(_)) => false,
        None => true,
    }
}

/// Gets maximum query results from pagination data
pub fn query_count(max: i32, pagination: &Index) -> (r: i32)
    ensures
        r == clamped_count(max, *pagination),
{
    let user_param = match pagination {
        Index::First(value) => *value,
        Index::Last(value) => *value,
    };
    if user_param > max {
        max
    } else {
        user_param
    }
}

/// The page size after the configured clamp.
pub open spec fn clamped_count(max: i32, i: Index) -> int {
    let n = crate::keys::index_count(i);
    if n > max {
        max as int
    } else {
        n
    }
}

} // verus!
