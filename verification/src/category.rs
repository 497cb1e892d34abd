//! The category entity and its wire form with optional timestamps.
use vstd::prelude::*;

use crate::ApiError;
use crate::ids::valid_id;
use crate::timestamp::{ts_valid, Timestamp};

verus! {

/// A category row as the store holds it.
#[derive(Clone, Debug, PartialEq, Eq)]
pub struct Category {
    /// Opaque 21-character identifier.
    pub id: String,
    /// Non-empty display name.
    pub name: String,
    /// Ordered ids of sub-categories; may be empty.
    pub sub_categories: Vec<String>,
    /// Optional image link.
    pub image_url: Option<String>,
    /// Optional parent id; may dangle.
    pub parent_id: Option<String>,
    /// Set at insert, never rewritten.
    pub created_at: Timestamp,
    /// Rewritten on every successful update.
    pub updated_at: Timestamp,
}

/// The mathematical content of a category row.
#[verifier::ext_equal]
pub ghost struct CategoryView {
    /// Identifier text.
    pub id: Seq<char>,
    /// Name text.
    pub name: Seq<char>,
    /// Sub-category id texts.
    pub sub_categories: Seq<Seq<char>>,
    /// Image link text.
    pub image_url: Option<Seq<char>>,
    /// Parent id text.
    pub parent_id: Option<Seq<char>>,
    /// Creation instant.
    pub created_at: Timestamp,
    /// Update instant.
    pub updated_at: Timestamp,
}

/// The texts of a list of strings.
pub open spec fn strs_view(s: Seq<String>) -> Seq<Seq<char>> {
    s.map_values(|x: String| x@)
}

/// The text of an optional string.
pub open spec fn opt_str_view(s: Option<String>) -> Option<Seq<char>> {
    match s {
        Some(x) => Some(x@),
        None => None,
    }
}

impl View for Category {
    type V = CategoryView;

    open spec fn view(&self) -> CategoryView {
        CategoryView {
            id: self.id@,
            name: self.name@,
            sub_categories: strs_view(self.sub_categories@),
            image_url: opt_str_view(self.image_url),
            parent_id: opt_str_view(self.parent_id),
            created_at: self.created_at,
            updated_at: self.updated_at,
        }
    }
}

impl Category {
    /// A field-by-field copy with the same content.
    pub fn duplicate(&self) -> (r: Category)
        ensures
            r@ == self@,
            r.id@ == self.id@,
            r.created_at == self.created_at,
    {
        let r = Category {
            id: self.id.clone(),
            name: self.name.clone(),
            sub_categories: self.sub_categories.clone(),
            image_url: self.image_url.clone(),
            parent_id: self.parent_id.clone(),
            created_at: self.created_at,
            updated_at: self.updated_at,
        };
        proof {
            assert(strs_view(r.sub_categories@) =~= strs_view(self.sub_categories@)) by {
                assert(forall|i: int|
                    0 <= i < self.sub_categories@.len() ==> vstd::pervasive::cloned::<String>(
                        self.sub_categories@[i],
                        #[trigger] r.sub_categories@[i],
                    ));
                assert forall|i: int|
                    0 <= i < self.sub_categories@.len() implies #[trigger] strs_view(
                    r.sub_categories@,
                )[i] == strs_view(self.sub_categories@)[i] by {
                    assert(vstd::pervasive::cloned::<String>(
                        self.sub_categories@[i],
                        r.sub_categories@[i],
                    ));
                }
            }
            assert(opt_str_view(r.image_url) == opt_str_view(self.image_url)) by {
                if self.image_url is Some {
                    assert(vstd::pervasive::cloned::<String>(
                        self.image_url.unwrap(),
                        r.image_url.unwrap(),
                    ));
                }
            }
            assert(opt_str_view(r.parent_id) == opt_str_view(self.parent_id)) by {
                if self.parent_id is Some {
                    assert(vstd::pervasive::cloned::<String>(
                        self.parent_id.unwrap(),
                        r.parent_id.unwrap(),
                    ));
                }
            }
            assert(r@ =~= self@);
        }
        r
    }
}

/// A well-formed category row.
pub open spec fn valid_category(c: Category) -> bool {
    &&& valid_id(c.id@)
    &&& c.name@.len() > 0
    &&& ts_valid(c.created_at)
    &&& ts_valid(c.updated_at)
    &&& match c.parent_id {
        Some(p) => valid_id(p@),
        None => true,
    }
}

/// A timestamp as it crosses the wire: possibly absent, nanos signed.
#[derive(Clone, Copy, Debug, PartialEq, Eq, Structural)]
pub struct WireTimestamp {
    /// Whole seconds since the epoch.
    pub seconds: i64,
    /// Nanosecond adjustment; may be negative or beyond one second.
    pub nanos: i32,
}

/// A category as it crosses the wire, timestamps optional.
#[derive(Clone, Debug, PartialEq, Eq)]
pub struct WireCategory {
    /// Opaque identifier.
    pub id: String,
    /// Display name.
    pub name: String,
    /// Ordered ids of sub-categories.
    pub sub_categories: Vec<String>,
    /// Optional image link.
    pub image_url: Option<String>,
    /// Optional parent id.
    pub parent_id: Option<String>,
    /// Creation instant, when present.
    pub created_at: Option<WireTimestamp>,
    /// Update instant, when present.
    pub updated_at: Option<WireTimestamp>,
}

/// The truncated remainder of the nanosecond adjustment.
pub open spec fn trunc_nanos(nanos: int) -> int {
    if nanos >= 0 {
        nanos % 1_000_000_000
    } else {
        -((-nanos) % 1_000_000_000)
    }
}

/// The instant a wire timestamp denotes after normalizing its nanoseconds.
pub open spec fn wire_norm(w: WireTimestamp) -> Timestamp {
    let nrm = trunc_nanos(w.nanos as int);
    if nrm >= 0 {
        Timestamp { seconds: w.seconds, nanos: nrm as u32 }
    } else {
        Timestamp { seconds: (w.seconds - 1) as i64, nanos: (nrm + 1_000_000_000) as u32 }
    }
}

/// Converts an optional wire timestamp, normalizing the nanosecond part.
///
/// Fails when the timestamp is missing, or when normalizing would step
/// below the representable range.
pub fn to_offset_datetime(timestamp: Option<WireTimestamp>) -> (r: Result<Timestamp, ApiError>)
    ensures
        match r {
            Ok(ts) => timestamp matches Some(w) && ts == wire_norm(w) && ts.nanos < 1_000_000_000,
            Err(e) => e == ApiError::Invalid && match timestamp {
                Some(w) => w.seconds == i64::MIN && trunc_nanos(w.nanos as int) < 0,
                None => true,
            },
        },
{
    let w = match timestamp {
        Some(w) => w,
        None => {
            return Err(ApiError::Invalid);
        },
    };
    let nrm: i32 = w.nanos % 1_000_000_000;
    if nrm >= 0 {
        Ok(Timestamp { seconds: w.seconds, nanos: nrm as u32 })
    } else {
        if w.seconds == i64::MIN {
            return Err(ApiError::Invalid);
        }
        Ok(Timestamp { seconds: w.seconds - 1, nanos: (nrm + 1_000_000_000) as u32 })
    }
}

/// Converts an instant to its wire form.
pub fn to_timestamp(dt: Timestamp) -> (r: WireTimestamp)
    requires
        dt.nanos < 1_000_000_000,
    ensures
        r.seconds == dt.seconds,
        r.nanos == dt.nanos,
{
    WireTimestamp { seconds: dt.seconds, nanos: dt.nanos as i32 }
}

/// Normalizing the wire form of an in-range instant gives the instant back.
pub proof fn lemma_timestamp_wire_roundtrip(dt: Timestamp)
    requires
        dt.nanos < 1_000_000_000,
    ensures
        wire_norm(WireTimestamp { seconds: dt.seconds, nanos: dt.nanos as i32 }) == dt,
{
}

impl Category {
    /// Converts a wire category; fails when a timestamp is missing.
    pub fn from_wire(value: WireCategory) -> (r: Result<Category, ApiError>)
        ensures
            match r {
                Ok(c) => value.created_at matches Some(ca) && value.updated_at matches Some(ua)
                    && c.id == value.id && c.name == value.name && c.sub_categories
                    == value.sub_categories && c.image_url == value.image_url && c.parent_id
                    == value.parent_id && c.created_at == wire_norm(ca) && c.updated_at
                    == wire_norm(ua),
                Err(e) => e == ApiError::Invalid,
            },
    {
        let created_at = match to_offset_datetime(value.created_at) {
            Ok(ts) => ts,
            Err(e) => {
                return Err(e);
            },
        };
        let updated_at = match to_offset_datetime(value.updated_at) {
            Ok(ts) => ts,
            Err(e) => {
                return Err(e);
            },
        };
        Ok(
            Category {
                id: value.id,
                name: value.name,
                sub_categories: value.sub_categories,
                image_url: value.image_url,
                parent_id: value.parent_id,
                created_at,
                updated_at,
            },
        )
    }

    /// Converts a category to its wire form.
    pub fn to_wire(self) -> (r: WireCategory)
        requires
            self.created_at.nanos < 1_000_000_000,
            self.updated_at.nanos < 1_000_000_000,
        ensures
            r.id == self.id,
            r.name == self.name,
            r.sub_categories == self.sub_categories,
            r.image_url == self.image_url,
            r.parent_id == self.parent_id,
            r.created_at matches Some(ca) && ca.seconds == self.created_at.seconds && ca.nanos
                == self.created_at.nanos,
            r.updated_at matches Some(ua) && ua.seconds == self.updated_at.seconds && ua.nanos
                == self.updated_at.nanos,
    {
        let created_at = to_timestamp(self.created_at);
        let updated_at = to_timestamp(self.updated_at);
        WireCategory {
            id: self.id,
            name: self.name,
            sub_categories: self.sub_categories,
            image_url: self.image_url,
            parent_id: self.parent_id,
            created_at: Some(created_at),
            updated_at: Some(updated_at),
        }
    }
}

} // verus!
