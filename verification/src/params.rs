//! Validation of Relay-style connection arguments.
use vstd::prelude::*;

use crate::ApiError;
use crate::keys::Index;
use crate::pagination::{CursorType, Pagination};

verus! {

/// A combination of connection arguments the read path rejects: backward
/// arguments mixed with forward ones, both cursors, or no page size.
pub open spec fn args_invalid(
    after: Option<Seq<char>>,
    before: Option<Seq<char>>,
    first: Option<i32>,
    last: Option<i32>,
) -> bool {
    ||| (last is Some && after is Some)
    ||| (before is Some && first is Some)
    ||| (last is None && first is None)
    ||| (after is Some && before is Some)
}

/// Relay-compliant connection parameters to page results by cursor/page size
pub struct Params;

impl Params {
    /// Validates the argument combination and assembles the pagination.
    ///
    /// Exactly the invalid combinations are rejected; any other combination
    /// yields the cursor (`after` wins over `before`) and the page size
    /// (`first` wins over `last`).
    pub fn parse(
        after: Option<String>,
        before: Option<String>,
        first: Option<i32>,
        last: Option<i32>,
    ) -> (r: Result<Pagination, ApiError>)
        ensures
            match r {
                Ok(p) => !args_invalid(view_opt(after), view_opt(before), first, last) && match (
                    after,
                    before,
                ) {
                    (Some(a), _) => p.cursor_value matches Some(CursorType::After(c)) && c == a,
                    (None, Some(b)) => p.cursor_value matches Some(CursorType::Before(c)) && c
                        == b,
                    (None, None) => p.cursor_value is None,
                } && match (first, last) {
                    (Some(f), _) => p.index == Some(Index::First(f)),
                    (None, Some(l)) => p.index == Some(Index::Last(l)),
                    (None, None) => false,
                },
                Err(e) => e == ApiError::Invalid && args_invalid(
                    view_opt(after),
                    view_opt(before),
                    first,
                    last,
                ),
            },
    {
        if (last.is_some() && after.is_some()) || (before.is_some() && first.is_some()) {
            return Err(ApiError::Invalid);
        }
        if last.is_none() && first.is_none() {
            return Err(ApiError::Invalid);
        }
        if after.is_some() && before.is_some() {
            return Err(ApiError::Invalid);
        }
        let cursor_value = match after {
            Some(cursor) => Some(CursorType::After(cursor)),
            None => match before {
                Some(cursor) => Some(CursorType::Before(cursor)),
                None => None,
            },
        };
        let index = match first {
            Some(f) => Index::First(f),
            None => match last {
                Some(l) => Index::Last(l),
                None => {
                    return Err(ApiError::Invalid);
                },
            },
        };
        Ok(Pagination { cursor_value, index: Some(index) })
    }
}

/// The view of an optional string.
pub open spec fn view_opt(s: Option<String>) -> Option<Seq<char>> {
    match s {
        Some(x) => Some(x@),
        None => None,
    }
}

} // verus!
