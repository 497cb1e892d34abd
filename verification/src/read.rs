//! The listing read path: keyset page and count queries over the store
//! model, assembly of Relay connections, and the paging laws.
use vstd::prelude::*;

use crate::ApiError;
use crate::category::{valid_category, Category, CategoryView};
use crate::connection::{Connection, ListingScope, Node, PageInfo};
use crate::keys::Index;
use crate::pagination::{b64url_of, cursor_payload, CursorBuilder, CursorType, Pagination};
use crate::store::{
    by_id_spec, count_le, count_lt, key_lt, lemma_count_le_boundary, lemma_count_lt_boundary,
    lemma_id_lt_props, row_lt, sorted, wf_rows, Store,
};
use crate::text::no_colon;
use crate::timestamp::{is_decomp, rfc3339_render, Timestamp};

verus! {

/// Whether a listing request pages forward: an `after` cursor or no cursor
/// with `first:N`; backward for a `before` cursor or cursorless `last:N`.
pub open spec fn listing_forward(p: Pagination) -> bool {
    match p.cursor_value {
        Some(CursorType::After(_)) => true,
        Some(CursorType::Before(_)) => false,
        None => match p.index {
            Some(Index::Last(_)) => false,
            _ => true,
        },
    }
}

/// The smaller of two integers.
pub open spec fn min_i(a: int, b: int) -> int {
    if a < b {
        a
    } else {
        b
    }
}

/// The contents of a list of rows.
pub open spec fn cats_view(s: Seq<Category>) -> Seq<CategoryView> {
    Seq::new(s.len(), |i: int| s[i]@)
}

/// The rows a forward page shows: up to `n` rows from `start`.
pub open spec fn kept_fwd(s: Seq<Category>, start: int, n: int) -> Seq<Category> {
    s.subrange(start, start + min_i(n, s.len() - start))
}

/// The rows a backward page shows, ascending: up to `n` rows ending at `end`.
pub open spec fn kept_bwd(s: Seq<Category>, end: int, n: int) -> Seq<Category> {
    s.subrange(end - min_i(n, end), end)
}

/// The cursor string that names a row: the base64url encoding of its
/// rendered creation instant joined with its id.
pub open spec fn cursor_ok(s: Seq<char>, t: Timestamp, id: Seq<char>) -> bool {
    exists|y: int, mo: int, d: int, h: int, mi: int, sec: int|
        is_decomp(t, y, mo, d, h, mi, sec) && s == b64url_of(
            cursor_payload(rfc3339_render(y, mo, d, h, mi, sec, t.nanos as int), id),
        )
}

/// An edge presents a row: same content, and a cursor naming its key.
pub open spec fn edge_for(e: Node, c: Category) -> bool {
    e.node@ == c@ && cursor_ok(e.cursor@, c.created_at, c.id@)
}

/// Every edge presents the row at its position.
pub open spec fn edges_match(es: Seq<Node>, rows: Seq<Category>) -> bool {
    es.len() == rows.len() && forall|i: int|
        0 <= i < es.len() ==> edge_for(#[trigger] es[i], rows[i])
}

/// A row the listing scope selects.
pub open spec fn scope_pred(scope: ListingScope) -> spec_fn(Category) -> bool {
    |c: Category|
        match scope {
            ListingScope::All => true,
            ListingScope::Sub(p) => crate::category::opt_str_view(c.parent_id)
                == crate::category::opt_str_view(p),
        }
}

/// The rows of one listing scope, in table order.
pub open spec fn scope_rows(s: Seq<Category>, scope: ListingScope) -> Seq<Category> {
    s.filter(scope_pred(scope))
}

/// Filtering keeps order, id uniqueness and validity, and picks only rows
/// of the original.
pub proof fn lemma_filter_wf(s: Seq<Category>, pred: spec_fn(Category) -> bool)
    requires
        wf_rows(s),
    ensures
        wf_rows(s.filter(pred)),
        forall|i: int|
            0 <= i < s.filter(pred).len() ==> exists|k: int|
                0 <= k < s.len() && #[trigger] s.filter(pred)[i] == s[k],
    decreases s.len(),
{
    reveal(Seq::filter);
    if s.len() > 0 {
        let hd = s.drop_last();
        assert(wf_rows(hd)) by {
            assert(forall|i: int| 0 <= i < hd.len() ==> #[trigger] hd[i] == s[i]);
        }
        lemma_filter_wf(hd, pred);
        let sub = hd.filter(pred);
        assert forall|i: int| 0 <= i < sub.len() implies exists|k: int|
            0 <= k < s.len() && #[trigger] sub[i] == s[k] by {
            let k0 = choose|k: int| 0 <= k < hd.len() && #[trigger] sub[i] == hd[k];
            assert(sub[i] == s[k0]);
        }
        if pred(s.last()) {
            let out = sub.push(s.last());
            assert(s.filter(pred) == out);
            assert forall|a: int, b: int| 0 <= a < b < out.len() implies row_lt(
                #[trigger] out[a],
                #[trigger] out[b],
            ) && out[a].id@ != out[b].id@ by {
                if b < out.len() - 1 {
                    assert(out[a] == sub[a] && out[b] == sub[b]);
                } else {
                    assert(out[b] == s.last());
                    assert(out[a] == sub[a]);
                    let k = choose|k: int| 0 <= k < hd.len() && #[trigger] sub[a] == hd[k];
                    assert(out[a] == s[k]);
                    assert(row_lt(s[k], s[s.len() - 1]));
                    assert(s[k].id@ != s[s.len() - 1].id@);
                }
            }
            assert forall|i: int| 0 <= i < out.len() implies valid_category(#[trigger] out[i]) by {
                if i < out.len() - 1 {
                    assert(out[i] == sub[i]);
                    let k = choose|k: int| 0 <= k < hd.len() && #[trigger] sub[i] == hd[k];
                    assert(out[i] == s[k]);
                } else {
                    assert(out[i] == s[s.len() - 1]);
                }
            }
            assert forall|i: int| 0 <= i < out.len() implies exists|k: int|
                0 <= k < s.len() && #[trigger] out[i] == s[k] by {
                if i < out.len() - 1 {
                    assert(out[i] == sub[i]);
                    let k = choose|k: int| 0 <= k < s.len() && #[trigger] sub[i] == s[k];
                    assert(out[i] == s[k]);
                } else {
                    assert(out[i] == s[s.len() - 1]);
                }
            }
        } else {
            assert(s.filter(pred) == sub);
        }
    }
}

/// The strict key order never holds both ways.
pub proof fn lemma_key_asym(t1: Timestamp, i1: Seq<char>, t2: Timestamp, i2: Seq<char>)
    ensures
        !(key_lt(t1, i1, t2, i2) && key_lt(t2, i2, t1, i1)),
        (t1 == t2 && i1 == i2) ==> !key_lt(t1, i1, t2, i2),
{
    lemma_id_lt_props(i1, i2);
}

/// Paging totality: a cursorless forward page shows at most `n` rows, and a
/// table of at most `n` rows fits on it whole, with nothing after.
pub proof fn lemma_paging_totality(s: Seq<Category>, n: int)
    requires
        n >= 0,
    ensures
        kept_fwd(s, 0, n).len() <= n,
        s.len() <= n ==> kept_fwd(s, 0, n) == s && !(s.len() > n),
{
    if s.len() <= n {
        assert(kept_fwd(s, 0, n) =~= s);
    }
}

/// The boundary after a row's own key is the next row.
pub proof fn lemma_count_le_at_row(s: Seq<Category>, j: int)
    requires
        wf_rows(s),
        0 <= j < s.len(),
    ensures
        count_le(s, s[j].created_at, s[j].id@) == j + 1,
{
    let t = s[j].created_at;
    let id = s[j].id@;
    lemma_count_le_boundary(s, t, id);
    assert forall|i: int| 0 <= i <= j implies !key_lt(
        t,
        id,
        (#[trigger] s[i]).created_at,
        s[i].id@,
    ) by {
        if i < j {
            assert(row_lt(s[i], s[j]));
            lemma_key_asym(s[i].created_at, s[i].id@, t, id);
        } else {
            lemma_key_asym(t, id, t, id);
        }
    }
    if count_le(s, t, id) <= j {
        assert(!key_lt(t, id, s[j].created_at, s[j].id@));
        assert(j < count_le(s, t, id));
    }
    if count_le(s, t, id) > j + 1 {
        let k = j + 1;
        assert(k < count_le(s, t, id));
        assert(!key_lt(t, id, s[k].created_at, s[k].id@));
        assert(row_lt(s[j], s[k]));
    }
}

/// Paging monotonicity: continuing from the cursor of row `j` shows exactly
/// the rows after `j`, so successive pages tile the table in order without
/// skips or repeats.
pub proof fn lemma_paging_monotonic(s: Seq<Category>, j: int, n: int)
    requires
        wf_rows(s),
        0 <= j < s.len(),
        n >= 0,
    ensures
        kept_fwd(s, count_le(s, s[j].created_at, s[j].id@), n) == s.subrange(
            j + 1,
            j + 1 + min_i(n, s.len() - j - 1),
        ),
{
    lemma_count_le_at_row(s, j);
}

/// The boundary before a row's own key is that row.
pub proof fn lemma_count_lt_at_row(s: Seq<Category>, j: int)
    requires
        wf_rows(s),
        0 <= j < s.len(),
    ensures
        count_lt(s, s[j].created_at, s[j].id@) == j,
{
    let t = s[j].created_at;
    let id = s[j].id@;
    lemma_count_lt_boundary(s, t, id);
    assert forall|i: int| 0 <= i < j implies key_lt(
        (#[trigger] s[i]).created_at,
        s[i].id@,
        t,
        id,
    ) by {
        assert(row_lt(s[i], s[j]));
    }
    if count_lt(s, t, id) > j {
        assert(j < count_lt(s, t, id));
        assert(key_lt(s[j].created_at, s[j].id@, t, id));
        lemma_key_asym(t, id, t, id);
    }
    if count_lt(s, t, id) < j {
        let k = count_lt(s, t, id);
        assert(!(k < count_lt(s, t, id)));
        assert(!key_lt(s[k].created_at, s[k].id@, t, id));
        assert(row_lt(s[k], s[j]));
    }
}

/// Reverse symmetry: a cursorless backward page shows the table's last `n`
/// rows in ascending order — the same rows the final forward page shows —
/// and rows remain before it exactly when the table is longer than `n`.
pub proof fn lemma_reverse_symmetry(s: Seq<Category>, n: int)
    requires
        wf_rows(s),
        n >= 0,
    ensures
        s.len() > n ==> kept_bwd(s, s.len() as int, n) == kept_fwd(
            s,
            count_le(s, s[s.len() - n - 1].created_at, s[s.len() - n - 1].id@),
            n,
        ),
        s.len() <= n ==> kept_bwd(s, s.len() as int, n) == kept_fwd(s, 0, n),
        kept_bwd(s, s.len() as int, n).len() == min_i(n, s.len() as int),
{
    if s.len() > n {
        lemma_count_le_at_row(s, s.len() - n - 1);
        assert(kept_bwd(s, s.len() as int, n) =~= kept_fwd(s, s.len() - n, n));
    } else {
        assert(kept_bwd(s, s.len() as int, n) =~= kept_fwd(s, 0, n));
    }
}

/// Finds the number of rows not after the cursor key.
fn lower_bound_le(rows: &Vec<Category>, t: &Timestamp, id: &str) -> (r: usize)
    requires
        sorted(rows@),
    ensures
        r == count_le(rows@, *t, id@),
{
    let ghost rows0 = rows@;
    let n = rows.len();
    let mut i: usize = 0;
    let mut stop: bool = false;
    while i < n && !stop
        invariant
            n == rows@.len(),
            rows@ == rows0,
            sorted(rows0),
            0 <= i <= n,
            stop ==> i < n && key_lt(*t, id@, rows0[i as int].created_at, rows0[i as int].id@),
            forall|j: int|
                0 <= j < i ==> !key_lt(
                    *t,
                    id@,
                    (#[trigger] rows0[j]).created_at,
                    rows0[j].id@,
                ),
        decreases n - i + (if stop {
            0int
        } else {
            1int
        }),
    {
        let row = vstd::slice::slice_index_get(rows.as_slice(), i);
        let after = if t.lt(&row.created_at) {
            true
        } else if row.created_at.lt(t) {
            false
        } else {
            crate::store::id_lt_x(id, row.id.as_str())
        };
        if after {
            stop = true;
        } else {
            i += 1;
        }
    }
    proof {
        lemma_count_le_boundary(rows0, *t, id@);
        if stop {
            if count_le(rows0, *t, id@) > i {
                assert(!key_lt(*t, id@, rows0[i as int].created_at, rows0[i as int].id@));
            }
        }
        if count_le(rows0, *t, id@) < i {
            let k = count_le(rows0, *t, id@);
            assert(!key_lt(*t, id@, rows0[k].created_at, rows0[k].id@));
        }
    }
    i
}

/// Finds the number of rows strictly before the cursor key.
fn lower_bound_lt(rows: &Vec<Category>, t: &Timestamp, id: &str) -> (r: usize)
    requires
        sorted(rows@),
    ensures
        r == count_lt(rows@, *t, id@),
{
    let ghost rows0 = rows@;
    let n = rows.len();
    let mut i: usize = 0;
    let mut stop: bool = false;
    while i < n && !stop
        invariant
            n == rows@.len(),
            rows@ == rows0,
            sorted(rows0),
            0 <= i <= n,
            stop ==> i < n && !key_lt(
                rows0[i as int].created_at,
                rows0[i as int].id@,
                *t,
                id@,
            ),
            forall|j: int|
                0 <= j < i ==> key_lt(
                    (#[trigger] rows0[j]).created_at,
                    rows0[j].id@,
                    *t,
                    id@,
                ),
        decreases n - i + (if stop {
            0int
        } else {
            1int
        }),
    {
        let row = vstd::slice::slice_index_get(rows.as_slice(), i);
        let before = if row.created_at.lt(t) {
            true
        } else if t.lt(&row.created_at) {
            false
        } else {
            crate::store::id_lt_x(row.id.as_str(), id)
        };
        if before {
            i += 1;
        } else {
            stop = true;
        }
    }
    proof {
        lemma_count_lt_boundary(rows0, *t, id@);
        if stop {
            if count_lt(rows0, *t, id@) > i {
                assert(key_lt(rows0[i as int].created_at, rows0[i as int].id@, *t, id@));
            }
        }
        if count_lt(rows0, *t, id@) < i {
            let k = count_lt(rows0, *t, id@);
            assert(key_lt(rows0[k].created_at, rows0[k].id@, *t, id@));
        }
    }
    i
}

/// Copies `m` rows starting at `start`.
fn copy_range(rows: &Vec<Category>, start: usize, m: usize) -> (r: Vec<Category>)
    requires
        start + m <= rows@.len(),
    ensures
        cats_view(r@) == cats_view(rows@.subrange(start as int, start + m)),
{
    let n: usize = rows.len();
    let mut out: Vec<Category> = Vec::new();
    let mut k: usize = 0;
    while k < m
        invariant
            n == rows@.len(),
            start + m <= n,
            0 <= k <= m,
            out@.len() == k,
            cats_view(out@) =~= cats_view(rows@.subrange(start as int, start + k)),
        decreases m - k,
    {
        let row = vstd::slice::slice_index_get(rows.as_slice(), start + k);
        let dup = row.duplicate();
        let ghost prev = out@;
        out.push(dup);
        proof {
            let a = cats_view(out@);
            let b = cats_view(rows@.subrange(start as int, start + k + 1));
            assert(a.len() == b.len());
            assert forall|i: int| 0 <= i < a.len() implies a[i] == b[i] by {
                if i < k {
                    assert(out@[i] == prev[i]);
                    assert(a[i] == cats_view(prev)[i]);
                    assert(cats_view(rows@.subrange(start as int, start + k))[i] == rows@.subrange(
                        start as int,
                        start + k,
                    )[i]@);
                    assert(rows@.subrange(start as int, start + k)[i] == rows@.subrange(
                        start as int,
                        start + k + 1,
                    )[i]);
                } else {
                    assert(out@[i] == dup);
                    assert(rows@.subrange(start as int, start + k + 1)[i] == rows@[start + k]);
                }
            }
            assert(a =~= b);
        }
        k += 1;
    }
    out
}

/// Copies `m` rows ending at `end`, in descending order.
fn copy_range_rev(rows: &Vec<Category>, end: usize, m: usize) -> (r: Vec<Category>)
    requires
        m <= end <= rows@.len(),
    ensures
        cats_view(r@) == cats_view(rows@.subrange(end - m, end as int).reverse()),
{
    let n: usize = rows.len();
    let mut out: Vec<Category> = Vec::new();
    let mut k: usize = 0;
    while k < m
        invariant
            n == rows@.len(),
            m <= end <= n,
            0 <= k <= m,
            out@.len() == k,
            forall|i: int| 0 <= i < k ==> cats_view(out@)[i] == rows@[end - 1 - i]@,
        decreases m - k,
    {
        let row = vstd::slice::slice_index_get(rows.as_slice(), end - 1 - k);
        let dup = row.duplicate();
        let ghost prev = out@;
        out.push(dup);
        proof {
            assert forall|i: int| 0 <= i < k + 1 implies cats_view(out@)[i] == rows@[end - 1
                - i]@ by {
                if i < k {
                    assert(out@[i] == prev[i]);
                    assert(cats_view(prev)[i] == rows@[end - 1 - i]@);
                }
            }
        }
        k += 1;
    }
    proof {
        let sub = rows@.subrange(end - m, end as int).reverse();
        assert(cats_view(out@) =~= cats_view(sub)) by {
            assert forall|i: int| 0 <= i < m implies cats_view(out@)[i] == cats_view(sub)[i] by {
                assert(sub[i] == rows@.subrange(end - m, end as int)[m - 1 - i]);
                assert(rows@.subrange(end - m, end as int)[m - 1 - i] == rows@[end - 1 - i]);
            }
        }
    }
    out
}

/// Rows with keys after the cursor, ascending, at most `probe` of them.
pub fn query_page_after(rows: &Vec<Category>, t: &Timestamp, id: &str, probe: usize) -> (r: Vec<
    Category,
>)
    requires
        sorted(rows@),
    ensures
        (cats_view(r@) == cats_view(
            kept_fwd(rows@, count_le(rows@, *t, id@), probe as int),
        )),
{
    let start = lower_bound_le(rows, t, id);
    proof {
        lemma_count_le_boundary(rows@, *t, id@);
    }
    let n = rows.len();
    let avail = n - start;
    let m = if probe < avail {
        probe
    } else {
        avail
    };
    copy_range(rows, start, m)
}

/// Rows with keys before the cursor, descending, at most `probe` of them.
pub fn query_page_before(rows: &Vec<Category>, t: &Timestamp, id: &str, probe: usize) -> (r: Vec<
    Category,
>)
    requires
        sorted(rows@),
    ensures
        (cats_view(r@) == cats_view(
            kept_bwd(rows@, count_lt(rows@, *t, id@), probe as int).reverse(),
        )),
{
    let end = lower_bound_lt(rows, t, id);
    proof {
        lemma_count_lt_boundary(rows@, *t, id@);
    }
    let m = if probe < end {
        probe
    } else {
        end
    };
    copy_range_rev(rows, end, m)
}

/// The first rows of the table, ascending, at most `probe` of them.
pub fn query_page_first(rows: &Vec<Category>, probe: usize) -> (r: Vec<Category>)
    ensures
        cats_view(r@) == cats_view(kept_fwd(rows@, 0, probe as int)),
{
    let n = rows.len();
    let m = if probe < n {
        probe
    } else {
        n
    };
    copy_range(rows, 0, m)
}

/// The last rows of the table, descending, at most `probe` of them.
pub fn query_page_last(rows: &Vec<Category>, probe: usize) -> (r: Vec<Category>)
    ensures
        (cats_view(r@) == cats_view(
            kept_bwd(rows@, rows@.len() as int, probe as int).reverse(),
        )),
{
    let n = rows.len();
    let m = if probe < n {
        probe
    } else {
        n
    };
    copy_range_rev(rows, n, m)
}

/// Counts rows not after the cursor key: the forward count-on-other-end.
pub fn query_count_after(rows: &Vec<Category>, t: &Timestamp, id: &str) -> (r: usize)
    requires
        sorted(rows@),
    ensures
        r == count_le(rows@, *t, id@),
{
    lower_bound_le(rows, t, id)
}

/// Counts rows at or after the cursor key: the backward count-on-other-end.
pub fn query_count_before(rows: &Vec<Category>, t: &Timestamp, id: &str) -> (r: usize)
    requires
        sorted(rows@),
    ensures
        r == rows@.len() - count_lt(rows@, *t, id@),
{
    proof {
        lemma_count_lt_boundary(rows@, *t, id@);
    }
    rows.len() - lower_bound_lt(rows, t, id)
}

/// Assembles a connection from a page of rows and the other end's count.
///
/// The rows arrive in query order: ascending when paging forward, descending
/// when paging backward. The extra probe row is dropped, backward pages are
/// reversed to ascending, and every edge carries the cursor naming its row.
pub fn parse_categories(
    count_on_other_end: Option<i64>,
    categories: Vec<Category>,
    pagination: &Pagination,
    actual_count: i32,
) -> (r: Result<Connection, ApiError>)
    requires
        actual_count >= 0,
        forall|i: int| 0 <= i < categories@.len() ==> valid_category(#[trigger] categories@[i]),
    ensures
        match r {
            Ok(conn) => count_on_other_end matches Some(count) && ({
                let left = listing_forward(*pagination);
                let no_cursor = pagination.cursor_value is None;
                let has_more = categories@.len() > actual_count;
                let kept = if has_more {
                    categories@.take(actual_count as int)
                } else {
                    categories@
                };
                let ordered = if left {
                    kept
                } else {
                    kept.reverse()
                };
                &&& edges_match(conn.edges@, ordered)
                &&& conn.page_info.has_next_page == (if left {
                    has_more
                } else {
                    !no_cursor && count > 0
                })
                &&& conn.page_info.has_previous_page == (if left {
                    !no_cursor && count > 0
                } else {
                    has_more
                })
            }),
            Err(e) => e == ApiError::Internal && count_on_other_end is None,
        },
{
    let count = match count_on_other_end {
        Some(c) => c,
        None => {
            return Err(ApiError::Internal);
        },
    };
    let left = match &pagination.cursor_value {
        Some(CursorType::After(_)) => true,
        Some(CursorType::Before(_)) => false,
        None => match &pagination.index {
            Some(Index::Last(_)) => false,
            _ => true,
        },
    };
    let cursor_unavailable = CursorBuilder::is_cursor_unavailable(pagination);
    let ghost cats0 = categories@;
    let actual = actual_count as usize;
    let has_more = categories.len() > actual;
    let mut rows = categories;
    proof {
        assert(cats0.take(cats0.len() as int) =~= cats0);
    }
    while rows.len() > actual
        invariant
            rows@ == cats0.take(rows@.len() as int),
            rows@.len() <= cats0.len(),
            rows@.len() >= min_i(actual as int, cats0.len() as int),
            forall|i: int| 0 <= i < cats0.len() ==> valid_category(#[trigger] cats0[i]),
        decreases rows@.len(),
    {
        proof {
            let k = rows@.len() as int;
            assert(cats0.take(k).len() == k);
            assert(cats0.take(k).drop_last() =~= cats0.take(k - 1));
        }
        rows.pop();
    }
    proof {
        if has_more {
            assert(rows@ == cats0.take(actual as int));
        } else {
            assert(rows@.len() == cats0.len());
            assert(rows@ =~= cats0);
        }
        assert forall|i: int| 0 <= i < rows@.len() implies valid_category(
            #[trigger] rows@[i],
        ) by {
            assert(rows@[i] == cats0[i]);
        }
    }
    let ghost kept0 = rows@;
    let ghost ordered = if left {
        kept0
    } else {
        kept0.reverse()
    };
    let mut edges: Vec<Node> = Vec::new();
    while rows.len() > 0
        invariant
            rows@.len() + edges@.len() == kept0.len(),
            left ==> rows@ == kept0.skip(edges@.len() as int),
            !left ==> rows@ == kept0.take(rows@.len() as int),
            ordered == (if left {
                kept0
            } else {
                kept0.reverse()
            }),
            edges_match(edges@, ordered.take(edges@.len() as int)),
            forall|i: int| 0 <= i < kept0.len() ==> valid_category(#[trigger] kept0[i]),
        decreases rows@.len(),
    {
        let ghost i = edges@.len() as int;
        let c = if left {
            proof {
                assert(kept0.skip(i)[0] == kept0[i]);
                assert(kept0.skip(i).drop_first() =~= kept0.skip(i + 1));
            }
            rows.remove(0)
        } else {
            proof {
                assert(kept0.take(rows@.len() as int).last() == kept0[rows@.len() - 1]);
                assert(kept0.take(rows@.len() as int).drop_last() =~= kept0.take(
                    rows@.len() - 1,
                ));
                assert(ordered[i] == kept0[kept0.len() - 1 - i]);
            }
            match rows.pop() {
                Some(c) => c,
                None => {
                    proof {
                        assert(false);
                    }
                    return Err(ApiError::Internal);
                },
            }
        };
        proof {
            assert(c == ordered[i]);
            assert(valid_category(c));
        }
        let dt = c.created_at.to_rfc3339();
        let cursor = CursorBuilder::new(c.id.as_str(), dt.as_str()).encode();
        let ghost prev = edges@;
        proof {
            assert(no_colon(c.id@)) by {
                assert forall|k2: int| 0 <= k2 < c.id@.len() implies c.id@[k2] != ':' by {
                    crate::ids::lemma_id_char_not_colon(c.id@[k2]);
                }
            }
            assert(cursor_ok(cursor@, c.created_at, c.id@));
        }
        edges.push(Node { node: c, cursor });
        proof {
            assert forall|k2: int| 0 <= k2 < edges@.len() implies edge_for(
                #[trigger] edges@[k2],
                ordered.take(edges@.len() as int)[k2],
            ) by {
                if k2 < i {
                    assert(edges@[k2] == prev[k2]);
                    assert(edge_for(prev[k2], ordered.take(i)[k2]));
                    assert(ordered.take(i)[k2] == ordered.take(i + 1)[k2]);
                } else {
                    assert(ordered.take(i + 1)[k2] == ordered[i]);
                }
            }
        }
    }
    proof {
        assert(ordered.take(edges@.len() as int) =~= ordered);
    }
    let has_next = if left {
        has_more
    } else {
        !cursor_unavailable && count > 0
    };
    let has_prev = if left {
        !cursor_unavailable && count > 0
    } else {
        has_more
    };
    Ok(
        Connection {
            edges,
            page_info: PageInfo { has_next_page: has_next, has_previous_page: has_prev },
        },
    )
}

/// A forward page of the listing starting at `start`: its edges and flags.
pub open spec fn listing_ok_fwd(
    conn: Connection,
    s: Seq<Category>,
    start: int,
    n: int,
    at_start: bool,
) -> bool {
    &&& edges_match(conn.edges@, kept_fwd(s, start, n))
    &&& conn.page_info.has_next_page == (s.len() - start > n)
    &&& conn.page_info.has_previous_page == (!at_start && start > 0)
}

/// A backward page of the listing ending at `end`: its edges and flags.
pub open spec fn listing_ok_bwd(
    conn: Connection,
    s: Seq<Category>,
    end: int,
    n: int,
    at_end: bool,
) -> bool {
    &&& edges_match(conn.edges@, kept_bwd(s, end, n))
    &&& conn.page_info.has_previous_page == (end > n)
    &&& conn.page_info.has_next_page == (!at_end && s.len() - end > 0)
}

/// The text a cursor argument carries.
pub open spec fn cursor_text(ct: CursorType) -> Seq<char> {
    match ct {
        CursorType::After(s) => s@,
        CursorType::Before(s) => s@,
    }
}

/// Whether a cursor string names any key at all.
pub open spec fn cursor_decodes(cs: Seq<char>) -> bool {
    exists|t: Timestamp, cid: Seq<char>| no_colon(cid) && #[trigger] cursor_ok(cs, t, cid)
}

/// What a successful listing shows, for every key its cursor may name.
pub open spec fn listing_result_ok(conn: Connection, s: Seq<Category>, p: Pagination, n: int)
    -> bool {
    match p.cursor_value {
        None => match p.index {
            Some(Index::First(_)) => listing_ok_fwd(conn, s, 0, n, true),
            Some(Index::Last(_)) => listing_ok_bwd(conn, s, s.len() as int, n, true),
            None => false,
        },
        Some(CursorType::After(cs)) => {
            &&& (exists|t: Timestamp, cid: Seq<char>|
                no_colon(cid) && #[trigger] cursor_ok(cs@, t, cid))
            &&& forall|t: Timestamp, cid: Seq<char>|
                no_colon(cid) && #[trigger] cursor_ok(cs@, t, cid) ==> listing_ok_fwd(
                    conn,
                    s,
                    count_le(s, t, cid),
                    n,
                    false,
                )
        },
        Some(CursorType::Before(cs)) => {
            &&& (exists|t: Timestamp, cid: Seq<char>|
                no_colon(cid) && #[trigger] cursor_ok(cs@, t, cid))
            &&& forall|t: Timestamp, cid: Seq<char>|
                no_colon(cid) && #[trigger] cursor_ok(cs@, t, cid) ==> listing_ok_bwd(
                    conn,
                    s,
                    count_lt(s, t, cid),
                    n,
                    false,
                )
        },
    }
}

/// When a listing request fails, and with which kind.
pub open spec fn listing_err(e: ApiError, p: Pagination, limit: int) -> bool {
    match e {
        ApiError::Internal => p.index is None,
        ApiError::Invalid => p.index matches Some(idx) && {
            ||| crate::pagination::clamped_count(limit as i32, idx) < 1
            ||| (p.cursor_value matches Some(CursorType::After(_)) && idx matches Index::Last(_))
            ||| (p.cursor_value matches Some(CursorType::Before(_)) && idx matches Index::First(
                _,
            ))
            ||| (p.cursor_value matches Some(ct) && !cursor_decodes(cursor_text(ct)))
        },
        _ => false,
    }
}

/// Counts agree on lists with the same content.
pub proof fn lemma_count_view(s1: Seq<Category>, s2: Seq<Category>, t: Timestamp, id: Seq<char>)
    requires
        cats_view(s1) == cats_view(s2),
    ensures
        count_le(s1, t, id) == count_le(s2, t, id),
        count_lt(s1, t, id) == count_lt(s2, t, id),
    decreases s1.len(),
{
    assert(cats_view(s1).len() == s1.len());
    assert(cats_view(s2).len() == s2.len());
    assert(s1.len() == s2.len());
    if s1.len() > 0 {
        assert(cats_view(s1)[0] == s1[0]@);
        assert(cats_view(s2)[0] == s2[0]@);
        assert(s1[0].created_at == s1[0]@.created_at && s1[0].id@ == s1[0]@.id);
        assert(s2[0].created_at == s2[0]@.created_at && s2[0].id@ == s2[0]@.id);
        assert(cats_view(s1.drop_first()) =~= cats_view(s2.drop_first())) by {
            assert forall|i: int| 0 <= i < s1.len() - 1 implies cats_view(s1.drop_first())[i]
                == cats_view(s2.drop_first())[i] by {
                assert(s1.drop_first()[i] == s1[i + 1]);
                assert(s2.drop_first()[i] == s2[i + 1]);
                assert(cats_view(s1)[i + 1] == s1[i + 1]@);
                assert(cats_view(s2)[i + 1] == s2[i + 1]@);
            }
        }
        lemma_count_view(s1.drop_first(), s2.drop_first(), t, id);
    }
}

/// Edge matching sees only content.
pub proof fn lemma_edges_match_view(es: Seq<Node>, r1: Seq<Category>, r2: Seq<Category>)
    requires
        cats_view(r1) == cats_view(r2),
        edges_match(es, r1),
    ensures
        edges_match(es, r2),
{
    assert(cats_view(r1).len() == r1.len());
    assert(cats_view(r2).len() == r2.len());
    assert(r1.len() == r2.len());
    assert forall|i: int| 0 <= i < es.len() implies edge_for(#[trigger] es[i], r2[i]) by {
        assert(edge_for(es[i], r1[i]));
        assert(cats_view(r1)[i] == r1[i]@);
        assert(cats_view(r2)[i] == r2[i]@);
        assert(r1[i]@ == r2[i]@);
        assert(r2[i].created_at == r2[i]@.created_at && r2[i].id@ == r2[i]@.id);
        assert(r1[i].created_at == r1[i]@.created_at && r1[i].id@ == r1[i]@.id);
    }
}

/// Well-formedness sees only content.
pub proof fn lemma_wf_view(s1: Seq<Category>, s2: Seq<Category>)
    requires
        cats_view(s1) == cats_view(s2),
        wf_rows(s1),
    ensures
        wf_rows(s2),
{
    assert(cats_view(s1).len() == s1.len());
    assert(cats_view(s2).len() == s2.len());
    assert(s1.len() == s2.len());
    assert forall|i: int| 0 <= i < s2.len() implies s2[i]@ == s1[i]@ && (#[trigger] s2[i]).id@
        == s1[i].id@ && s2[i].created_at == s1[i].created_at by {
        assert(cats_view(s1)[i] == s1[i]@);
        assert(cats_view(s2)[i] == s2[i]@);
    }
    assert forall|a: int, b: int| 0 <= a < b < s2.len() implies row_lt(
        #[trigger] s2[a],
        #[trigger] s2[b],
    ) && s2[a].id@ != s2[b].id@ by {
        assert(row_lt(s1[a], s1[b]));
        assert(s1[a].id@ != s1[b].id@);
    }
    assert forall|i: int| 0 <= i < s2.len() implies valid_category(#[trigger] s2[i]) by {
        assert(valid_category(s1[i]));
        assert(s2[i]@ == s1[i]@);
        assert(s2[i].id@ == s1[i].id@);
        assert(s2[i].name@ == s2[i]@.name);
        assert(s1[i].name@ == s1[i]@.name);
        assert(crate::category::opt_str_view(s2[i].parent_id) == crate::category::opt_str_view(
            s1[i].parent_id,
        ));
        assert(s2[i].updated_at == s1[i].updated_at);
    }
}

/// Decides whether a row belongs to a parent's sublisting.
fn matches_parent(row: &Category, parent: &Option<String>) -> (r: bool)
    ensures
        r == scope_pred(ListingScope::Sub(*parent))(*row),
{
    match (&row.parent_id, parent) {
        (None, None) => true,
        (Some(a), Some(b)) => crate::text::str_eq(a.as_str(), b.as_str()),
        _ => false,
    }
}

/// Copies the rows of one parent's sublisting, in table order.
pub fn filter_scope(rows: &Vec<Category>, parent: &Option<String>) -> (r: Vec<Category>)
    ensures
        cats_view(r@) == cats_view(scope_rows(rows@, ListingScope::Sub(*parent))),
{
    proof {
        reveal(Seq::filter);
    }
    let ghost pred = scope_pred(ListingScope::Sub(*parent));
    let n = rows.len();
    let mut out: Vec<Category> = Vec::new();
    let mut i: usize = 0;
    proof {
        assert(rows@.take(0) =~= Seq::<Category>::empty());
        assert(rows@.take(0).filter(pred) =~= Seq::<Category>::empty());
    }
    while i < n
        invariant
            n == rows@.len(),
            0 <= i <= n,
            pred == scope_pred(ListingScope::Sub(*parent)),
            cats_view(out@) =~= cats_view(rows@.take(i as int).filter(pred)),
        decreases n - i,
    {
        let row = vstd::slice::slice_index_get(rows.as_slice(), i);
        let keep = matches_parent(row, parent);
        proof {
            reveal(Seq::filter);
            let tk1 = rows@.take(i + 1);
            assert(tk1.drop_last() =~= rows@.take(i as int));
            assert(tk1.last() == rows@[i as int]);
            if keep {
                assert(tk1.filter(pred) == rows@.take(i as int).filter(pred).push(
                    rows@[i as int],
                ));
            } else {
                assert(tk1.filter(pred) == rows@.take(i as int).filter(pred));
            }
        }
        if keep {
            let dup = row.duplicate();
            let ghost prev = out@;
            out.push(dup);
            proof {
                let a = cats_view(out@);
                let b = cats_view(rows@.take(i + 1).filter(pred));
                assert(a.len() == out@.len());
                assert(b.len() == rows@.take(i + 1).filter(pred).len());
                assert(cats_view(prev).len() == prev.len());
                assert(cats_view(rows@.take(i as int).filter(pred)).len() == rows@.take(
                    i as int,
                ).filter(pred).len());
                assert(a.len() == b.len());
                assert forall|k: int| 0 <= k < a.len() implies a[k] == b[k] by {
                    if k < prev.len() {
                        assert(out@[k] == prev[k]);
                        assert(cats_view(prev)[k] == cats_view(rows@.take(i as int).filter(
                            pred,
                        ))[k]);
                        assert(b[k] == rows@.take(i as int).filter(pred)[k]@);
                    } else {
                        assert(out@[k] == dup);
                        assert(b[k] == rows@[i as int]@);
                    }
                }
                assert(a =~= b);
            }
        }
        i += 1;
    }
    proof {
        assert(rows@.take(n as int) =~= rows@);
    }
    out
}



/// Validity sees only content.
pub proof fn lemma_valid_from_view(s1: Seq<Category>, s2: Seq<Category>)
    requires
        cats_view(s1) == cats_view(s2),
        forall|i: int| 0 <= i < s1.len() ==> valid_category(#[trigger] s1[i]),
    ensures
        forall|i: int| 0 <= i < s2.len() ==> valid_category(#[trigger] s2[i]),
{
    assert(cats_view(s1).len() == s1.len());
    assert(cats_view(s2).len() == s2.len());
    assert(s1.len() == s2.len());
    assert forall|i: int| 0 <= i < s2.len() implies valid_category(#[trigger] s2[i]) by {
        assert(cats_view(s1)[i] == s1[i]@);
        assert(cats_view(s2)[i] == s2[i]@);
        assert(s2[i]@ == s1[i]@);
        assert(valid_category(s1[i]));
        assert(s2[i].id@ == s1[i].id@);
        assert(s2[i].name@ == s2[i]@.name && s1[i].name@ == s1[i]@.name);
        assert(s2[i].created_at == s1[i].created_at && s2[i].updated_at == s1[i].updated_at);
        assert(crate::category::opt_str_view(s2[i].parent_id) == crate::category::opt_str_view(
            s1[i].parent_id,
        ));
    }
}

/// Links a parsed forward page to the listing postcondition.
proof fn lemma_fwd_link(
    conn: Connection,
    s: Seq<Category>,
    page: Seq<Category>,
    start: int,
    n: int,
    at_start: bool,
)
    requires
        n >= 1,
        0 <= start <= s.len(),
        cats_view(page) == cats_view(kept_fwd(s, start, n + 1)),
        edges_match(
            conn.edges@,
            (if page.len() > n {
                page.take(n)
            } else {
                page
            }),
        ),
        conn.page_info.has_next_page == (page.len() > n),
        conn.page_info.has_previous_page == (!at_start && start > 0),
    ensures
        listing_ok_fwd(conn, s, start, n, at_start),
{
    let ln = s.len() as int;
    let m1 = page.len() as int;
    assert(cats_view(page).len() == page.len());
    assert(cats_view(kept_fwd(s, start, n + 1)).len() == kept_fwd(s, start, n + 1).len());
    assert(m1 == kept_fwd(s, start, n + 1).len());
    assert(m1 == min_i(n + 1, ln - start));
    let kept = if m1 > n {
        page.take(n)
    } else {
        page
    };
    assert(cats_view(kept) =~= cats_view(kept_fwd(s, start, n))) by {
        assert(kept_fwd(s, start, n).len() == min_i(n, ln - start));
        assert(kept.len() == min_i(n, ln - start));
        assert forall|i: int| 0 <= i < kept.len() implies cats_view(kept)[i] == cats_view(
            kept_fwd(s, start, n),
        )[i] by {
            assert(kept[i] == page[i]);
            assert(cats_view(page)[i] == page[i]@);
            assert(cats_view(kept_fwd(s, start, n + 1))[i] == kept_fwd(s, start, n + 1)[i]@);
            assert(kept_fwd(s, start, n + 1)[i] == s[start + i]);
            assert(kept_fwd(s, start, n)[i] == s[start + i]);
        }
    }
    lemma_edges_match_view(conn.edges@, kept, kept_fwd(s, start, n));
}

/// Links a parsed backward page to the listing postcondition.
proof fn lemma_bwd_link(
    conn: Connection,
    s: Seq<Category>,
    page: Seq<Category>,
    end: int,
    n: int,
    at_end: bool,
)
    requires
        n >= 1,
        0 <= end <= s.len(),
        cats_view(page) == cats_view(kept_bwd(s, end, n + 1).reverse()),
        edges_match(
            conn.edges@,
            (if page.len() > n {
                page.take(n)
            } else {
                page
            }).reverse(),
        ),
        conn.page_info.has_previous_page == (page.len() > n),
        conn.page_info.has_next_page == (!at_end && s.len() - end > 0),
    ensures
        listing_ok_bwd(conn, s, end, n, at_end),
{
    let m1 = page.len() as int;
    assert(cats_view(page).len() == page.len());
    assert(cats_view(kept_bwd(s, end, n + 1).reverse()).len() == kept_bwd(
        s,
        end,
        n + 1,
    ).reverse().len());
    assert(m1 == kept_bwd(s, end, n + 1).reverse().len());
    assert(m1 == min_i(n + 1, end));
    let kept = if m1 > n {
        page.take(n)
    } else {
        page
    };
    let ordered = kept.reverse();
    assert(cats_view(ordered) =~= cats_view(kept_bwd(s, end, n))) by {
        assert(kept_bwd(s, end, n).len() == min_i(n, end));
        assert(ordered.len() == min_i(n, end));
        assert forall|i: int| 0 <= i < ordered.len() implies cats_view(ordered)[i] == cats_view(
            kept_bwd(s, end, n),
        )[i] by {
            let k = ordered.len() as int;
            assert(ordered[i] == kept[k - 1 - i]);
            assert(kept[k - 1 - i] == page[k - 1 - i]);
            assert(cats_view(page)[k - 1 - i] == page[k - 1 - i]@);
            let b = kept_bwd(s, end, n + 1);
            assert(cats_view(b.reverse())[k - 1 - i] == b.reverse()[k - 1 - i]@);
            assert(b.reverse()[k - 1 - i] == b[m1 - 1 - (k - 1 - i)]);
            assert(b[m1 - k + i] == s[end - m1 + (m1 - k + i)]);
            assert(kept_bwd(s, end, n)[i] == s[end - k + i]);
        }
    }
    lemma_edges_match_view(conn.edges@, ordered, kept_bwd(s, end, n));
}

/// Runs one listing request over a well-formed table.
///
/// Validates the pagination, decodes the cursor, issues the page and count
/// queries, and assembles the connection.
pub fn page_scope(rows: &Vec<Category>, pagination: &Pagination, query_limit: i32) -> (r: Result<
    Connection,
    ApiError,
>)
    requires
        wf_rows(rows@),
    ensures
        match r {
            Ok(conn) => pagination.index matches Some(idx) && crate::pagination::clamped_count(
                query_limit,
                idx,
            ) >= 1 && listing_result_ok(
                conn,
                rows@,
                *pagination,
                crate::pagination::clamped_count(query_limit, idx),
            ),
            Err(e) => listing_err(e, *pagination, query_limit as int),
        },
{
    let idx = match &pagination.index {
        Some(i) => *i,
        None => {
            return Err(ApiError::Internal);
        },
    };
    let n_i32 = crate::pagination::query_count(query_limit, &idx);
    if n_i32 < 1 {
        return Err(ApiError::Invalid);
    }
    let n = n_i32 as usize;
    let probe = n + 1;
    let ghost nn = n as int;
    match &pagination.cursor_value {
        None => {
            match idx {
                Index::First(_) => {
                    let page = query_page_first(rows, probe);
                    let ghost page0 = page@;
                    proof {
                        let slice = kept_fwd(rows@, 0, probe as int);
                        assert forall|i: int| 0 <= i < slice.len() implies valid_category(
                            #[trigger] slice[i],
                        ) by {
                            assert(slice[i] == rows@[i]);
                        }
                        lemma_valid_from_view(slice, page0);
                    }
                    let conn = match parse_categories(Some(0), page, pagination, n_i32) {
                        Ok(c) => c,
                        Err(_) => {
                            proof {
                                assert(false);
                            }
                            return Err(ApiError::Internal);
                        },
                    };
                    proof {
                        lemma_fwd_link(conn, rows@, page0, 0, nn, true);
                    }
                    Ok(conn)
                },
                Index::Last(_) => {
                    let page = query_page_last(rows, probe);
                    let ghost page0 = page@;
                    proof {
                        let b = kept_bwd(rows@, rows@.len() as int, probe as int);
                        let slice = b.reverse();
                        assert forall|i: int| 0 <= i < slice.len() implies valid_category(
                            #[trigger] slice[i],
                        ) by {
                            assert(slice[i] == b[b.len() - 1 - i]);
                            assert(b[b.len() - 1 - i] == rows@[rows@.len() - min_i(
                                probe as int,
                                rows@.len() as int,
                            ) + (b.len() - 1 - i)]);
                        }
                        lemma_valid_from_view(slice, page0);
                    }
                    let conn = match parse_categories(Some(0), page, pagination, n_i32) {
                        Ok(c) => c,
                        Err(_) => {
                            proof {
                                assert(false);
                            }
                            return Err(ApiError::Internal);
                        },
                    };
                    proof {
                        lemma_bwd_link(conn, rows@, page0, rows@.len() as int, nn, true);
                    }
                    Ok(conn)
                },
            }
        },
        Some(CursorType::After(cs)) => {
            match idx {
                Index::Last(_) => {
                    return Err(ApiError::Invalid);
                },
                _ => {},
            }
            let cb = match CursorBuilder::decode(cs.as_str()) {
                Ok(c) => c,
                Err(_) => {
                    proof {
                        assert(!cursor_decodes(cs@)) by {
                            if cursor_decodes(cs@) {
                                let (t, cid) = choose|t: Timestamp, cid: Seq<char>|
                                    no_colon(cid) && #[trigger] cursor_ok(cs@, t, cid);
                                assert(cursor_ok(cs@, t, cid));
                            }
                        }
                    }
                    return Err(ApiError::Invalid);
                },
            };
            let ts = match Timestamp::parse_rfc3339(cb.dt()) {
                Some(t) => t,
                None => {
                    proof {
                        assert(!cursor_decodes(cs@)) by {
                            if cursor_decodes(cs@) {
                                let (t2, cid2) = choose|t2: Timestamp, cid2: Seq<char>|
                                    no_colon(cid2) && #[trigger] cursor_ok(cs@, t2, cid2);
                                let (y, mo, d, h, mi, sec) = choose|
                                    y: int,
                                    mo: int,
                                    d: int,
                                    h: int,
                                    mi: int,
                                    sec: int,
                                |
                                    is_decomp(t2, y, mo, d, h, mi, sec) && cs@ == b64url_of(
                                        cursor_payload(
                                            rfc3339_render(y, mo, d, h, mi, sec, t2.nanos as int),
                                            cid2,
                                        ),
                                    );
                                assert(cb.spec_dt() == rfc3339_render(
                                    y,
                                    mo,
                                    d,
                                    h,
                                    mi,
                                    sec,
                                    t2.nanos as int,
                                ));
                                assert(false);
                            }
                        }
                    }
                    return Err(ApiError::Invalid);
                },
            };
            let start = query_count_after(rows, &ts, cb.id());
            let count_arg: i64 = if start > (i64::MAX as usize) {
                i64::MAX
            } else {
                start as i64
            };
            let page = query_page_after(rows, &ts, cb.id(), probe);
            let ghost page0 = page@;
            proof {
                let st = count_le(rows@, ts, cb.spec_id());
                lemma_count_le_boundary(rows@, ts, cb.spec_id());
                let slice = kept_fwd(rows@, st, probe as int);
                assert forall|i: int| 0 <= i < slice.len() implies valid_category(
                    #[trigger] slice[i],
                ) by {
                    assert(slice[i] == rows@[st + i]);
                }
                lemma_valid_from_view(slice, page0);
            }
            let conn = match parse_categories(Some(count_arg), page, pagination, n_i32) {
                Ok(c) => c,
                Err(_) => {
                    proof {
                        assert(false);
                    }
                    return Err(ApiError::Internal);
                },
            };
            proof {
                let cid = cb.spec_id();
                let (y0, mo0, d0, h0, mi0, sec0) = choose|
                    y0: int,
                    mo0: int,
                    d0: int,
                    h0: int,
                    mi0: int,
                    sec0: int,
                |
                    is_decomp(ts, y0, mo0, d0, h0, mi0, sec0) && cb.spec_dt() == rfc3339_render(
                        y0,
                        mo0,
                        d0,
                        h0,
                        mi0,
                        sec0,
                        ts.nanos as int,
                    );
                assert(cursor_ok(cs@, ts, cid));
                lemma_fwd_link(conn, rows@, page0, count_le(rows@, ts, cid), nn, false);
                assert forall|t2: Timestamp, cid2: Seq<char>|
                    no_colon(cid2) && #[trigger] cursor_ok(cs@, t2, cid2) implies listing_ok_fwd(
                    conn,
                    rows@,
                    count_le(rows@, t2, cid2),
                    nn,
                    false,
                ) by {
                    let (y, mo, d, h, mi, sec) = choose|
                        y: int,
                        mo: int,
                        d: int,
                        h: int,
                        mi: int,
                        sec: int,
                    |
                        is_decomp(t2, y, mo, d, h, mi, sec) && cs@ == b64url_of(
                            cursor_payload(
                                rfc3339_render(y, mo, d, h, mi, sec, t2.nanos as int),
                                cid2,
                            ),
                        );
                    assert(cb.spec_dt() == rfc3339_render(y, mo, d, h, mi, sec, t2.nanos as int)
                        && cb.spec_id() == cid2);
                    crate::timestamp::lemma_fields_ts_valid(
                        y,
                        mo,
                        d,
                        h,
                        mi,
                        sec,
                        t2.nanos as int,
                    );
                    assert(ts == crate::timestamp::ts_of_fields(
                        y,
                        mo,
                        d,
                        h,
                        mi,
                        sec,
                        t2.nanos as int,
                    ));
                    assert(crate::timestamp::ts_of_fields(
                        y,
                        mo,
                        d,
                        h,
                        mi,
                        sec,
                        t2.nanos as int,
                    ) == t2);
                    assert(t2 == ts && cid2 == cid);
                }
            }
            Ok(conn)
        },
        Some(CursorType::Before(cs)) => {
            match idx {
                Index::First(_) => {
                    return Err(ApiError::Invalid);
                },
                _ => {},
            }
            let cb = match CursorBuilder::decode(cs.as_str()) {
                Ok(c) => c,
                Err(_) => {
                    proof {
                        assert(!cursor_decodes(cs@)) by {
                            if cursor_decodes(cs@) {
                                let (t, cid) = choose|t: Timestamp, cid: Seq<char>|
                                    no_colon(cid) && #[trigger] cursor_ok(cs@, t, cid);
                                assert(cursor_ok(cs@, t, cid));
                            }
                        }
                    }
                    return Err(ApiError::Invalid);
                },
            };
            let ts = match Timestamp::parse_rfc3339(cb.dt()) {
                Some(t) => t,
                None => {
                    proof {
                        assert(!cursor_decodes(cs@)) by {
                            if cursor_decodes(cs@) {
                                let (t2, cid2) = choose|t2: Timestamp, cid2: Seq<char>|
                                    no_colon(cid2) && #[trigger] cursor_ok(cs@, t2, cid2);
                                let (y, mo, d, h, mi, sec) = choose|
                                    y: int,
                                    mo: int,
                                    d: int,
                                    h: int,
                                    mi: int,
                                    sec: int,
                                |
                                    is_decomp(t2, y, mo, d, h, mi, sec) && cs@ == b64url_of(
                                        cursor_payload(
                                            rfc3339_render(y, mo, d, h, mi, sec, t2.nanos as int),
                                            cid2,
                                        ),
                                    );
                                assert(cb.spec_dt() == rfc3339_render(
                                    y,
                                    mo,
                                    d,
                                    h,
                                    mi,
                                    sec,
                                    t2.nanos as int,
                                ));
                                assert(false);
                            }
                        }
                    }
                    return Err(ApiError::Invalid);
                },
            };
            let other = query_count_before(rows, &ts, cb.id());
            let count_arg: i64 = if other > (i64::MAX as usize) {
                i64::MAX
            } else {
                other as i64
            };
            let page = query_page_before(rows, &ts, cb.id(), probe);
            let ghost page0 = page@;
            proof {
                let en = count_lt(rows@, ts, cb.spec_id());
                lemma_count_lt_boundary(rows@, ts, cb.spec_id());
                let b = kept_bwd(rows@, en, probe as int);
                let slice = b.reverse();
                assert forall|i: int| 0 <= i < slice.len() implies valid_category(
                    #[trigger] slice[i],
                ) by {
                    assert(slice[i] == b[b.len() - 1 - i]);
                    assert(b[b.len() - 1 - i] == rows@[en - min_i(probe as int, en) + (b.len() - 1
                        - i)]);
                }
                lemma_valid_from_view(slice, page0);
            }
            let conn = match parse_categories(Some(count_arg), page, pagination, n_i32) {
                Ok(c) => c,
                Err(_) => {
                    proof {
                        assert(false);
                    }
                    return Err(ApiError::Internal);
                },
            };
            proof {
                let cid = cb.spec_id();
                let (y0, mo0, d0, h0, mi0, sec0) = choose|
                    y0: int,
                    mo0: int,
                    d0: int,
                    h0: int,
                    mi0: int,
                    sec0: int,
                |
                    is_decomp(ts, y0, mo0, d0, h0, mi0, sec0) && cb.spec_dt() == rfc3339_render(
                        y0,
                        mo0,
                        d0,
                        h0,
                        mi0,
                        sec0,
                        ts.nanos as int,
                    );
                assert(cursor_ok(cs@, ts, cid));
                lemma_bwd_link(conn, rows@, page0, count_lt(rows@, ts, cid), nn, false);
                assert forall|t2: Timestamp, cid2: Seq<char>|
                    no_colon(cid2) && #[trigger] cursor_ok(cs@, t2, cid2) implies listing_ok_bwd(
                    conn,
                    rows@,
                    count_lt(rows@, t2, cid2),
                    nn,
                    false,
                ) by {
                    let (y, mo, d, h, mi, sec) = choose|
                        y: int,
                        mo: int,
                        d: int,
                        h: int,
                        mi: int,
                        sec: int,
                    |
                        is_decomp(t2, y, mo, d, h, mi, sec) && cs@ == b64url_of(
                            cursor_payload(
                                rfc3339_render(y, mo, d, h, mi, sec, t2.nanos as int),
                                cid2,
                            ),
                        );
                    assert(cb.spec_dt() == rfc3339_render(y, mo, d, h, mi, sec, t2.nanos as int)
                        && cb.spec_id() == cid2);
                    crate::timestamp::lemma_fields_ts_valid(
                        y,
                        mo,
                        d,
                        h,
                        mi,
                        sec,
                        t2.nanos as int,
                    );
                    assert(ts == crate::timestamp::ts_of_fields(
                        y,
                        mo,
                        d,
                        h,
                        mi,
                        sec,
                        t2.nanos as int,
                    ));
                    assert(crate::timestamp::ts_of_fields(
                        y,
                        mo,
                        d,
                        h,
                        mi,
                        sec,
                        t2.nanos as int,
                    ) == t2);
                    assert(t2 == ts && cid2 == cid);
                }
            }
            Ok(conn)
        },
    }
}

/// A forward page transfers to any list with the same content.
proof fn lemma_fwd_view(
    conn: Connection,
    s1: Seq<Category>,
    s2: Seq<Category>,
    start: int,
    n: int,
    at_start: bool,
)
    requires
        n >= 0,
        cats_view(s1) == cats_view(s2),
        listing_ok_fwd(conn, s1, start, n, at_start),
        0 <= start <= s1.len(),
    ensures
        listing_ok_fwd(conn, s2, start, n, at_start),
{
    assert(cats_view(s1).len() == s1.len());
    assert(cats_view(s2).len() == s2.len());
    assert(cats_view(kept_fwd(s1, start, n)) =~= cats_view(kept_fwd(s2, start, n))) by {
        assert forall|i: int| 0 <= i < kept_fwd(s1, start, n).len() implies cats_view(
            kept_fwd(s1, start, n),
        )[i] == cats_view(kept_fwd(s2, start, n))[i] by {
            assert(kept_fwd(s1, start, n)[i] == s1[start + i]);
            assert(kept_fwd(s2, start, n)[i] == s2[start + i]);
            assert(cats_view(s1)[start + i] == s1[start + i]@);
            assert(cats_view(s2)[start + i] == s2[start + i]@);
        }
    }
    lemma_edges_match_view(conn.edges@, kept_fwd(s1, start, n), kept_fwd(s2, start, n));
}

/// A backward page transfers to any list with the same content.
proof fn lemma_bwd_view(
    conn: Connection,
    s1: Seq<Category>,
    s2: Seq<Category>,
    end: int,
    n: int,
    at_end: bool,
)
    requires
        n >= 0,
        cats_view(s1) == cats_view(s2),
        listing_ok_bwd(conn, s1, end, n, at_end),
        0 <= end <= s1.len(),
    ensures
        listing_ok_bwd(conn, s2, end, n, at_end),
{
    assert(cats_view(s1).len() == s1.len());
    assert(cats_view(s2).len() == s2.len());
    assert(cats_view(kept_bwd(s1, end, n)) =~= cats_view(kept_bwd(s2, end, n))) by {
        assert forall|i: int| 0 <= i < kept_bwd(s1, end, n).len() implies cats_view(
            kept_bwd(s1, end, n),
        )[i] == cats_view(kept_bwd(s2, end, n))[i] by {
            let lo = end - min_i(n, end);
            assert(kept_bwd(s1, end, n)[i] == s1[lo + i]);
            assert(kept_bwd(s2, end, n)[i] == s2[lo + i]);
            assert(cats_view(s1)[lo + i] == s1[lo + i]@);
            assert(cats_view(s2)[lo + i] == s2[lo + i]@);
        }
    }
    lemma_edges_match_view(conn.edges@, kept_bwd(s1, end, n), kept_bwd(s2, end, n));
}

/// A whole listing result transfers to any list with the same content.
proof fn lemma_listing_view(
    conn: Connection,
    s1: Seq<Category>,
    s2: Seq<Category>,
    p: Pagination,
    n: int,
)
    requires
        n >= 0,
        cats_view(s1) == cats_view(s2),
        sorted(s1),
        listing_result_ok(conn, s1, p, n),
    ensures
        listing_result_ok(conn, s2, p, n),
{
    assert(cats_view(s1).len() == s1.len());
    assert(cats_view(s2).len() == s2.len());
    match p.cursor_value {
        None => match p.index {
            Some(Index::First(_)) => {
                lemma_fwd_view(conn, s1, s2, 0, n, true);
            },
            Some(Index::Last(_)) => {
                lemma_bwd_view(conn, s1, s2, s1.len() as int, n, true);
            },
            None => {},
        },
        Some(CursorType::After(cs)) => {
            assert forall|t: Timestamp, cid: Seq<char>|
                no_colon(cid) && #[trigger] cursor_ok(cs@, t, cid) implies listing_ok_fwd(
                conn,
                s2,
                count_le(s2, t, cid),
                n,
                false,
            ) by {
                lemma_count_view(s1, s2, t, cid);
                lemma_count_le_boundary(s1, t, cid);
                lemma_fwd_view(conn, s1, s2, count_le(s1, t, cid), n, false);
            }
        },
        Some(CursorType::Before(cs)) => {
            assert forall|t: Timestamp, cid: Seq<char>|
                no_colon(cid) && #[trigger] cursor_ok(cs@, t, cid) implies listing_ok_bwd(
                conn,
                s2,
                count_lt(s2, t, cid),
                n,
                false,
            ) by {
                lemma_count_view(s1, s2, t, cid);
                lemma_count_lt_boundary(s1, t, cid);
                lemma_bwd_view(conn, s1, s2, count_lt(s1, t, cid), n, false);
            }
        },
    }
}

impl Store {
    /// gets all categories
    ///
    /// The listing read path over the table of record: validates the
    /// pagination, pages by keyset, and returns ascending edges.
    pub fn categories(&self, pagination: &Pagination, query_limit: i32) -> (r: Result<
        Connection,
        ApiError,
    >)
        requires
            self.wf(),
        ensures
            match r {
                Ok(conn) => pagination.index matches Some(idx)
                    && crate::pagination::clamped_count(query_limit, idx) >= 1
                    && listing_result_ok(
                    conn,
                    self.rows@,
                    *pagination,
                    crate::pagination::clamped_count(query_limit, idx),
                ),
                Err(e) => listing_err(e, *pagination, query_limit as int),
            },
    {
        page_scope(&self.rows, pagination, query_limit)
    }

    /// get subcategories
    ///
    /// The same listing over one parent's rows; `None` lists top-level rows.
    pub fn sub_categories(
        &self,
        parent_id: &Option<String>,
        pagination: &Pagination,
        query_limit: i32,
    ) -> (r: Result<Connection, ApiError>)
        requires
            self.wf(),
        ensures
            match r {
                Ok(conn) => pagination.index matches Some(idx)
                    && crate::pagination::clamped_count(query_limit, idx) >= 1
                    && listing_result_ok(
                    conn,
                    scope_rows(self.rows@, ListingScope::Sub(*parent_id)),
                    *pagination,
                    crate::pagination::clamped_count(query_limit, idx),
                ),
                Err(e) => listing_err(e, *pagination, query_limit as int),
            },
    {
        let filtered = filter_scope(&self.rows, parent_id);
        proof {
            lemma_filter_wf(self.rows@, scope_pred(ListingScope::Sub(*parent_id)));
            lemma_wf_view(scope_rows(self.rows@, ListingScope::Sub(*parent_id)), filtered@);
        }
        let r = page_scope(&filtered, pagination, query_limit);
        proof {
            match &r {
                Ok(conn) => {
                    lemma_listing_view(
                        *conn,
                        filtered@,
                        scope_rows(self.rows@, ListingScope::Sub(*parent_id)),
                        *pagination,
                        crate::pagination::clamped_count(
                            query_limit,
                            pagination.index.unwrap(),
                        ),
                    );
                },
                Err(_) => {},
            }
        }
        r
    }

    /// get category by id
    ///
    /// The store branch of the cache-aside read: the row, or `NotFound`.
    pub fn category_by_id(&self, id: &str) -> (r: Result<Category, ApiError>)
        requires
            self.wf(),
        ensures
            match r {
                Ok(c) => by_id_spec(self.rows@, id@) matches Some(row) && c@ == row@,
                Err(e) => e == ApiError::NotFound && by_id_spec(self.rows@, id@) is None,
            },
    {
        match self.by_id(id) {
            Some(row) => Ok(row.duplicate()),
            None => Err(ApiError::NotFound),
        }
    }
}

} // verus!
