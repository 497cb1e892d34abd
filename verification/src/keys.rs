//! Cache-key scheme: deterministic, colon-delimited keys for entity and
//! connection caches, injective over every input that affects a query result.
use vstd::prelude::*;

use crate::ids::valid_id;
use crate::text::{
    chars_to_string, int_digits, is_b64_str, join_colon, lemma_int_digits_injective,
    lemma_join_colon_injective, lemma_prepend_injective, no_colon, push_int_digits,
    push_str_chars,
};

verus! {

/// Whether a listing pages forward (`first:N`) or backward (`last:N`).
#[derive(Clone, Copy, Debug, PartialEq, Eq, Structural)]
pub enum Index {
    /// Forward: the first `N` rows.
    First(i32),
    /// Backward: the last `N` rows.
    Last(i32),
}

/// The pagination inputs a listing key is derived from.
#[derive(Clone, Debug, PartialEq, Eq)]
pub struct CursorParams {
    /// The raw cursor string, absent when paging from an end.
    pub cursor: Option<String>,
    /// Page direction and size.
    pub index: Index,
}

/// A key in the cache's key space.
#[derive(Clone, Debug, PartialEq, Eq)]
pub enum CacheKey {
    /// Listing of all categories.
    Categories(CursorParams),
    /// Sublisting of one parent's categories; `None` means top-level rows.
    CategoriesSubCategory(CursorParams, Option<String>),
    /// A single category by id.
    Category(String),
}

/// The token holding a cursor, `[NONE]` when absent.
pub open spec fn cursor_token(c: Option<Seq<char>>) -> Seq<char> {
    match c {
        Some(s) => "cursor="@ + s,
        None => "cursor="@ + "[NONE]"@,
    }
}

/// The direction token of an index.
pub open spec fn index_name_token(i: Index) -> Seq<char> {
    match i {
        Index::First(_) => "index=first"@,
        Index::Last(_) => "index=last"@,
    }
}

/// The size carried by an index.
pub open spec fn index_count(i: Index) -> int {
    match i {
        Index::First(n) => n as int,
        Index::Last(n) => n as int,
    }
}

/// The token holding a parent id, `[NONE]` for top-level rows.
pub open spec fn parent_token(p: Option<Seq<char>>) -> Seq<char> {
    match p {
        Some(s) => "parent="@ + s,
        None => "parent="@ + "[NONE]"@,
    }
}

/// A cursor value's view, when present.
pub open spec fn cursor_view(c: Option<String>) -> Option<Seq<char>> {
    match c {
        Some(s) => Some(s@),
        None => None,
    }
}

/// The colon-separated tokens a key renders to.
pub open spec fn key_tokens(k: CacheKey) -> Seq<Seq<char>> {
    match k {
        CacheKey::Category(id) => seq!["categories"@, "id="@ + id@],
        CacheKey::Categories(p) => seq![
            "categories"@,
            "all"@,
            cursor_token(cursor_view(p.cursor)),
            index_name_token(p.index),
            int_digits(index_count(p.index)),
        ],
        CacheKey::CategoriesSubCategory(p, parent) => seq![
            "categories"@,
            "subcategories"@,
            cursor_token(cursor_view(p.cursor)),
            index_name_token(p.index),
            int_digits(index_count(p.index)),
            parent_token(cursor_view(parent)),
        ],
    }
}

/// The full text of a cache key.
pub open spec fn key_text(k: CacheKey) -> Seq<char> {
    join_colon(key_tokens(k))
}

/// Well-formed key inputs: cursors are base64url text, ids are well-formed.
pub open spec fn key_valid(k: CacheKey) -> bool {
    match k {
        CacheKey::Category(id) => valid_id(id@),
        CacheKey::Categories(p) => params_valid(p),
        CacheKey::CategoriesSubCategory(p, parent) => params_valid(p) && match parent {
            Some(s) => valid_id(s@),
            None => true,
        },
    }
}

/// Well-formed pagination inputs for a key.
pub open spec fn params_valid(p: CursorParams) -> bool {
    match p.cursor {
        Some(s) => is_b64_str(s@),
        None => true,
    }
}

/// Keys naming the same inputs: equal cursor text, direction, size, kind and
/// parent.
pub open spec fn key_congruent(k1: CacheKey, k2: CacheKey) -> bool {
    match (k1, k2) {
        (CacheKey::Category(a), CacheKey::Category(b)) => a@ == b@,
        (CacheKey::Categories(p), CacheKey::Categories(q)) => params_congruent(p, q),
        (
            CacheKey::CategoriesSubCategory(p, pa),
            CacheKey::CategoriesSubCategory(q, qa),
        ) => params_congruent(p, q) && cursor_view(pa) == cursor_view(qa),
        _ => false,
    }
}

/// Pagination inputs naming the same page.
pub open spec fn params_congruent(p: CursorParams, q: CursorParams) -> bool {
    cursor_view(p.cursor) == cursor_view(q.cursor) && p.index == q.index
}

proof fn lemma_join2(t0: Seq<char>, t1: Seq<char>)
    ensures
        join_colon(seq![t0, t1]) == t0 + seq![':'] + t1,
{
    assert(join_colon(seq![t1]) == t1);
    assert(seq![t0, t1].drop_first() =~= seq![t1]);
}

proof fn lemma_join5(t0: Seq<char>, t1: Seq<char>, t2: Seq<char>, t3: Seq<char>, t4: Seq<char>)
    ensures
        join_colon(seq![t0, t1, t2, t3, t4]) == t0 + seq![':'] + t1 + seq![':'] + t2 + seq![':']
            + t3 + seq![':'] + t4,
{
    assert(join_colon(seq![t4]) == t4);
    assert(seq![t3, t4].drop_first() =~= seq![t4]);
    assert(join_colon(seq![t3, t4]) == t3 + seq![':'] + t4);
    assert(seq![t2, t3, t4].drop_first() =~= seq![t3, t4]);
    assert(join_colon(seq![t2, t3, t4]) == t2 + seq![':'] + (t3 + seq![':'] + t4));
    assert(seq![t1, t2, t3, t4].drop_first() =~= seq![t2, t3, t4]);
    assert(join_colon(seq![t1, t2, t3, t4]) == t1 + seq![':'] + (t2 + seq![':'] + (t3 + seq![':']
        + t4)));
    assert(seq![t0, t1, t2, t3, t4].drop_first() =~= seq![t1, t2, t3, t4]);
    assert(join_colon(seq![t0, t1, t2, t3, t4]) =~= t0 + seq![':'] + t1 + seq![':'] + t2
        + seq![':'] + t3 + seq![':'] + t4);
}

proof fn lemma_join6(
    t0: Seq<char>,
    t1: Seq<char>,
    t2: Seq<char>,
    t3: Seq<char>,
    t4: Seq<char>,
    t5: Seq<char>,
)
    ensures
        join_colon(seq![t0, t1, t2, t3, t4, t5]) == t0 + seq![':'] + t1 + seq![':'] + t2
            + seq![':'] + t3 + seq![':'] + t4 + seq![':'] + t5,
{
    assert(join_colon(seq![t5]) == t5);
    assert(seq![t4, t5].drop_first() =~= seq![t5]);
    assert(join_colon(seq![t4, t5]) == t4 + seq![':'] + t5);
    assert(seq![t3, t4, t5].drop_first() =~= seq![t4, t5]);
    assert(join_colon(seq![t3, t4, t5]) == t3 + seq![':'] + (t4 + seq![':'] + t5));
    assert(seq![t2, t3, t4, t5].drop_first() =~= seq![t3, t4, t5]);
    assert(join_colon(seq![t2, t3, t4, t5]) == t2 + seq![':'] + (t3 + seq![':'] + (t4 + seq![':']
        + t5)));
    assert(seq![t1, t2, t3, t4, t5].drop_first() =~= seq![t2, t3, t4, t5]);
    assert(join_colon(seq![t1, t2, t3, t4, t5]) == t1 + seq![':'] + (t2 + seq![':'] + (t3
        + seq![':'] + (t4 + seq![':'] + t5))));
    assert(seq![t0, t1, t2, t3, t4, t5].drop_first() =~= seq![t1, t2, t3, t4, t5]);
    assert(join_colon(seq![t0, t1, t2, t3, t4, t5]) =~= t0 + seq![':'] + t1 + seq![':'] + t2
        + seq![':'] + t3 + seq![':'] + t4 + seq![':'] + t5);
}

impl CursorParams {
    /// Renders the cursor and index tokens.
    fn push_tokens(&self, out: &mut Vec<char>)
        ensures
            final(out)@ == old(out)@ + cursor_token(cursor_view(self.cursor)) + seq![':']
                + index_name_token(self.index) + seq![':'] + int_digits(index_count(self.index)),
    {
        push_str_chars(out, "cursor=");
        match &self.cursor {
            Some(c) => push_str_chars(out, c.as_str()),
            None => push_str_chars(out, "[NONE]"),
        }
        out.push(':');
        match self.index {
            Index::First(_) => push_str_chars(out, "index=first"),
            Index::Last(_) => push_str_chars(out, "index=last"),
        }
        out.push(':');
        match self.index {
            Index::First(n) => push_int_digits(out, n),
            Index::Last(n) => push_int_digits(out, n),
        }
        assert(final(out)@ =~= old(out)@ + cursor_token(cursor_view(self.cursor)) + seq![':']
            + index_name_token(self.index) + seq![':'] + int_digits(index_count(self.index)));
    }
}

impl CacheKey {
    /// Renders the key's text.
    pub fn render(&self) -> (r: String)
        ensures
            r@ == key_text(*self),
    {
        let mut out: Vec<char> = Vec::new();
        push_str_chars(&mut out, "categories");
        out.push(':');
        match self {
            CacheKey::Category(id) => {
                push_str_chars(&mut out, "id=");
                push_str_chars(&mut out, id.as_str());
                proof {
                    lemma_join2("categories"@, "id="@ + id@);
                    assert(out@ =~= key_text(*self));
                }
            },
            CacheKey::Categories(p) => {
                push_str_chars(&mut out, "all");
                out.push(':');
                p.push_tokens(&mut out);
                proof {
                    lemma_join5(
                        "categories"@,
                        "all"@,
                        cursor_token(cursor_view(p.cursor)),
                        index_name_token(p.index),
                        int_digits(index_count(p.index)),
                    );
                    assert(out@ =~= key_text(*self));
                }
            },
            CacheKey::CategoriesSubCategory(p, parent) => {
                push_str_chars(&mut out, "subcategories");
                out.push(':');
                p.push_tokens(&mut out);
                out.push(':');
                push_str_chars(&mut out, "parent=");
                match parent {
                    Some(s) => push_str_chars(&mut out, s.as_str()),
                    None => push_str_chars(&mut out, "[NONE]"),
                }
                proof {
                    lemma_join6(
                        "categories"@,
                        "subcategories"@,
                        cursor_token(cursor_view(p.cursor)),
                        index_name_token(p.index),
                        int_digits(index_count(p.index)),
                        parent_token(cursor_view(*parent)),
                    );
                    assert(out@ =~= key_text(*self));
                }
            },
        }
        chars_to_string(&out)
    }
}

/// Length and colon-freeness of every literal the key scheme uses.
proof fn lemma_key_literals()
    ensures
        no_colon("categories"@) && "categories"@.len() == 10,
        no_colon("all"@) && "all"@.len() == 3,
        no_colon("subcategories"@) && "subcategories"@.len() == 13,
        no_colon("id="@) && "id="@.len() == 3,
        no_colon("cursor="@) && "cursor="@.len() == 7,
        no_colon("[NONE]"@) && "[NONE]"@.len() == 6,
        no_colon("index=first"@) && "index=first"@.len() == 11,
        no_colon("index=last"@) && "index=last"@.len() == 10,
        no_colon("parent="@) && "parent="@.len() == 7,
        "[NONE]"@[0] == '[',
{
    reveal_strlit("categories");
    reveal_strlit("all");
    reveal_strlit("subcategories");
    reveal_strlit("id=");
    reveal_strlit("cursor=");
    reveal_strlit("[NONE]");
    reveal_strlit("index=first");
    reveal_strlit("index=last");
    reveal_strlit("parent=");
}

/// A literal prefix plus colon-free text is a colon-free, non-empty token.
proof fn lemma_token_wf(prefix: Seq<char>, body: Seq<char>)
    requires
        no_colon(prefix),
        no_colon(body),
        prefix.len() > 0,
    ensures
        no_colon(prefix + body),
        (prefix + body).len() > 0,
{
    assert forall|i: int| 0 <= i < (prefix + body).len() implies (prefix + body)[i] != ':' by {
        if i < prefix.len() {
            assert((prefix + body)[i] == prefix[i]);
        } else {
            assert((prefix + body)[i] == body[i - prefix.len()]);
        }
    }
}

/// Ids and base64url text hold no colon.
proof fn lemma_bodies_colon_free(k: CacheKey)
    requires
        key_valid(k),
    ensures
        forall|i: int|
            0 <= i < key_tokens(k).len() ==> no_colon(#[trigger] key_tokens(k)[i]) && key_tokens(
                k,
            )[i].len() > 0,
{
    lemma_key_literals();
    let ts = key_tokens(k);
    match k {
        CacheKey::Category(id) => {
            assert(no_colon(id@)) by {
                assert forall|i: int| 0 <= i < id@.len() implies id@[i] != ':' by {
                    crate::ids::lemma_id_char_not_colon(id@[i]);
                }
            }
            lemma_token_wf("id="@, id@);
            assert(ts[0] == "categories"@);
            assert(ts[1] == "id="@ + id@);
        },
        CacheKey::Categories(p) => {
            lemma_params_tokens_wf(p);
            assert(ts[0] == "categories"@);
            assert(ts[1] == "all"@);
        },
        CacheKey::CategoriesSubCategory(p, parent) => {
            lemma_params_tokens_wf(p);
            match parent {
                Some(s) => {
                    assert(no_colon(s@)) by {
                        assert forall|i: int| 0 <= i < s@.len() implies s@[i] != ':' by {
                            crate::ids::lemma_id_char_not_colon(s@[i]);
                        }
                    }
                    lemma_token_wf("parent="@, s@);
                },
                None => {
                    lemma_token_wf("parent="@, "[NONE]"@);
                },
            }
            assert(ts[0] == "categories"@);
            assert(ts[1] == "subcategories"@);
            assert(ts[5] == parent_token(cursor_view(parent)));
        },
    }
}

/// The cursor, direction and size tokens are colon-free and non-empty.
proof fn lemma_params_tokens_wf(p: CursorParams)
    requires
        params_valid(p),
    ensures
        no_colon(cursor_token(cursor_view(p.cursor))),
        cursor_token(cursor_view(p.cursor)).len() > 0,
        no_colon(index_name_token(p.index)),
        index_name_token(p.index).len() > 0,
        no_colon(int_digits(index_count(p.index))),
        int_digits(index_count(p.index)).len() > 0,
{
    lemma_key_literals();
    match p.cursor {
        Some(c) => {
            assert(no_colon(c@)) by {
                assert forall|i: int| 0 <= i < c@.len() implies c@[i] != ':' by {
                    assert(crate::text::is_b64_char(c@[i]));
                }
            }
            lemma_token_wf("cursor="@, c@);
        },
        None => {
            lemma_token_wf("cursor="@, "[NONE]"@);
        },
    }
    let n = index_count(p.index);
    if n >= 0 {
        crate::text::lemma_dec_digits_chars(n);
        assert(no_colon(int_digits(n))) by {
            assert forall|i: int| 0 <= i < int_digits(n).len() implies int_digits(n)[i] != ':' by {
                assert(crate::text::is_digit_char(int_digits(n)[i]));
            }
        }
    } else {
        crate::text::lemma_dec_digits_chars(-n);
        assert(no_colon(int_digits(n))) by {
            assert forall|i: int| 0 <= i < int_digits(n).len() implies int_digits(n)[i] != ':' by {
                if i > 0 {
                    assert(int_digits(n)[i] == dec_digits_at(-n, i - 1));
                    assert(crate::text::is_digit_char(dec_digits_at(-n, i - 1)));
                }
            }
        }
    }
}

/// Index into a positive decimal rendering; helper for trigger placement.
spec fn dec_digits_at(n: int, i: int) -> char {
    crate::text::dec_digits(n)[i]
}

/// The same cursor token names the same cursor.
proof fn lemma_cursor_token_injective(c1: Option<Seq<char>>, c2: Option<Seq<char>>)
    requires
        cursor_token(c1) == cursor_token(c2),
        (c1 matches Some(s) ==> is_b64_str(s)),
        (c2 matches Some(s) ==> is_b64_str(s)),
    ensures
        c1 == c2,
{
    lemma_key_literals();
    match (c1, c2) {
        (Some(a), Some(b)) => {
            lemma_prepend_injective("cursor="@, a, b);
        },
        (Some(a), None) => {
            lemma_prepend_injective("cursor="@, a, "[NONE]"@);
            assert(a[0] == '[');
            assert(crate::text::is_b64_char(a[0]));
            assert(false);
        },
        (None, Some(b)) => {
            lemma_prepend_injective("cursor="@, "[NONE]"@, b);
            assert(b[0] == '[');
            assert(crate::text::is_b64_char(b[0]));
            assert(false);
        },
        (None, None) => {},
    }
}

/// The same parent token names the same parent.
proof fn lemma_parent_token_injective(c1: Option<Seq<char>>, c2: Option<Seq<char>>)
    requires
        parent_token(c1) == parent_token(c2),
        (c1 matches Some(s) ==> valid_id(s)),
        (c2 matches Some(s) ==> valid_id(s)),
    ensures
        c1 == c2,
{
    lemma_key_literals();
    match (c1, c2) {
        (Some(a), Some(b)) => {
            lemma_prepend_injective("parent="@, a, b);
        },
        (Some(a), None) => {
            lemma_prepend_injective("parent="@, a, "[NONE]"@);
            assert(a[0] == '[');
            assert(crate::ids::is_id_char(a[0]));
            assert(false);
        },
        (None, Some(b)) => {
            lemma_prepend_injective("parent="@, "[NONE]"@, b);
            assert(b[0] == '[');
            assert(crate::ids::is_id_char(b[0]));
            assert(false);
        },
        (None, None) => {},
    }
}

/// The same pagination tokens name the same page.
proof fn lemma_params_injective(p: CursorParams, q: CursorParams)
    requires
        params_valid(p),
        params_valid(q),
        cursor_token(cursor_view(p.cursor)) == cursor_token(cursor_view(q.cursor)),
        index_name_token(p.index) == index_name_token(q.index),
        int_digits(index_count(p.index)) == int_digits(index_count(q.index)),
    ensures
        params_congruent(p, q),
{
    lemma_key_literals();
    lemma_cursor_token_injective(cursor_view(p.cursor), cursor_view(q.cursor));
    lemma_int_digits_injective(index_count(p.index), index_count(q.index));
    match (p.index, q.index) {
        (Index::First(_), Index::Last(_)) => {
            assert("index=first"@.len() != "index=last"@.len());
        },
        (Index::Last(_), Index::First(_)) => {
            assert("index=first"@.len() != "index=last"@.len());
        },
        _ => {},
    }
}

/// Cache-key injectivity: distinct inputs render distinct key strings.
/// Equal key text for well-formed inputs forces equal cursor, direction,
/// size, kind and parent.
pub proof fn lemma_cache_key_injective(k1: CacheKey, k2: CacheKey)
    requires
        key_valid(k1),
        key_valid(k2),
        key_text(k1) == key_text(k2),
    ensures
        key_congruent(k1, k2),
{
    lemma_bodies_colon_free(k1);
    lemma_bodies_colon_free(k2);
    lemma_join_colon_injective(key_tokens(k1), key_tokens(k2));
    lemma_key_literals();
    let ts1 = key_tokens(k1);
    let ts2 = key_tokens(k2);
    match (k1, k2) {
        (CacheKey::Category(a), CacheKey::Category(b)) => {
            assert(ts1[1] == ts2[1]);
            lemma_prepend_injective("id="@, a@, b@);
        },
        (CacheKey::Categories(p), CacheKey::Categories(q)) => {
            assert(ts1[2] == ts2[2]);
            assert(ts1[3] == ts2[3]);
            assert(ts1[4] == ts2[4]);
            lemma_params_injective(p, q);
        },
        (CacheKey::CategoriesSubCategory(p, pa), CacheKey::CategoriesSubCategory(q, qa)) => {
            assert(ts1[2] == ts2[2]);
            assert(ts1[3] == ts2[3]);
            assert(ts1[4] == ts2[4]);
            assert(ts1[5] == ts2[5]);
            lemma_params_injective(p, q);
            lemma_parent_token_injective(cursor_view(pa), cursor_view(qa));
        },
        _ => {
            assert(ts1.len() != ts2.len());
            assert(false);
        },
    }
}

} // verus!
