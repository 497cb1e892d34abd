//! The write path's store semantics and the listing read path, end to end on
//! the model table.
use sellershut::category::Category;
use sellershut::keys::Index;
use sellershut::pagination::{CursorBuilder, CursorType, Pagination};
use sellershut::store::Store;
use sellershut::timestamp::Timestamp;
use sellershut::ApiError;

fn cat(id: &str, name: &str, secs: i64, parent: Option<&str>) -> Category {
    Category {
        id: id.to_string(),
        name: name.to_string(),
        sub_categories: vec![],
        image_url: None,
        parent_id: parent.map(|p| p.to_string()),
        created_at: Timestamp { seconds: secs, nanos: 0 },
        updated_at: Timestamp { seconds: secs, nanos: 0 },
    }
}

const ID1: &str = "aaaaaaaaaaaaaaaaaaaa2";
const ID2: &str = "aaaaaaaaaaaaaaaaaaaa3";
const ID3: &str = "aaaaaaaaaaaaaaaaaaaa4";

fn three_rows() -> Store {
    let mut store = Store::new();
    store.create(cat(ID1, "alpha", 100, None)).unwrap();
    store.create(cat(ID2, "beta", 200, None)).unwrap();
    store.create(cat(ID3, "gamma", 300, None)).unwrap();
    store
}

fn fwd(after: Option<String>, n: i32) -> Pagination {
    Pagination {
        cursor_value: after.map(CursorType::After),
        index: Some(Index::First(n)),
    }
}

fn bwd(before: Option<String>, n: i32) -> Pagination {
    Pagination {
        cursor_value: before.map(CursorType::Before),
        index: Some(Index::Last(n)),
    }
}

fn edge_ids(conn: &sellershut::connection::Connection) -> Vec<String> {
    conn.edges.iter().map(|e| e.node.id.clone()).collect()
}

#[test]
fn create_then_read() {
    let mut store = Store::new();
    let row = cat(ID1, "alpha", 100, None);
    store.create(row.clone()).unwrap();
    let read = store.category_by_id(ID1).unwrap();
    assert_eq!(read, row);
    assert_eq!(read.id.len(), 21);
    assert_eq!(read.name, "alpha");
    // inserting the same id again hits the unique-key constraint
    assert_eq!(store.create(cat(ID1, "other", 500, None)).unwrap_err(), ApiError::Internal);
}

#[test]
fn update_stamps_and_keeps_creation() {
    let mut store = three_rows();
    let patch = cat(ID2, "beta-two", 777, None);
    let now = Timestamp { seconds: 900, nanos: 1 };
    store.update(patch, now).unwrap();
    let read = store.category_by_id(ID2).unwrap();
    assert_eq!(read.name, "beta-two");
    assert_eq!(read.created_at, Timestamp { seconds: 200, nanos: 0 });
    assert_eq!(read.updated_at, now);
    // updating a missing row reports it
    assert_eq!(
        store.update(cat("aaaaaaaaaaaaaaaaaaaa5", "nobody", 1, None), now).unwrap_err(),
        ApiError::NotFound
    );
}

#[test]
fn delete_removes_the_row() {
    let mut store = three_rows();
    let removed = store.delete(ID2).unwrap();
    assert_eq!(removed.name, "beta");
    assert_eq!(store.category_by_id(ID2).unwrap_err(), ApiError::NotFound);
    assert_eq!(store.delete(ID2).unwrap_err(), ApiError::NotFound);
}

#[test]
fn forward_paging_of_three() {
    let store = three_rows();
    let page1 = store.categories(&fwd(None, 2), 100).unwrap();
    assert_eq!(edge_ids(&page1), vec![ID1.to_string(), ID2.to_string()]);
    assert!(page1.page_info.has_next_page);
    assert!(!page1.page_info.has_previous_page);

    let end_cursor = page1.edges.last().unwrap().cursor.clone();
    let page2 = store.categories(&fwd(Some(end_cursor), 2), 100).unwrap();
    assert_eq!(edge_ids(&page2), vec![ID3.to_string()]);
    assert!(!page2.page_info.has_next_page);
    assert!(page2.page_info.has_previous_page);
}

#[test]
fn forward_traversal_visits_every_row_once() {
    let store = three_rows();
    let mut seen: Vec<String> = vec![];
    let mut cursor: Option<String> = None;
    loop {
        let conn = store.categories(&fwd(cursor.clone(), 1), 100).unwrap();
        for e in &conn.edges {
            seen.push(e.node.id.clone());
        }
        if !conn.page_info.has_next_page {
            break;
        }
        cursor = Some(conn.edges.last().unwrap().cursor.clone());
    }
    assert_eq!(seen, vec![ID1.to_string(), ID2.to_string(), ID3.to_string()]);
}

#[test]
fn backward_paging() {
    let store = three_rows();
    let last2 = store.categories(&bwd(None, 2), 100).unwrap();
    assert_eq!(edge_ids(&last2), vec![ID2.to_string(), ID3.to_string()]);
    assert!(last2.page_info.has_previous_page);
    assert!(!last2.page_info.has_next_page);

    let first_cursor = last2.edges.first().unwrap().cursor.clone();
    let before = store.categories(&bwd(Some(first_cursor), 2), 100).unwrap();
    assert_eq!(edge_ids(&before), vec![ID1.to_string()]);
    assert!(!before.page_info.has_previous_page);
    assert!(before.page_info.has_next_page);
}

#[test]
fn whole_table_fits_on_one_page() {
    let store = three_rows();
    let conn = store.categories(&fwd(None, 10), 100).unwrap();
    assert_eq!(edge_ids(&conn).len(), 3);
    assert!(!conn.page_info.has_next_page);
    assert!(!conn.page_info.has_previous_page);
}

#[test]
fn page_size_is_clamped() {
    let store = three_rows();
    // query_limit 1 clamps first:10 down to one row
    let conn = store.categories(&fwd(None, 10), 1).unwrap();
    assert_eq!(edge_ids(&conn), vec![ID1.to_string()]);
    assert!(conn.page_info.has_next_page);
}

#[test]
fn invalid_combinations() {
    let store = three_rows();
    let mixed1 = Pagination {
        cursor_value: Some(CursorType::Before("x".into())),
        index: Some(Index::First(2)),
    };
    assert_eq!(store.categories(&mixed1, 100).unwrap_err(), ApiError::Invalid);
    let mixed2 = Pagination {
        cursor_value: Some(CursorType::After("x".into())),
        index: Some(Index::Last(2)),
    };
    assert_eq!(store.categories(&mixed2, 100).unwrap_err(), ApiError::Invalid);
    // an undecodable cursor on a well-formed combination
    assert_eq!(
        store.categories(&fwd(Some("???".into()), 2), 100).unwrap_err(),
        ApiError::Invalid
    );
    // a missing index is an internal error
    let no_index = Pagination { cursor_value: None, index: None };
    assert_eq!(store.categories(&no_index, 100).unwrap_err(), ApiError::Internal);
    // a non-positive page size is invalid
    assert_eq!(store.categories(&fwd(None, 0), 100).unwrap_err(), ApiError::Invalid);
}

#[test]
fn equal_timestamps_break_ties_by_id() {
    let mut store = Store::new();
    store.create(cat(ID2, "b", 100, None)).unwrap();
    store.create(cat(ID1, "a", 100, None)).unwrap();
    let conn = store.categories(&fwd(None, 10), 100).unwrap();
    assert_eq!(edge_ids(&conn), vec![ID1.to_string(), ID2.to_string()]);
    // resume after the first row of the tie
    let c1 = conn.edges[0].cursor.clone();
    let rest = store.categories(&fwd(Some(c1), 10), 100).unwrap();
    assert_eq!(edge_ids(&rest), vec![ID2.to_string()]);
}

#[test]
fn sub_categories_split_by_parent() {
    let mut store = Store::new();
    store.create(cat(ID1, "root", 100, None)).unwrap();
    store.create(cat(ID2, "child", 200, Some(ID1))).unwrap();
    store.create(cat(ID3, "other-root", 300, None)).unwrap();

    let top = store
        .sub_categories(&None, &fwd(None, 10), 100)
        .unwrap();
    assert_eq!(edge_ids(&top), vec![ID1.to_string(), ID3.to_string()]);

    let children = store
        .sub_categories(&Some(ID1.to_string()), &fwd(None, 10), 100)
        .unwrap();
    assert_eq!(edge_ids(&children), vec![ID2.to_string()]);
    let none = store
        .sub_categories(&Some(ID2.to_string()), &fwd(None, 10), 100)
        .unwrap();
    assert!(none.edges.is_empty());
}

#[test]
fn backward_page_equals_final_forward_page() {
    let store = three_rows();
    // last:2 from the end, already ascending
    let last2 = store.categories(&bwd(None, 2), 100).unwrap();
    // the forward page that starts just before the final two rows
    let all = store.categories(&fwd(None, 10), 100).unwrap();
    let pivot = all.edges[0].cursor.clone();
    let fwd_tail = store.categories(&fwd(Some(pivot), 2), 100).unwrap();
    assert_eq!(edge_ids(&last2), edge_ids(&fwd_tail));
    assert!(last2.page_info.has_previous_page);
}

#[test]
fn edge_cursors_decode_to_their_rows() {
    let store = three_rows();
    let conn = store.categories(&fwd(None, 10), 100).unwrap();
    for e in &conn.edges {
        let decoded = CursorBuilder::decode(&e.cursor).unwrap();
        assert_eq!(decoded.id(), e.node.id);
        assert_eq!(
            Timestamp::parse_rfc3339(decoded.dt()),
            Some(e.node.created_at)
        );
    }
}
