//! Cache-key rendering and injectivity on concrete inputs.
use sellershut::keys::{CacheKey, CursorParams, Index};

fn key_id(id: &str) -> String {
    CacheKey::Category(id.to_string()).render()
}

#[test]
fn key_forms_are_exact() {
    assert_eq!(key_id("k7d2m9x4q8w3n5b6z2c4j"), "categories:id=k7d2m9x4q8w3n5b6z2c4j");
    let all = CacheKey::Categories(CursorParams { cursor: None, index: Index::First(10) });
    assert_eq!(all.render(), "categories:all:cursor=[NONE]:index=first:10");
    let all_back = CacheKey::Categories(
        CursorParams { cursor: Some("YWJjZA".to_string()), index: Index::Last(5) },
    );
    assert_eq!(all_back.render(), "categories:all:cursor=YWJjZA:index=last:5");
    let sub = CacheKey::CategoriesSubCategory(
        CursorParams { cursor: None, index: Index::First(3) },
        Some("k7d2m9x4q8w3n5b6z2c4j".to_string()),
    );
    assert_eq!(
        sub.render(),
        "categories:subcategories:cursor=[NONE]:index=first:3:parent=k7d2m9x4q8w3n5b6z2c4j"
    );
    let sub_top = CacheKey::CategoriesSubCategory(
        CursorParams { cursor: None, index: Index::First(3) },
        None,
    );
    assert_eq!(sub_top.render(), "categories:subcategories:cursor=[NONE]:index=first:3:parent=[NONE]");
}

#[test]
fn distinct_inputs_render_distinct_keys() {
    let keys = vec![
        CacheKey::Category("aaaaaaaaaaaaaaaaaaaa2".to_string()),
        CacheKey::Category("aaaaaaaaaaaaaaaaaaaa3".to_string()),
        CacheKey::Categories(CursorParams { cursor: None, index: Index::First(2) }),
        CacheKey::Categories(CursorParams { cursor: None, index: Index::Last(2) }),
        CacheKey::Categories(CursorParams { cursor: None, index: Index::First(20) }),
        CacheKey::Categories(CursorParams { cursor: Some("QUJD".to_string()), index: Index::First(2) }),
        CacheKey::CategoriesSubCategory(
            CursorParams { cursor: None, index: Index::First(2) },
            None,
        ),
        CacheKey::CategoriesSubCategory(
            CursorParams { cursor: None, index: Index::First(2) },
            Some("aaaaaaaaaaaaaaaaaaaa2".to_string()),
        ),
    ];
    let rendered: Vec<String> = keys.iter().map(|k| k.render()).collect();
    for i in 0..rendered.len() {
        for j in 0..rendered.len() {
            if i != j {
                assert_ne!(rendered[i], rendered[j], "keys {i} and {j} collide");
            }
        }
    }
}
