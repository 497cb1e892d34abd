//! Conversions between the entity and its wire form.
use sellershut::category::{
    to_offset_datetime, to_timestamp, Category, WireTimestamp,
};
use sellershut::timestamp::Timestamp;

#[test]
fn convert_timestamp() {
    let dt = Timestamp { seconds: 1_700_000_000, nanos: 123_456_789 };
    let res = to_timestamp(dt);
    let dt_2 = to_offset_datetime(Some(res)).unwrap();
    assert_eq!(dt, dt_2);
}

#[test]
fn convert_category() {
    let category = Category {
        id: "aaaaaaaaaaaaaaaaaaaa2".to_string(),
        name: "alpha".to_string(),
        sub_categories: vec!["aaaaaaaaaaaaaaaaaaaa3".to_string()],
        image_url: Some("https://example.test/a.png".to_string()),
        parent_id: None,
        created_at: Timestamp { seconds: 100, nanos: 7 },
        updated_at: Timestamp { seconds: 200, nanos: 9 },
    };

    let other_category = category.clone().to_wire();
    let original = Category::from_wire(other_category).unwrap();

    assert_eq!(original, category);
}

#[test]
fn missing_timestamp_is_invalid() {
    assert!(to_offset_datetime(None).is_err());
}

#[test]
fn nanoseconds_are_normalized() {
    let negative = WireTimestamp { seconds: 10, nanos: -1 };
    assert_eq!(
        to_offset_datetime(Some(negative)).unwrap(),
        Timestamp { seconds: 9, nanos: 999_999_999 }
    );
    let wide = WireTimestamp { seconds: 10, nanos: 1_500_000_000 };
    assert_eq!(
        to_offset_datetime(Some(wide)).unwrap(),
        Timestamp { seconds: 10, nanos: 500_000_000 }
    );
}
