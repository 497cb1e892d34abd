//! Cursor and timestamp codec behaviour.
use sellershut::ids::{generate_id, is_valid_id, ID_LENGTH};
use sellershut::pagination::CursorBuilder;
use sellershut::timestamp::Timestamp;

#[test]
fn rfc3339_renders_canonically() {
    let ts = Timestamp { seconds: 1_700_000_000, nanos: 123_456_789 };
    assert_eq!(ts.to_rfc3339(), "2023-11-14T22:13:20.123456789Z");
    let epoch = Timestamp { seconds: 0, nanos: 0 };
    assert_eq!(epoch.to_rfc3339(), "1970-01-01T00:00:00.000000000Z");
    let before_epoch = Timestamp { seconds: -1, nanos: 999_999_999 };
    assert_eq!(before_epoch.to_rfc3339(), "1969-12-31T23:59:59.999999999Z");
}

#[test]
fn rfc3339_parses_what_it_renders() {
    let samples = [
        Timestamp { seconds: 0, nanos: 0 },
        Timestamp { seconds: 1_700_000_000, nanos: 123_456_789 },
        Timestamp { seconds: -62_167_219_200, nanos: 0 },
        Timestamp { seconds: 951_827_696, nanos: 1 },
    ];
    for ts in samples {
        let text = ts.to_rfc3339();
        assert_eq!(Timestamp::parse_rfc3339(&text), Some(ts));
    }
}

#[test]
fn rfc3339_rejects_bad_fields() {
    assert_eq!(Timestamp::parse_rfc3339("2023-13-14T22:13:20.123456789Z"), None);
    assert_eq!(Timestamp::parse_rfc3339("2023-02-29T00:00:00.000000000Z"), None);
    assert!(Timestamp::parse_rfc3339("2024-02-29T00:00:00.000000000Z").is_some());
    assert_eq!(Timestamp::parse_rfc3339("2023-11-14T24:00:00.000000000Z"), None);
    assert_eq!(Timestamp::parse_rfc3339("2023-11-14 22:13:20.123456789Z"), None);
    assert_eq!(Timestamp::parse_rfc3339("not a date"), None);
    assert_eq!(Timestamp::parse_rfc3339(""), None);
}

#[test]
fn cursor_roundtrip() {
    let ts = Timestamp { seconds: 1_700_000_000, nanos: 42 };
    let id = "k7d2m9x4q8w3n5b6z2c4j";
    assert!(is_valid_id(id));
    let dt = ts.to_rfc3339();
    let encoded = CursorBuilder::new(id, &dt).encode();
    let decoded = CursorBuilder::decode(&encoded).expect("cursor should decode");
    assert_eq!(decoded.id(), id);
    assert_eq!(decoded.dt(), dt);
    assert_eq!(Timestamp::parse_rfc3339(decoded.dt()), Some(ts));
}

#[test]
fn cursor_rejects_garbage() {
    assert!(CursorBuilder::decode("!!!not base64!!!").is_err());
    // valid base64url, but no separator inside
    let no_colon = base64::Engine::encode(
        &base64::engine::general_purpose::URL_SAFE_NO_PAD,
        "nocolonhere",
    );
    assert!(CursorBuilder::decode(&no_colon).is_err());
    // padded input is refused by the no-pad engine
    assert!(CursorBuilder::decode("aGk6bQ==").is_err());
}

#[test]
fn generated_ids_are_well_formed() {
    for _ in 0..32 {
        let id = generate_id();
        assert_eq!(id.len(), ID_LENGTH);
        assert!(is_valid_id(&id));
        assert!(id.chars().all(|c| matches!(c, '2'..='9' | 'a'..='z' | '_' | '-')));
    }
}
