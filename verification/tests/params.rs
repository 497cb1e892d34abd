//! Connection-argument validation.
use sellershut::keys::Index;
use sellershut::pagination::{CursorType, Pagination};
use sellershut::params::Params;
use sellershut::ApiError;

#[test]
fn invalid_combinations_are_rejected() {
    // backward arguments mixed with forward ones
    assert_eq!(
        Params::parse(Some("x".into()), None, None, Some(2)).unwrap_err(),
        ApiError::Invalid
    );
    assert_eq!(
        Params::parse(None, Some("x".into()), Some(2), None).unwrap_err(),
        ApiError::Invalid
    );
    // both cursors
    assert_eq!(
        Params::parse(Some("a".into()), Some("b".into()), None, Some(2)).unwrap_err(),
        ApiError::Invalid
    );
    // no page size at all
    assert_eq!(Params::parse(None, None, None, None).unwrap_err(), ApiError::Invalid);
    assert_eq!(
        Params::parse(Some("a".into()), None, None, None).unwrap_err(),
        ApiError::Invalid
    );
}

#[test]
fn valid_combinations_build_pagination() {
    let fwd = Params::parse(None, None, Some(3), None).unwrap();
    assert_eq!(fwd, Pagination { cursor_value: None, index: Some(Index::First(3)) });

    let fwd_after = Params::parse(Some("cur".into()), None, Some(3), None).unwrap();
    assert_eq!(
        fwd_after,
        Pagination {
            cursor_value: Some(CursorType::After("cur".into())),
            index: Some(Index::First(3)),
        }
    );

    let bwd = Params::parse(None, None, None, Some(4)).unwrap();
    assert_eq!(bwd, Pagination { cursor_value: None, index: Some(Index::Last(4)) });

    let bwd_before = Params::parse(None, Some("cur".into()), None, Some(4)).unwrap();
    assert_eq!(
        bwd_before,
        Pagination {
            cursor_value: Some(CursorType::Before("cur".into())),
            index: Some(Index::Last(4)),
        }
    );
}
