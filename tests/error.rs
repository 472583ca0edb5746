use backend::error::{AppError, StoreError};

#[test]
fn dimension_mismatch_is_a_client_error() {
    let e = StoreError::DimensionMismatch { expected: 768, found: 12 };
    assert_eq!(e.message(), "vector dimension mismatch: expected 768, found 12");
    match e.to_app_error() {
        AppError::ValidationError(m) => assert_eq!(m, "vector dimension mismatch: expected 768, found 12"),
        other => panic!("unexpected {:?}", other),
    }
}

#[test]
fn io_and_encoding_failures_are_server_errors() {
    match StoreError::IoFailure("disk full".to_string()).to_app_error() {
        AppError::Internal(m) => assert_eq!(m, "disk full"),
        other => panic!("unexpected {:?}", other),
    }
    match StoreError::EncodingFailure.to_app_error() {
        AppError::Internal(m) => assert_eq!(m, "record cannot be encoded as one line"),
        other => panic!("unexpected {:?}", other),
    }
}
