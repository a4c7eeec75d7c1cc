use hdbscan_incremental::params::validate_params;
use hdbscan_incremental::HdbscanError;

fn message(r: Result<(), HdbscanError>) -> String {
    match r {
        Err(HdbscanError::InvalidParameter(msg)) => msg,
        other => panic!("expected InvalidParameter, got {:?}", other),
    }
}

#[test]
fn test_validate_params_accepts_defaults() {
    assert!(validate_params(768, 100, 100, true, 25, None).is_ok());
    assert!(validate_params(2, 1, 2, true, 1, Some(3)).is_ok());
}

#[test]
fn test_try_new_rejects_invalid_parameters() {
    assert!(matches!(
        validate_params(0, 100, 100, true, 25, None),
        Err(HdbscanError::InvalidParameter(_))
    ));
    assert!(matches!(
        validate_params(2, 100, 100, false, 25, None),
        Err(HdbscanError::InvalidParameter(_))
    ));
    assert!(matches!(
        validate_params(2, 100, 1, true, 25, None),
        Err(HdbscanError::InvalidParameter(_))
    ));
}

#[test]
fn test_validate_params_messages_in_order() {
    assert_eq!(message(validate_params(0, 0, 0, false, 0, Some(9))), "dim must be greater than 0");
    assert_eq!(
        message(validate_params(2, 0, 0, false, 0, Some(9))),
        "min_pts must be greater than or equal to 1"
    );
    assert_eq!(
        message(validate_params(2, 1, 1, false, 0, Some(9))),
        "min_cluster_size must be greater than or equal to 2"
    );
    assert_eq!(
        message(validate_params(2, 1, 2, false, 0, Some(9))),
        "compression_rate must be in the range (0.0, 1.0]"
    );
    assert_eq!(
        message(validate_params(2, 1, 2, true, 0, Some(9))),
        "m must be greater than or equal to 1"
    );
    assert_eq!(
        message(validate_params(2, 1, 2, true, 1, Some(1))),
        "turbovec_bit_width must be 2, 3, or 4"
    );
    assert_eq!(
        message(validate_params(2, 1, 2, true, 1, Some(5))),
        "turbovec_bit_width must be 2, 3, or 4"
    );
}
