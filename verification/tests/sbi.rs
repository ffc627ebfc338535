use kmem::sbi::decode_sbi_result;
use kmem::sbi::SbiError;

#[test]
fn zero_code_is_success_with_value() {
    assert_eq!(decode_sbi_result(0, 42), Ok(42));
    assert_eq!(decode_sbi_result(0, -7), Ok(-7));
}

#[test]
fn each_error_code_maps_to_its_variant() {
    assert_eq!(decode_sbi_result(-1, 0), Err(SbiError::SbiErrFailed));
    assert_eq!(decode_sbi_result(-2, 0), Err(SbiError::SbiErrNotSupported));
    assert_eq!(decode_sbi_result(-3, 0), Err(SbiError::SbiErrInvalidParam));
    assert_eq!(decode_sbi_result(-4, 0), Err(SbiError::SbiErrDenied));
    assert_eq!(decode_sbi_result(-5, 0), Err(SbiError::SbiErrInvalidAddress));
    assert_eq!(decode_sbi_result(-6, 0), Err(SbiError::SbiErrAlreadyAvailable));
    assert_eq!(decode_sbi_result(-7, 0), Err(SbiError::SbiErrAlreadyStarted));
    assert_eq!(decode_sbi_result(-8, 0), Err(SbiError::SbiErrAlreadyStopped));
    assert_eq!(decode_sbi_result(-9, 0), Err(SbiError::SbiErrNoShmem));
    assert_eq!(decode_sbi_result(-10, 0), Err(SbiError::SbiErrInvalidState));
    assert_eq!(decode_sbi_result(-11, 0), Err(SbiError::SbiErrBadRange));
    assert_eq!(decode_sbi_result(-12, 0), Err(SbiError::SbiErrTimeout));
    assert_eq!(decode_sbi_result(-13, 0), Err(SbiError::SbiErrIo));
}

#[test]
fn error_value_register_is_ignored() {
    assert_eq!(decode_sbi_result(-1, 99), Err(SbiError::SbiErrFailed));
}
