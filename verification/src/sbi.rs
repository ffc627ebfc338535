//! Decoding of supervisor-binary-interface call results: the firmware
//! hands back an error code and a value in two registers; the error
//! code selects the typed error, code zero means success.

use vstd::prelude::*;

verus! {

/// Errors the firmware interface can report.
#[derive(Clone, Copy, PartialEq, Eq, Structural, Debug)]
pub enum SbiError {
    SbiErrFailed,
    SbiErrNotSupported,
    SbiErrInvalidParam,
    SbiErrDenied,
    SbiErrInvalidAddress,
    SbiErrAlreadyAvailable,
    SbiErrAlreadyStarted,
    SbiErrAlreadyStopped,
    SbiErrNoShmem,
    SbiErrInvalidState,
    SbiErrBadRange,
    SbiErrTimeout,
    SbiErrIo,
}

/// Turn the two result registers of a firmware call into a typed
/// result: code zero carries `value`, each negative code down to -13
/// names one error. Codes outside that range never come back from the
/// firmware and are excluded by the precondition.
pub fn decode_sbi_result(error_code: isize, value: isize) -> (r: Result<isize, SbiError>)
    requires
        -13 <= error_code <= 0,
    ensures
        error_code == 0 ==> r == Ok::<isize, SbiError>(value),
        error_code == -1 ==> r == Err::<isize, SbiError>(SbiError::SbiErrFailed),
        error_code == -2 ==> r == Err::<isize, SbiError>(SbiError::SbiErrNotSupported),
        error_code == -3 ==> r == Err::<isize, SbiError>(SbiError::SbiErrInvalidParam),
        error_code == -4 ==> r == Err::<isize, SbiError>(SbiError::SbiErrDenied),
        error_code == -5 ==> r == Err::<isize, SbiError>(SbiError::SbiErrInvalidAddress),
        error_code == -6 ==> r == Err::<isize, SbiError>(SbiError::SbiErrAlreadyAvailable),
        error_code == -7 ==> r == Err::<isize, SbiError>(SbiError::SbiErrAlreadyStarted),
        error_code == -8 ==> r == Err::<isize, SbiError>(SbiError::SbiErrAlreadyStopped),
        error_code == -9 ==> r == Err::<isize, SbiError>(SbiError::SbiErrNoShmem),
        error_code == -10 ==> r == Err::<isize, SbiError>(SbiError::SbiErrInvalidState),
        error_code == -11 ==> r == Err::<isize, SbiError>(SbiError::SbiErrBadRange),
        error_code == -12 ==> r == Err::<isize, SbiError>(SbiError::SbiErrTimeout),
        error_code == -13 ==> r == Err::<isize, SbiError>(SbiError::SbiErrIo),
{
    if error_code == 0 {
        Ok(value)
    } else if error_code == -1 {
        Err(SbiError::SbiErrFailed)
    } else if error_code == -2 {
        Err(SbiError::SbiErrNotSupported)
    } else if error_code == -3 {
        Err(SbiError::SbiErrInvalidParam)
    } else if error_code == -4 {
        Err(SbiError::SbiErrDenied)
    } else if error_code == -5 {
        Err(SbiError::SbiErrInvalidAddress)
    } else if error_code == -6 {
        Err(SbiError::SbiErrAlreadyAvailable)
    } else if error_code == -7 {
        Err(SbiError::SbiErrAlreadyStarted)
    } else if error_code == -8 {
        Err(SbiError::SbiErrAlreadyStopped)
    } else if error_code == -9 {
        Err(SbiError::SbiErrNoShmem)
    } else if error_code == -10 {
        Err(SbiError::SbiErrInvalidState)
    } else if error_code == -11 {
        Err(SbiError::SbiErrBadRange)
    } else if error_code == -12 {
        Err(SbiError::SbiErrTimeout)
    } else {
        Err(SbiError::SbiErrIo)
    }
}

} // verus!
