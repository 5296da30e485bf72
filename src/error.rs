use vstd::prelude::*;

use parsec_interface::requests::ResponseStatus;
use psa_crypto::types::status::Status;

verus! {

/// Engine status code reported when a signature does not match.
pub const PSA_ERROR_INVALID_SIGNATURE: i32 = -149;

/// Engine status code reported when an output buffer is too small.
pub const PSA_ERROR_BUFFER_TOO_SMALL: i32 = -138;

/// Service status code for a signature that does not match.
pub const RESPONSE_INVALID_SIGNATURE: u16 = 1149;

/// Failures of a sign or verify request, as seen by the client.
#[derive(Clone, Copy, Debug, PartialEq, Eq, Structural)]
pub enum OpError {
    /// No key is stored under the tenant-scoped reference.
    KeyDoesNotExist,
    /// The signature does not match the hash under the key.
    SignatureInvalid,
    /// The engine could not perform the operation; the service status code.
    EngineFailure(u16),
    /// A previous holder of the handle lock failed inside its critical section.
    LockPoisoned,
}

/// The service status code that an engine status code translates to.
pub uninterp spec fn response_code_of(status: i32) -> u16;

/// Relies on psa_crypto's `From<psa_status_t> for Status` to decode the engine
/// status, and on parsec_interface's `From<Error> for ResponseStatus` to turn
/// an engine error into the service's status code. Success maps to 0, the
/// invalid-signature status to `PsaErrorInvalidSignature` (1149), and every
/// other status to another, non-zero code.
#[verifier::external_body]
fn response_code(status: i32) -> (r: u16)
    ensures
        r == response_code_of(status),
        (status == 0) == (r == 0),
        (status == PSA_ERROR_INVALID_SIGNATURE) == (r == RESPONSE_INVALID_SIGNATURE),
{
    match Status::from(status).to_result() {
        Ok(()) => ResponseStatus::Success as u16,
        Err(e) => ResponseStatus::from(e) as u16,
    }
}

/// The client-visible error for a service status code of a failed engine call.
pub open spec fn classify_spec(code: u16) -> OpError {
    if code == RESPONSE_INVALID_SIGNATURE {
        OpError::SignatureInvalid
    } else {
        OpError::EngineFailure(code)
    }
}

/// Sorts a service status code into the client-visible taxonomy: a signature
/// mismatch is a normal negative result, anything else an engine failure.
pub fn classify_response(code: u16) -> (r: OpError)
    ensures
        r == classify_spec(code),
{
    if code == RESPONSE_INVALID_SIGNATURE {
        OpError::SignatureInvalid
    } else {
        OpError::EngineFailure(code)
    }
}

/// The client-visible error for a failed engine call.
pub open spec fn engine_error_spec(status: i32) -> OpError {
    classify_spec(response_code_of(status))
}

/// Translates the status code of a failed engine call. The engine's own
/// detail stays out of the result beyond the service status code.
pub fn engine_error(status: i32) -> (r: OpError)
    ensures
        r == engine_error_spec(status),
        (r == OpError::SignatureInvalid) == (status == PSA_ERROR_INVALID_SIGNATURE),
        r != OpError::KeyDoesNotExist,
        r != OpError::LockPoisoned,
{
    let code = response_code(status);
    classify_response(code)
}

} // verus!
