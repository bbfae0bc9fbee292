//! The data that a hint carries.

use bincode::error::DecodeError;
use serde::de::DeserializeOwned;
use vstd::prelude::*;

use crate::errors::{ProofError, ProofResult};

verus! {

/// The error of `bincode` for bytes that do not spell a value.
#[verifier::external_type_specification]
#[verifier::external_body]
pub struct ExDecodeError(DecodeError);

/// The bytes that one allocation has at most. Data that claim more do not decode.
const DECODE_LIMIT: usize = usize::MAX / 2;

/// The limit is that of allocations, so that nothing is refused that memory can hold.
proof fn law_limit_is_of_allocations()
    ensures
        DECODE_LIMIT == isize::MAX,
{
}

/// Calls `bincode::serde::decode_from_slice` with the standard configuration, limited to what can be
/// allocated, and leaves out the number of bytes read. Nothing is claimed of what it returns: which
/// bytes spell which value is up to the `Deserialize` implementation of `T`.
#[verifier::external_body]
pub(crate) fn decode_value<T: DeserializeOwned>(bytes: &[u8]) -> (decoded: Result<T, DecodeError>) {
    let config = bincode::config::standard().with_limit::<DECODE_LIMIT>();
    bincode::serde::decode_from_slice(bytes, config).map(|decoded| decoded.0)
}

/// Whether `decoded` is what decoding `bytes` came to.
pub closed spec fn decodes_to<T: DeserializeOwned>(
    bytes: Seq<u8>,
    decoded: Result<T, DecodeError>,
) -> bool {
    exists|slice: &[u8]|
        slice@ == bytes && #[trigger] call_ensures(decode_value::<T>, (slice,), decoded)
}

/// Whether `bytes` decode to `value`, and to nothing else.
pub open spec fn spells<T: DeserializeOwned>(bytes: Seq<u8>, value: T) -> bool {
    forall|decoded: Result<T, DecodeError>| #[trigger]
        decodes_to(bytes, decoded) ==> decoded == Ok::<T, DecodeError>(value)
}

/// Whether `bytes` never decode to a value of type `T`.
pub open spec fn spells_nothing<T: DeserializeOwned>(bytes: Seq<u8>) -> bool {
    forall|decoded: Result<T, DecodeError>| #[trigger] decodes_to(bytes, decoded) ==> decoded is Err
}

/// What decoding came to is what the decoder returned for a slice of exactly these bytes.
pub(crate) proof fn law_decodes_whole_data<T: DeserializeOwned>(
    bytes: Seq<u8>,
    decoded: Result<T, DecodeError>,
)
    ensures
        decodes_to(bytes, decoded) <==> exists|slice: &[u8]|
            slice@ == bytes && #[trigger] call_ensures(decode_value::<T>, (slice,), decoded),
{
}

/// What a hint that decoded to `decoded` comes to.
pub open spec fn spec_hint_value<T>(decoded: Result<T, DecodeError>) -> ProofResult<T> {
    match decoded {
        Ok(value) => Ok(value),
        Err(_) => Err(ProofError::SerializationError),
    }
}

/// What decodes is the value of the hint, and what does not is an error of decoding.
pub proof fn law_hint_value<T>(decoded: Result<T, DecodeError>)
    ensures
        decoded matches Ok(value) ==> spec_hint_value(decoded) == Ok::<T, ProofError>(value),
        decoded is Err ==> spec_hint_value(decoded) == Err::<T, ProofError>(
            ProofError::SerializationError,
        ),
{
}

/// Decodes the data of a hint.
pub fn decode_hint<T: DeserializeOwned>(bytes: &[u8]) -> (result: Result<T, DecodeError>)
    ensures
        decodes_to(bytes@, result),
{
    let decoded = decode_value::<T>(bytes);
    assert(call_ensures(decode_value::<T>, (bytes,), decoded));
    decoded
}

/// The value of a hint, or the error for data that did not decode.
pub fn hint_value<T>(decoded: Result<T, DecodeError>) -> (result: ProofResult<T>)
    ensures
        result == spec_hint_value(decoded),
{
    match decoded {
        Ok(value) => Ok(value),
        Err(_) => Err(ProofError::SerializationError),
    }
}

} // verus!
