//! The outcall invoker's verified half: the cycle payment owed for a
//! request, the encoded bytes to send, and the reading of what the host
//! handed back. Issuing the call itself is the unverified shell's job; it
//! receives plain bytes and a cycle amount from here and returns the host's
//! verbatim outcome.

use vstd::prelude::*;
use crate::decode::decode_response;
use crate::encode::encode_request;
use crate::types::{CanisterHttpRequestArgument, HttpResponse, OutcallError, ResponseModel};
use crate::wire::{enc_request_msg, enc_response_msg, request_encodable};

verus! {

/// Response-size cap assumed for cost computation when the caller sets
/// none: 2 MiB.
pub const DEFAULT_MAX_RESPONSE_BYTES: u64 = 2097152;

/// Byte length of the target method name, `"http_request"`; an invoker of a
/// differently named method must use that name's length instead.
pub const METHOD_NAME_LEN: u64 = 12;

/// Fixed base fee of one outcall, in cycles.
pub const BASE_FEE: u64 = 400_000_000;

/// Fee per byte of encoded request, method name and response cap, in cycles.
pub const PER_BYTE_FEE: u64 = 100_000;

/// The cap used for cost computation: the caller's, or the 2 MiB default.
/// It is only read here; the argument itself is never rewritten.
pub open spec fn spec_effective_max(o: Option<u64>) -> u64 {
    match o {
        Some(n) => n,
        None => DEFAULT_MAX_RESPONSE_BYTES,
    }
}

/// The cycles owed for a request of `len` encoded bytes under response cap
/// `max`.
pub open spec fn spec_required_cycles(len: nat, max: u64) -> int {
    BASE_FEE + PER_BYTE_FEE * (len + METHOD_NAME_LEN + max)
}

/// The cost formula itself, on plain numbers.
pub fn required_cycles_for(encoded_len: u64, max_response_bytes: u64) -> (r: u128)
    ensures
        r == spec_required_cycles(encoded_len as nat, max_response_bytes),
{
    400_000_000u128
        + 100_000u128 * (encoded_len as u128 + METHOD_NAME_LEN as u128
            + max_response_bytes as u128)
}

/// An absent cap costs exactly what the explicit 2 MiB cap costs, for any
/// encoded length.
pub proof fn lemma_default_cap_cost(len: nat)
    ensures
        spec_required_cycles(len, spec_effective_max(None))
            == spec_required_cycles(len, spec_effective_max(Some(DEFAULT_MAX_RESPONSE_BYTES))),
{
}

/// The cycles that must accompany `arg`: a function of its encoded length
/// and its effective response cap, never of anything else. The argument is
/// only read.
pub fn http_request_required_cycles(arg: &CanisterHttpRequestArgument) -> (r: u128)
    requires
        request_encodable(arg@),
    ensures
        r == spec_required_cycles(enc_request_msg(arg@).len(),
            spec_effective_max(arg@.max_response_bytes)),
{
    let max: u64 = match arg.max_response_bytes {
        Some(n) => n,
        None => DEFAULT_MAX_RESPONSE_BYTES,
    };
    match encode_request(arg) {
        Ok(bytes) => required_cycles_for(bytes.len() as u64, max),
        Err(_) => {
            proof {
                assert(false);
            }
            0
        },
    }
}

/// Encodes `arg` and computes the payment to attach: everything the shell
/// needs to issue one call. Fails, before any call could be made, exactly
/// when the argument cannot be encoded.
pub fn prepare_http_request(arg: &CanisterHttpRequestArgument)
    -> (r: Result<(Vec<u8>, u128), OutcallError>)
    ensures
        r matches Ok(p) ==> request_encodable(arg@)
            && p.0@ == enc_request_msg(arg@)
            && p.1 == spec_required_cycles(enc_request_msg(arg@).len(),
                spec_effective_max(arg@.max_response_bytes)),
        r matches Err(e) ==> !request_encodable(arg@) && e == OutcallError::EncodingError,
{
    let max: u64 = match arg.max_response_bytes {
        Some(n) => n,
        None => DEFAULT_MAX_RESPONSE_BYTES,
    };
    match encode_request(arg) {
        Ok(bytes) => {
            let cycles = required_cycles_for(bytes.len() as u64, max);
            Ok((bytes, cycles))
        },
        Err(e) => Err(e),
    }
}

/// Reads the host's verbatim outcome of one call. A rejection is returned
/// unchanged as a call error — never reinterpreted, never replaced by a
/// synthesized response; reply bytes are decoded, and bytes that are no
/// response encoding are a decoding error.
pub fn interpret_call_result(outcome: Result<Vec<u8>, (u32, String)>)
    -> (r: Result<HttpResponse, OutcallError>)
    ensures
        outcome matches Err(e) ==> r == Err::<HttpResponse, OutcallError>(
            OutcallError::CallError { code: e.0, message: e.1 }),
        outcome matches Ok(b) ==> {
            &&& r matches Ok(resp) ==> b@ == enc_response_msg(resp@)
            &&& forall|v: ResponseModel| b@ == enc_response_msg(v)
                ==> (r matches Ok(resp) && resp@ == v)
            &&& r matches Err(e2) ==> e2 == OutcallError::DecodingError
        },
{
    match outcome {
        Err((code, message)) => Err(OutcallError::CallError { code, message }),
        Ok(bytes) => decode_response(&bytes),
    }
}

} // verus!
