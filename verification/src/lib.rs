//! Outbound HTTP calls for a canister: the wire data model, a verified
//! fixed-schema IDL codec — including the function-reference form that the
//! optional transform callback must take on the wire — and the cycle-cost
//! computation for the management canister's `http_request` method.
//!
//! - [`types`] holds the request, response, header, method and transform
//!   records together with their mathematical models.
//! - [`wire`] states the byte form of every record as spec functions; it is
//!   the single description both encoders and decoders are held to.
//! - [`leb`] and [`utf8`] supply the byte-level primitives.
//! - [`encode`] and [`decode`] are the executable codec: encoding is proved
//!   to emit exactly the bytes [`wire`] describes, and decoding accepts
//!   exactly those bytes and returns the value that produced them.
//! - [`outcall`] computes the cycle payment owed for a request and reads
//!   the host's verbatim outcome. Issuing the call is left to an unverified
//!   shell, which receives plain bytes and a cycle amount from here.

pub mod decode;
pub mod encode;
pub mod leb;
pub mod outcall;
pub mod types;
pub mod utf8;
pub mod wire;

pub use types::{CanisterHttpRequestArgument, HttpHeader, HttpMethod, HttpResponse,
    OutcallError, TransformArgs, TransformContext, TransformFunc};
pub use encode::{encode_request, encode_response};
pub use decode::{decode_request, decode_response};
pub use outcall::{http_request_required_cycles, interpret_call_result, prepare_http_request,
    required_cycles_for};
