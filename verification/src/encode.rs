//! Executable encoders, each proved to emit exactly the byte sequence that
//! the functions of [`crate::wire`] describe.

use vstd::prelude::*;
use crate::leb::{leb_encode, le_encode, lemma_pow256_8, spec_leb};
use crate::types::{CanisterHttpRequestArgument, HttpHeader, HttpMethod, HttpResponse,
    OutcallError, TransformContext, TransformFunc};
use crate::wire::{enc_blob, enc_func, enc_header, enc_header_seq, enc_headers, enc_method,
    enc_request_msg,
    enc_response_msg, enc_text, enc_transform, lemma_enc_header_seq_push,
    request_encodable, request_head, request_head_back, request_head_front, response_head,
    HASH_BODY, HASH_CONTEXT, HASH_FUNCTION,
    HASH_GET, HASH_HEAD, HASH_HEADERS, HASH_MAX_RESPONSE_BYTES, HASH_METHOD, HASH_NAME,
    HASH_POST, HASH_RESPONSE, HASH_STATUS, HASH_TRANSFORM, HASH_URL, HASH_VALUE,
    MAX_PRINCIPAL_LEN};
use crate::utf8::utf8_bytes;

verus! {

/// Appends a byte slice.
fn push_slice(buf: &mut Vec<u8>, s: &[u8])
    ensures
        final(buf)@ == old(buf)@ + s@,
{
    let mut i: usize = 0;
    while i < s.len()
        invariant
            i <= s@.len(),
            buf@ == old(buf)@ + s@.subrange(0, i as int),
        decreases s@.len() - i,
    {
        buf.push(s[i]);
        i = i + 1;
        proof {
            assert(buf@ =~= old(buf)@ + s@.subrange(0, i as int));
        }
    }
    proof {
        assert(s@.subrange(0, s@.len() as int) =~= s@);
    }
}

/// Appends a `text` value.
fn push_text(buf: &mut Vec<u8>, s: &str)
    ensures
        final(buf)@ == old(buf)@ + enc_text(s@),
{
    let b = utf8_bytes(s);
    leb_encode(buf, b.len() as u128);
    push_slice(buf, b.as_slice());
    proof {
        assert(buf@ =~= old(buf)@ + enc_text(s@));
    }
}

/// Appends a `blob` value.
fn push_blob(buf: &mut Vec<u8>, b: &Vec<u8>)
    ensures
        final(buf)@ == old(buf)@ + enc_blob(b@),
{
    leb_encode(buf, b.len() as u128);
    push_slice(buf, b.as_slice());
    proof {
        assert(buf@ =~= old(buf)@ + enc_blob(b@));
    }
}

/// Appends one header record.
fn push_header(buf: &mut Vec<u8>, h: &HttpHeader)
    ensures
        final(buf)@ == old(buf)@ + enc_header(h@),
{
    push_text(buf, h.value.as_str());
    push_text(buf, h.name.as_str());
    proof {
        assert(buf@ =~= old(buf)@ + enc_header(h@));
    }
}

/// Appends a header list value.
fn push_headers(buf: &mut Vec<u8>, hs: &Vec<HttpHeader>)
    ensures
        final(buf)@ == old(buf)@ + enc_headers(hs@.map_values(|h: HttpHeader| h@)),
{
    let ghost m = hs@.map_values(|h: HttpHeader| h@);
    leb_encode(buf, hs.len() as u128);
    let mut i: usize = 0;
    proof {
        assert(m.take(0) =~= Seq::<crate::types::HeaderModel>::empty());
    }
    while i < hs.len()
        invariant
            i <= hs@.len(),
            m == hs@.map_values(|h: HttpHeader| h@),
            m.len() == hs@.len(),
            buf@ == old(buf)@ + spec_leb(m.len()) + enc_header_seq(m.take(i as int)),
        decreases hs@.len() - i,
    {
        push_header(buf, &hs[i]);
        proof {
            assert(m.take(i + 1) =~= m.take(i as int).push(m[i as int]));
            lemma_enc_header_seq_push(m.take(i as int), m[i as int]);
            assert(m[i as int] == hs@[i as int]@);
            assert(buf@ =~= old(buf)@ + spec_leb(m.len()) + enc_header_seq(m.take(i + 1)));
        }
        i = i + 1;
    }
    proof {
        assert(m.take(m.len() as int) =~= m);
        assert(buf@ =~= old(buf)@ + enc_headers(m));
    }
}

/// Appends the method variant's tag index.
fn push_method(buf: &mut Vec<u8>, m: HttpMethod)
    ensures
        final(buf)@ == old(buf)@ + enc_method(m),
{
    match m {
        HttpMethod::GET => buf.push(0u8),
        HttpMethod::HEAD => buf.push(1u8),
        HttpMethod::POST => buf.push(2u8),
    }
    proof {
        assert(buf@ =~= old(buf)@ + enc_method(m));
    }
}

/// Appends a function-reference value.
fn push_func(buf: &mut Vec<u8>, f: &TransformFunc)
    ensures
        final(buf)@ == old(buf)@ + enc_func(f@),
{
    buf.push(1u8);
    buf.push(1u8);
    push_blob(buf, &f.principal);
    push_text(buf, f.method.as_str());
    proof {
        assert(buf@ =~= old(buf)@ + enc_func(f@));
    }
}

/// Appends a transform record value.
fn push_transform(buf: &mut Vec<u8>, t: &TransformContext)
    ensures
        final(buf)@ == old(buf)@ + enc_transform(t@),
{
    push_func(buf, &t.function);
    push_blob(buf, &t.context);
    proof {
        assert(buf@ =~= old(buf)@ + enc_transform(t@));
    }
}

/// Appends the front half of a request message's fixed head.
#[verifier::rlimit(100)]
fn push_request_head_front(buf: &mut Vec<u8>)
    ensures
        final(buf)@ == old(buf)@ + request_head_front(),
{
    buf.push(0x44u8);
    buf.push(0x49u8);
    buf.push(0x44u8);
    buf.push(0x4cu8);
    buf.push(12u8);
    buf.push(0x6cu8);
    buf.push(6u8);
    leb_encode(buf, HASH_URL as u128);
    buf.push(0x71u8);
    leb_encode(buf, HASH_METHOD as u128);
    buf.push(1u8);
    leb_encode(buf, HASH_MAX_RESPONSE_BYTES as u128);
    buf.push(2u8);
    leb_encode(buf, HASH_BODY as u128);
    buf.push(3u8);
    leb_encode(buf, HASH_TRANSFORM as u128);
    buf.push(5u8);
    leb_encode(buf, HASH_HEADERS as u128);
    buf.push(10u8);
    buf.push(0x6bu8);
    buf.push(3u8);
    leb_encode(buf, HASH_GET as u128);
    buf.push(0x7fu8);
    leb_encode(buf, HASH_HEAD as u128);
    buf.push(0x7fu8);
    leb_encode(buf, HASH_POST as u128);
    buf.push(0x7fu8);
    buf.push(0x6eu8);
    buf.push(0x78u8);
    buf.push(0x6eu8);
    buf.push(4u8);
    buf.push(0x6du8);
    buf.push(0x7bu8);
    buf.push(0x6eu8);
    buf.push(6u8);
    proof {
        assert(buf@ =~= old(buf)@ + request_head_front());
    }
}

/// Appends the back half of a request message's fixed head.
#[verifier::rlimit(100)]
fn push_request_head_back(buf: &mut Vec<u8>)
    ensures
        final(buf)@ == old(buf)@ + request_head_back(),
{
    buf.push(0x6cu8);
    buf.push(2u8);
    leb_encode(buf, HASH_FUNCTION as u128);
    buf.push(7u8);
    leb_encode(buf, HASH_CONTEXT as u128);
    buf.push(4u8);
    buf.push(0x6au8);
    buf.push(1u8);
    buf.push(8u8);
    buf.push(1u8);
    buf.push(9u8);
    buf.push(1u8);
    buf.push(1u8);
    buf.push(0x6cu8);
    buf.push(2u8);
    leb_encode(buf, HASH_CONTEXT as u128);
    buf.push(4u8);
    leb_encode(buf, HASH_RESPONSE as u128);
    buf.push(9u8);
    buf.push(0x6cu8);
    buf.push(3u8);
    leb_encode(buf, HASH_STATUS as u128);
    buf.push(0x7du8);
    leb_encode(buf, HASH_BODY as u128);
    buf.push(4u8);
    leb_encode(buf, HASH_HEADERS as u128);
    buf.push(10u8);
    buf.push(0x6du8);
    buf.push(11u8);
    buf.push(0x6cu8);
    buf.push(2u8);
    leb_encode(buf, HASH_VALUE as u128);
    buf.push(0x71u8);
    leb_encode(buf, HASH_NAME as u128);
    buf.push(0x71u8);
    buf.push(1u8);
    buf.push(0u8);
    proof {
        assert(buf@ =~= old(buf)@ + request_head_back());
    }
}

/// Appends the fixed head of a request message.
fn push_request_head(buf: &mut Vec<u8>)
    ensures
        final(buf)@ == old(buf)@ + request_head(),
{
    push_request_head_front(buf);
    push_request_head_back(buf);
    proof {
        assert(buf@ =~= old(buf)@ + request_head());
    }
}

/// Appends the fixed head of a response message.
fn push_response_head(buf: &mut Vec<u8>)
    ensures
        final(buf)@ == old(buf)@ + response_head(),
{
    buf.push(0x44u8);
    buf.push(0x49u8);
    buf.push(0x44u8);
    buf.push(0x4cu8);
    buf.push(4u8);
    buf.push(0x6cu8);
    buf.push(3u8);
    leb_encode(buf, HASH_STATUS as u128);
    buf.push(0x7du8);
    leb_encode(buf, HASH_BODY as u128);
    buf.push(1u8);
    leb_encode(buf, HASH_HEADERS as u128);
    buf.push(2u8);
    buf.push(0x6du8);
    buf.push(0x7bu8);
    buf.push(0x6du8);
    buf.push(3u8);
    buf.push(0x6cu8);
    buf.push(2u8);
    leb_encode(buf, HASH_VALUE as u128);
    buf.push(0x71u8);
    leb_encode(buf, HASH_NAME as u128);
    buf.push(0x71u8);
    buf.push(1u8);
    buf.push(0u8);
    proof {
        assert(buf@ =~= old(buf)@ + response_head());
    }
}

/// The fixed head of a request message as a byte vector.
pub(crate) fn request_head_vec() -> (r: Vec<u8>)
    ensures
        r@ == request_head(),
{
    let mut buf: Vec<u8> = Vec::new();
    push_request_head(&mut buf);
    proof {
        assert(buf@ =~= request_head());
    }
    buf
}

/// The fixed head of a response message as a byte vector.
pub(crate) fn response_head_vec() -> (r: Vec<u8>)
    ensures
        r@ == response_head(),
{
    let mut buf: Vec<u8> = Vec::new();
    push_response_head(&mut buf);
    proof {
        assert(buf@ =~= response_head());
    }
    buf
}

/// Encodes a request argument as a whole message; fails, before anything is
/// sent, exactly when the transform principal exceeds the platform's
/// address length.
#[verifier::rlimit(100)]
pub fn encode_request(arg: &CanisterHttpRequestArgument) -> (r: Result<Vec<u8>, OutcallError>)
    ensures
        r matches Ok(out) ==> request_encodable(arg@) && out@ == enc_request_msg(arg@),
        r matches Err(e) ==> !request_encodable(arg@) && e == OutcallError::EncodingError,
{
    if let Some(t) = &arg.transform {
        if t.function.principal.len() > MAX_PRINCIPAL_LEN {
            return Err(OutcallError::EncodingError);
        }
    }
    let mut buf: Vec<u8> = Vec::new();
    push_request_head(&mut buf);
    push_text(&mut buf, arg.url.as_str());
    push_method(&mut buf, arg.method);
    match arg.max_response_bytes {
        None => buf.push(0u8),
        Some(n) => {
            buf.push(1u8);
            proof {
                lemma_pow256_8();
            }
            le_encode(&mut buf, n, 8);
        },
    }
    match &arg.body {
        None => buf.push(0u8),
        Some(b) => {
            buf.push(1u8);
            push_blob(&mut buf, b);
        },
    }
    match &arg.transform {
        None => buf.push(0u8),
        Some(t) => {
            buf.push(1u8);
            push_transform(&mut buf, t);
        },
    }
    push_headers(&mut buf, &arg.headers);
    proof {
        assert(buf@ =~= enc_request_msg(arg@));
    }
    Ok(buf)
}

/// Encodes a response as a whole message; every response value can be
/// encoded.
pub fn encode_response(r: &HttpResponse) -> (out: Vec<u8>)
    ensures
        out@ == enc_response_msg(r@),
{
    let mut buf: Vec<u8> = Vec::new();
    push_response_head(&mut buf);
    leb_encode(&mut buf, r.status);
    push_blob(&mut buf, &r.body);
    push_headers(&mut buf, &r.headers);
    proof {
        assert(buf@ =~= enc_response_msg(r@));
    }
    buf
}

} // verus!
