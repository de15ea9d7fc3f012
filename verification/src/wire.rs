//! The wire form of every record this library exchanges, as mathematical
//! functions from model values to byte sequences.
//!
//! A message is `DIDL`, a type table fixed by the schema, one argument type
//! index, and the argument's value bytes. Record fields and variant tags
//! stand in ascending order of their 32-bit field hash; those hashes are the
//! `HASH_*` constants below.

use vstd::prelude::*;
use crate::leb::{spec_leb, spec_le_bytes};
use crate::types::{FuncModel, HeaderModel, HttpMethod, RequestModel, ResponseModel, TransformModel};
use crate::utf8::utf8_of;

verus! {

/// Field hash of `url`.
pub const HASH_URL: u64 = 5843823;
/// Field hash of `method`.
pub const HASH_METHOD: u64 = 156956385;
/// Field hash of `max_response_bytes`.
pub const HASH_MAX_RESPONSE_BYTES: u64 = 309734248;
/// Field hash of `body`.
pub const HASH_BODY: u64 = 1092319906;
/// Field hash of `transform`.
pub const HASH_TRANSFORM: u64 = 1167273324;
/// Field hash of `headers`.
pub const HASH_HEADERS: u64 = 1661489734;
/// Variant hash of the wire tag `get`.
pub const HASH_GET: u64 = 5144726;
/// Variant hash of the wire tag `head`.
pub const HASH_HEAD: u64 = 1158359328;
/// Variant hash of the wire tag `post`.
pub const HASH_POST: u64 = 1247577184;
/// Field hash of `function`.
pub const HASH_FUNCTION: u64 = 340962072;
/// Field hash of `context`.
pub const HASH_CONTEXT: u64 = 427267567;
/// Field hash of `response`.
pub const HASH_RESPONSE: u64 = 2718740097;
/// Field hash of `status`.
pub const HASH_STATUS: u64 = 100394802;
/// Field hash of `value`.
pub const HASH_VALUE: u64 = 834174833;
/// Field hash of `name`.
pub const HASH_NAME: u64 = 1224700491;

/// The longest principal the platform can address, in bytes.
pub const MAX_PRINCIPAL_LEN: usize = 29;

/// `text`: byte length as ULEB128, then the UTF-8 bytes.
pub open spec fn enc_text(s: Seq<char>) -> Seq<u8> {
    spec_leb(utf8_of(s).len()) + utf8_of(s)
}

/// `blob` (`vec nat8`): length as ULEB128, then the bytes.
pub open spec fn enc_blob(b: Seq<u8>) -> Seq<u8> {
    spec_leb(b.len()) + b
}

/// One header record; the `value` field hashes below `name`, so it stands
/// first on the wire.
pub open spec fn enc_header(h: HeaderModel) -> Seq<u8> {
    enc_text(h.value) + enc_text(h.name)
}

/// The headers one after the other, order preserved.
pub open spec fn enc_header_seq(hs: Seq<HeaderModel>) -> Seq<u8>
    decreases hs.len(),
{
    if hs.len() == 0 {
        Seq::empty()
    } else {
        enc_header(hs[0]) + enc_header_seq(hs.drop_first())
    }
}

/// `vec` of header records: count, then each element.
pub open spec fn enc_headers(hs: Seq<HeaderModel>) -> Seq<u8> {
    spec_leb(hs.len()) + enc_header_seq(hs)
}

/// The method variant: the index of its wire tag among `get` < `head` <
/// `post` in hash order.
pub open spec fn enc_method(m: HttpMethod) -> Seq<u8> {
    match m {
        HttpMethod::GET => seq![0u8],
        HttpMethod::HEAD => seq![1u8],
        HttpMethod::POST => seq![2u8],
    }
}

/// `opt nat64`: absent is a single 0, present is 1 and the 8-byte
/// little-endian word.
pub open spec fn enc_opt_u64(o: Option<u64>) -> Seq<u8> {
    match o {
        None => seq![0u8],
        Some(n) => seq![1u8] + spec_le_bytes(n as nat, 8),
    }
}

/// `opt blob`.
pub open spec fn enc_opt_blob(o: Option<Seq<u8>>) -> Seq<u8> {
    match o {
        None => seq![0u8],
        Some(b) => seq![1u8] + enc_blob(b),
    }
}

/// A function reference: a present-reference marker, the principal as a
/// present-id marker plus its bytes, then the method name — never a record
/// of the two fields.
pub open spec fn enc_func(f: FuncModel) -> Seq<u8> {
    seq![1u8, 1u8] + enc_blob(f.principal) + enc_text(f.method)
}

/// The transform record: the function reference, then the opaque context.
pub open spec fn enc_transform(t: TransformModel) -> Seq<u8> {
    enc_func(t.function) + enc_blob(t.context)
}

/// `opt` of the transform record.
pub open spec fn enc_opt_transform(o: Option<TransformModel>) -> Seq<u8> {
    match o {
        None => seq![0u8],
        Some(t) => seq![1u8] + enc_transform(t),
    }
}

/// The request record's value bytes: its fields in hash order.
pub open spec fn enc_request_value(v: RequestModel) -> Seq<u8> {
    enc_text(v.url) + enc_method(v.method) + enc_opt_u64(v.max_response_bytes)
        + enc_opt_blob(v.body) + enc_opt_transform(v.transform) + enc_headers(v.headers)
}

/// The response record's value bytes: its fields in hash order.
pub open spec fn enc_response_value(r: ResponseModel) -> Seq<u8> {
    spec_leb(r.status as nat) + enc_blob(r.body) + enc_headers(r.headers)
}

/// Magic, type table and argument list of a request message. The table's
/// twelve entries are, in order: the request record, the method variant,
/// `opt nat64`, `opt blob`, `blob`, `opt` transform, the transform record,
/// the transform function's type, the transform-argument record, the
/// response record, `vec` of headers, and the header record.
pub open spec fn request_head_front() -> Seq<u8> {
    seq![0x44u8, 0x49u8, 0x44u8, 0x4cu8]
        + seq![12u8]
        + seq![0x6cu8, 6u8]
        + spec_leb(HASH_URL as nat) + seq![0x71u8]
        + spec_leb(HASH_METHOD as nat) + seq![1u8]
        + spec_leb(HASH_MAX_RESPONSE_BYTES as nat) + seq![2u8]
        + spec_leb(HASH_BODY as nat) + seq![3u8]
        + spec_leb(HASH_TRANSFORM as nat) + seq![5u8]
        + spec_leb(HASH_HEADERS as nat) + seq![10u8]
        + seq![0x6bu8, 3u8]
        + spec_leb(HASH_GET as nat) + seq![0x7fu8]
        + spec_leb(HASH_HEAD as nat) + seq![0x7fu8]
        + spec_leb(HASH_POST as nat) + seq![0x7fu8]
        + seq![0x6eu8, 0x78u8]
        + seq![0x6eu8, 4u8]
        + seq![0x6du8, 0x7bu8]
        + seq![0x6eu8, 6u8]
}

pub open spec fn request_head_back() -> Seq<u8> {
    seq![0x6cu8, 2u8]
        + spec_leb(HASH_FUNCTION as nat) + seq![7u8]
        + spec_leb(HASH_CONTEXT as nat) + seq![4u8]
        + seq![0x6au8, 1u8, 8u8, 1u8, 9u8, 1u8, 1u8]
        + seq![0x6cu8, 2u8]
        + spec_leb(HASH_CONTEXT as nat) + seq![4u8]
        + spec_leb(HASH_RESPONSE as nat) + seq![9u8]
        + seq![0x6cu8, 3u8]
        + spec_leb(HASH_STATUS as nat) + seq![0x7du8]
        + spec_leb(HASH_BODY as nat) + seq![4u8]
        + spec_leb(HASH_HEADERS as nat) + seq![10u8]
        + seq![0x6du8, 11u8]
        + seq![0x6cu8, 2u8]
        + spec_leb(HASH_VALUE as nat) + seq![0x71u8]
        + spec_leb(HASH_NAME as nat) + seq![0x71u8]
        + seq![1u8, 0u8]
}

pub open spec fn request_head() -> Seq<u8> {
    request_head_front() + request_head_back()
}

/// Magic, type table and argument list of a response message. The table's
/// four entries are the response record, `blob`, `vec` of headers, and the
/// header record.
pub open spec fn response_head() -> Seq<u8> {
    seq![0x44u8, 0x49u8, 0x44u8, 0x4cu8]
        + seq![4u8]
        + seq![0x6cu8, 3u8]
        + spec_leb(HASH_STATUS as nat) + seq![0x7du8]
        + spec_leb(HASH_BODY as nat) + seq![1u8]
        + spec_leb(HASH_HEADERS as nat) + seq![2u8]
        + seq![0x6du8, 0x7bu8]
        + seq![0x6du8, 3u8]
        + seq![0x6cu8, 2u8]
        + spec_leb(HASH_VALUE as nat) + seq![0x71u8]
        + spec_leb(HASH_NAME as nat) + seq![0x71u8]
        + seq![1u8, 0u8]
}

/// A whole request message.
pub open spec fn enc_request_msg(v: RequestModel) -> Seq<u8> {
    request_head() + enc_request_value(v)
}

/// A whole response message.
pub open spec fn enc_response_msg(r: ResponseModel) -> Seq<u8> {
    response_head() + enc_response_value(r)
}

/// A request can be put on the wire exactly when its transform principal,
/// if any, fits the platform's address length.
pub open spec fn request_encodable(v: RequestModel) -> bool {
    v.transform matches Some(t) ==> t.function.principal.len() <= MAX_PRINCIPAL_LEN
}

/// Appending one header extends its byte form on the right.
pub proof fn lemma_enc_header_seq_push(hs: Seq<HeaderModel>, h: HeaderModel)
    ensures
        enc_header_seq(hs.push(h)) == enc_header_seq(hs) + enc_header(h),
    decreases hs.len(),
{
    if hs.len() == 0 {
        let ps = hs.push(h);
        assert(ps[0] == h);
        assert(enc_header_seq(ps.drop_first()) == Seq::<u8>::empty());
        assert(enc_header_seq(ps) == enc_header(h) + Seq::<u8>::empty());
        assert(enc_header(h) + Seq::<u8>::empty() =~= enc_header(h));
        assert(enc_header_seq(hs) == Seq::<u8>::empty());
        assert(Seq::<u8>::empty() + enc_header(h) =~= enc_header(h));
    } else {
        assert(hs.push(h).drop_first() =~= hs.drop_first().push(h));
        lemma_enc_header_seq_push(hs.drop_first(), h);
        assert(hs.push(h)[0] == hs[0]);
        assert(enc_header_seq(hs.push(h))
            == enc_header(hs[0]) + (enc_header_seq(hs.drop_first()) + enc_header(h)));
        assert(enc_header(hs[0]) + (enc_header_seq(hs.drop_first()) + enc_header(h))
            =~= (enc_header(hs[0]) + enc_header_seq(hs.drop_first())) + enc_header(h));
    }
}

} // verus!
