//! Executable decoders. Each one accepts exactly the canonical byte form
//! that the encoders emit: its contract says both that a successful parse
//! re-encodes to the bytes read, and that whenever a value's encoding is
//! present the parse succeeds with that value.

use vstd::prelude::*;
use crate::leb::{leb_decode, le_decode, lemma_le_bytes_len, lemma_pow256_8, spec_leb,
    spec_le_bytes, leb_at};
use crate::types::{CanisterHttpRequestArgument, HeaderModel, HttpHeader, HttpMethod,
    HttpResponse, OutcallError, TransformContext, TransformFunc, FuncModel, TransformModel,
    RequestModel, ResponseModel};
use crate::wire::{enc_blob, enc_func, enc_header, enc_header_seq, enc_headers, enc_method,
    enc_opt_blob, enc_opt_transform, enc_opt_u64, enc_request_msg, enc_request_value,
    enc_response_msg, enc_response_value, enc_text, enc_transform, lemma_enc_header_seq_push,
    request_encodable, request_head, response_head, MAX_PRINCIPAL_LEN};
use crate::utf8::{utf8_of, utf8_string};

verus! {

/// `piece` stands in `s` at position `pos`.
pub open spec fn bytes_at(s: Seq<u8>, pos: int, piece: Seq<u8>) -> bool {
    &&& 0 <= pos
    &&& pos + piece.len() <= s.len()
    &&& s.subrange(pos, pos + piece.len() as int) == piece
}

/// A piece made of two parts stands wherever both parts stand in turn.
proof fn lemma_bytes_at_split(s: Seq<u8>, pos: int, a: Seq<u8>, b: Seq<u8>)
    requires
        bytes_at(s, pos, a + b),
    ensures
        bytes_at(s, pos, a),
        bytes_at(s, pos + a.len(), b),
{
    let w = a + b;
    assert(s.subrange(pos, pos + a.len() as int) =~= a) by {
        assert forall|i: int| 0 <= i < a.len() implies
            s.subrange(pos, pos + a.len() as int)[i] == a[i] by {
            assert(s.subrange(pos, pos + w.len() as int)[i] == w[i]);
        }
    }
    assert(s.subrange(pos + a.len(), pos + a.len() + b.len() as int) =~= b) by {
        assert forall|i: int| 0 <= i < b.len() implies
            s.subrange(pos + a.len(), pos + a.len() + b.len() as int)[i] == b[i] by {
            assert(s.subrange(pos, pos + w.len() as int)[a.len() + i] == w[a.len() + i]);
        }
    }
}

/// And conversely.
proof fn lemma_bytes_at_join(s: Seq<u8>, pos: int, a: Seq<u8>, b: Seq<u8>)
    requires
        bytes_at(s, pos, a),
        bytes_at(s, pos + a.len(), b),
    ensures
        bytes_at(s, pos, a + b),
{
    let w = a + b;
    assert(s.subrange(pos, pos + w.len() as int) =~= w) by {
        assert forall|i: int| 0 <= i < w.len() implies
            s.subrange(pos, pos + w.len() as int)[i] == w[i] by {
            if i < a.len() {
                assert(s.subrange(pos, pos + a.len() as int)[i] == a[i]);
            } else {
                assert(s.subrange(pos + a.len(), pos + a.len() + b.len() as int)[i - a.len()]
                    == b[i - a.len()]);
            }
        }
    }
}

/// Copies `n` bytes starting at `pos`.
fn copy_range(bytes: &Vec<u8>, pos: usize, n: usize) -> (r: Vec<u8>)
    requires
        pos + n <= bytes@.len(),
    ensures
        r@ == bytes@.subrange(pos as int, (pos + n) as int),
{
    let blen = bytes.len();
    let mut out: Vec<u8> = Vec::new();
    let mut i: usize = 0;
    proof {
        assert(out@ =~= bytes@.subrange(pos as int, pos as int));
    }
    while i < n
        invariant
            pos + n <= bytes@.len(),
            bytes@.len() == blen,
            i <= n,
            out@ == bytes@.subrange(pos as int, (pos + i) as int),
        decreases n - i,
    {
        out.push(bytes[pos + i]);
        i = i + 1;
        proof {
            assert(out@ =~= bytes@.subrange(pos as int, (pos + i) as int));
        }
    }
    out
}

/// Does `head` stand at the very start of `bytes`?
fn has_prefix(bytes: &Vec<u8>, head: &Vec<u8>) -> (r: bool)
    ensures
        r <==> bytes_at(bytes@, 0, head@),
{
    if head.len() > bytes.len() {
        return false;
    }
    let mut i: usize = 0;
    while i < head.len()
        invariant
            i <= head@.len(),
            head@.len() <= bytes@.len(),
            forall|j: int| 0 <= j < i ==> bytes@[j] == head@[j],
        decreases head@.len() - i,
    {
        if bytes[i] != head[i] {
            proof {
                if bytes_at(bytes@, 0, head@) {
                    assert(bytes@.subrange(0, head@.len() as int)[i as int] == bytes@[i as int]);
                }
            }
            return false;
        }
        i = i + 1;
    }
    proof {
        assert(bytes@.subrange(0, head@.len() as int) =~= head@);
    }
    true
}

/// Reads a `text` value at `pos`.
#[verifier::rlimit(100)]
fn dec_text(bytes: &Vec<u8>, pos: usize) -> (r: Option<(String, usize)>)
    requires
        pos <= bytes@.len(),
    ensures
        r matches Some(p) ==> pos <= p.1 <= bytes@.len()
            && bytes_at(bytes@, pos as int, enc_text(p.0@))
            && p.1 == pos + enc_text(p.0@).len(),
        forall|t: Seq<char>| bytes_at(bytes@, pos as int, enc_text(t))
            ==> (r matches Some(p) && p.0@ == t),
{
    let blen = bytes.len();
    proof {
        assert forall|t: Seq<char>| bytes_at(bytes@, pos as int, enc_text(t))
            implies leb_at(bytes@, pos as int, utf8_of(t).len())
                && utf8_of(t).len() <= blen by {
            lemma_bytes_at_split(bytes@, pos as int, spec_leb(utf8_of(t).len()), utf8_of(t));
        }
    }
    match leb_decode(bytes, pos) {
        None => {
            proof {
                assert forall|t: Seq<char>| !bytes_at(bytes@, pos as int, enc_text(t)) by {
                    if bytes_at(bytes@, pos as int, enc_text(t)) {
                        let n0 = utf8_of(t).len() as u128;
                        assert(leb_at(bytes@, pos as int, n0 as nat));
                    }
                }
            }
            None
        },
        Some((n, p1)) => {
            let rem = bytes.len() - p1;
            proof {
                assert forall|t: Seq<char>| bytes_at(bytes@, pos as int, enc_text(t))
                    implies n as nat == utf8_of(t).len() by {
                    let n0 = utf8_of(t).len() as u128;
                    assert(n0 as nat == utf8_of(t).len());
                    assert(leb_at(bytes@, pos as int, n0 as nat));
                }
            }
            if n > rem as u128 {
                proof {
                    assert forall|t: Seq<char>| !bytes_at(bytes@, pos as int, enc_text(t)) by {
                        if bytes_at(bytes@, pos as int, enc_text(t)) {
                            lemma_bytes_at_split(bytes@, pos as int,
                                spec_leb(utf8_of(t).len()), utf8_of(t));
                        }
                    }
                }
                None
            } else {
                let nn = n as usize;
                let slice = copy_range(bytes, p1, nn);
                proof {
                    assert forall|t: Seq<char>| bytes_at(bytes@, pos as int, enc_text(t))
                        implies utf8_of(t) == slice@ by {
                        lemma_bytes_at_split(bytes@, pos as int, spec_leb(utf8_of(t).len()),
                            utf8_of(t));
                        assert(bytes@.subrange(p1 as int, p1 + utf8_of(t).len() as int)
                            == utf8_of(t));
                    }
                }
                match utf8_string(slice) {
                    None => {
                        proof {
                            assert forall|t: Seq<char>| !bytes_at(bytes@, pos as int, enc_text(t))
                                by {
                                if bytes_at(bytes@, pos as int, enc_text(t)) {
                                    assert(utf8_of(t) == slice@);
                                }
                            }
                        }
                        None
                    },
                    Some(s) => {
                        proof {
                            lemma_bytes_at_join(bytes@, pos as int, spec_leb(utf8_of(s@).len()),
                                utf8_of(s@));
                        }
                        Some((s, p1 + nn))
                    },
                }
            }
        },
    }
}

/// Reads a `blob` value at `pos`.
#[verifier::rlimit(100)]
fn dec_blob(bytes: &Vec<u8>, pos: usize) -> (r: Option<(Vec<u8>, usize)>)
    requires
        pos <= bytes@.len(),
    ensures
        r matches Some(p) ==> pos <= p.1 <= bytes@.len()
            && bytes_at(bytes@, pos as int, enc_blob(p.0@))
            && p.1 == pos + enc_blob(p.0@).len(),
        forall|b: Seq<u8>| bytes_at(bytes@, pos as int, enc_blob(b))
            ==> (r matches Some(p) && p.0@ == b),
{
    let blen = bytes.len();
    proof {
        assert forall|b: Seq<u8>| bytes_at(bytes@, pos as int, enc_blob(b))
            implies leb_at(bytes@, pos as int, b.len()) && b.len() <= blen by {
            lemma_bytes_at_split(bytes@, pos as int, spec_leb(b.len()), b);
        }
    }
    match leb_decode(bytes, pos) {
        None => {
            proof {
                assert forall|b: Seq<u8>| !bytes_at(bytes@, pos as int, enc_blob(b)) by {
                    if bytes_at(bytes@, pos as int, enc_blob(b)) {
                        let n0 = b.len() as u128;
                        assert(n0 as nat == b.len());
                        assert(leb_at(bytes@, pos as int, n0 as nat));
                    }
                }
            }
            None
        },
        Some((n, p1)) => {
            let rem = bytes.len() - p1;
            proof {
                assert forall|b: Seq<u8>| bytes_at(bytes@, pos as int, enc_blob(b))
                    implies n as nat == b.len() by {
                    let n0 = b.len() as u128;
                    assert(n0 as nat == b.len());
                    assert(leb_at(bytes@, pos as int, n0 as nat));
                }
            }
            if n > rem as u128 {
                proof {
                    assert forall|b: Seq<u8>| !bytes_at(bytes@, pos as int, enc_blob(b)) by {
                        if bytes_at(bytes@, pos as int, enc_blob(b)) {
                            lemma_bytes_at_split(bytes@, pos as int, spec_leb(b.len()), b);
                        }
                    }
                }
                None
            } else {
                let nn = n as usize;
                let slice = copy_range(bytes, p1, nn);
                proof {
                    lemma_bytes_at_join(bytes@, pos as int, spec_leb(slice@.len()), slice@);
                    assert forall|b: Seq<u8>| bytes_at(bytes@, pos as int, enc_blob(b))
                        implies slice@ == b by {
                        lemma_bytes_at_split(bytes@, pos as int, spec_leb(b.len()), b);
                        assert(bytes@.subrange(p1 as int, p1 + b.len() as int) == b);
                    }
                }
                Some((slice, p1 + nn))
            }
        },
    }
}

/// Reads the method variant's tag index at `pos`.
fn dec_method(bytes: &Vec<u8>, pos: usize) -> (r: Option<(HttpMethod, usize)>)
    requires
        pos <= bytes@.len(),
    ensures
        r matches Some(p) ==> pos < p.1 <= bytes@.len()
            && bytes_at(bytes@, pos as int, enc_method(p.0))
            && p.1 == pos + 1,
        forall|m: HttpMethod| bytes_at(bytes@, pos as int, enc_method(m))
            ==> (r matches Some(p) && p.0 == m),
{
    proof {
        assert forall|m: HttpMethod| bytes_at(bytes@, pos as int, enc_method(m))
            implies pos < bytes@.len() && bytes@[pos as int] == enc_method(m)[0] by {
            assert(bytes@.subrange(pos as int, pos + 1)[0] == bytes@[pos as int]);
        }
    }
    if pos >= bytes.len() {
        return None;
    }
    let b = bytes[pos];
    let m = if b == 0 {
        HttpMethod::GET
    } else if b == 1 {
        HttpMethod::HEAD
    } else if b == 2 {
        HttpMethod::POST
    } else {
        return None;
    };
    proof {
        assert(bytes@.subrange(pos as int, pos + 1) =~= enc_method(m));
    }
    Some((m, pos + 1))
}

/// Reads an `opt nat64` value at `pos`.
#[verifier::rlimit(100)]
fn dec_opt_u64(bytes: &Vec<u8>, pos: usize) -> (r: Option<(Option<u64>, usize)>)
    requires
        pos <= bytes@.len(),
    ensures
        r matches Some(p) ==> pos < p.1 <= bytes@.len()
            && bytes_at(bytes@, pos as int, enc_opt_u64(p.0))
            && p.1 == pos + enc_opt_u64(p.0).len(),
        forall|o: Option<u64>| bytes_at(bytes@, pos as int, enc_opt_u64(o))
            ==> (r matches Some(p) && p.0 == o),
{
    proof {
        lemma_pow256_8();
        assert forall|o: Option<u64>| bytes_at(bytes@, pos as int, enc_opt_u64(o))
            implies pos < bytes@.len() && bytes@[pos as int] == enc_opt_u64(o)[0]
                && (o is Some ==> enc_opt_u64(o)[0] == 1)
                && (o is None ==> enc_opt_u64(o)[0] == 0) by {
            assert(bytes@.subrange(pos as int, pos + enc_opt_u64(o).len() as int)[0]
                == bytes@[pos as int]);
            if o is Some {
                assert(enc_opt_u64(o) == seq![1u8] + spec_le_bytes(o->Some_0 as nat, 8));
            }
        }
    }
    if pos >= bytes.len() {
        return None;
    }
    let b = bytes[pos];
    if b == 0 {
        proof {
            assert(bytes@.subrange(pos as int, pos + 1) =~= enc_opt_u64(None));
        }
        Some((None, pos + 1))
    } else if b == 1 {
        proof {
            assert forall|o: Option<u64>| bytes_at(bytes@, pos as int, enc_opt_u64(o))
                implies o matches Some(n)
                    && bytes_at(bytes@, pos as int + 1, spec_le_bytes(n as nat, 8)) by {
                if o is Some {
                    lemma_le_bytes_len(o->Some_0 as nat, 8);
                    lemma_bytes_at_split(bytes@, pos as int, seq![1u8],
                        spec_le_bytes(o->Some_0 as nat, 8));
                }
            }
        }
        match le_decode(bytes, pos + 1, 8) {
            None => {
                proof {
                    assert forall|o: Option<u64>| !bytes_at(bytes@, pos as int, enc_opt_u64(o))
                        by {
                        if bytes_at(bytes@, pos as int, enc_opt_u64(o)) {
                            lemma_le_bytes_len(o->Some_0 as nat, 8);
                        }
                    }
                }
                None
            },
            Some((v, end)) => {
                proof {
                    assert(bytes@.subrange(pos as int, pos + 1) =~= seq![1u8]);
                    lemma_bytes_at_join(bytes@, pos as int, seq![1u8],
                        spec_le_bytes(v as nat, 8));
                    assert(seq![1u8] + spec_le_bytes(v as nat, 8)
                        == enc_opt_u64(Some(v)));
                    assert forall|o: Option<u64>| bytes_at(bytes@, pos as int, enc_opt_u64(o))
                        implies o == Some(v) by {
                        if o is Some {
                            lemma_le_bytes_len(o->Some_0 as nat, 8);
                            assert(bytes@.subrange(pos as int + 1, pos as int + 1 + 8)
                                == spec_le_bytes(o->Some_0 as nat, 8));
                        }
                    }
                }
                Some((Some(v), end))
            },
        }
    } else {
        proof {
            assert forall|o: Option<u64>| !bytes_at(bytes@, pos as int, enc_opt_u64(o)) by {
                if bytes_at(bytes@, pos as int, enc_opt_u64(o)) {
                    assert(bytes@[pos as int] == enc_opt_u64(o)[0]);
                }
            }
        }
        None
    }
}

/// Reads an `opt blob` value at `pos`.
fn dec_opt_blob(bytes: &Vec<u8>, pos: usize) -> (r: Option<(Option<Vec<u8>>, usize)>)
    requires
        pos <= bytes@.len(),
    ensures
        r matches Some(p) ==> pos < p.1 <= bytes@.len()
            && bytes_at(bytes@, pos as int,
                enc_opt_blob(match p.0 { Some(b) => Some(b@), None => None }))
            && p.1 == pos
                + enc_opt_blob(match p.0 { Some(b) => Some(b@), None => None }).len(),
        forall|o: Option<Seq<u8>>| bytes_at(bytes@, pos as int, enc_opt_blob(o))
            ==> (r matches Some(p)
                && (match p.0 { Some(b) => Some(b@), None => None::<Seq<u8>> }) == o),
{
    proof {
        assert forall|o: Option<Seq<u8>>| bytes_at(bytes@, pos as int, enc_opt_blob(o))
            implies pos < bytes@.len() && bytes@[pos as int] == enc_opt_blob(o)[0]
                && (o is Some ==> enc_opt_blob(o)[0] == 1)
                && (o is None ==> enc_opt_blob(o)[0] == 0) by {
            assert(bytes@.subrange(pos as int, pos + enc_opt_blob(o).len() as int)[0]
                == bytes@[pos as int]);
            if o is Some {
                assert(enc_opt_blob(o) == seq![1u8] + enc_blob(o->Some_0));
            }
        }
    }
    if pos >= bytes.len() {
        return None;
    }
    let b = bytes[pos];
    if b == 0 {
        proof {
            assert(bytes@.subrange(pos as int, pos + 1) =~= enc_opt_blob(None));
        }
        Some((None, pos + 1))
    } else if b == 1 {
        proof {
            assert forall|o: Option<Seq<u8>>| bytes_at(bytes@, pos as int, enc_opt_blob(o))
                implies o matches Some(bb)
                    && bytes_at(bytes@, (pos + 1) as int, enc_blob(bb)) by {
                if o is Some {
                    lemma_bytes_at_split(bytes@, pos as int, seq![1u8], enc_blob(o->Some_0));
                }
            }
        }
        match dec_blob(bytes, pos + 1) {
            None => {
                proof {
                    assert forall|o: Option<Seq<u8>>|
                        !bytes_at(bytes@, pos as int, enc_opt_blob(o)) by {
                        if bytes_at(bytes@, pos as int, enc_opt_blob(o)) {
                            assert(bytes_at(bytes@, (pos + 1) as int, enc_blob(o->Some_0)));
                        }
                    }
                }
                None
            },
            Some((v, end)) => {
                proof {
                    assert(bytes@.subrange(pos as int, pos + 1) =~= seq![1u8]);
                    lemma_bytes_at_join(bytes@, pos as int, seq![1u8], enc_blob(v@));
                    assert(seq![1u8] + enc_blob(v@) == enc_opt_blob(Some(v@)));
                    assert forall|o: Option<Seq<u8>>|
                        bytes_at(bytes@, pos as int, enc_opt_blob(o))
                        implies o == Some(v@) by {
                        if o is Some {
                            assert(bytes_at(bytes@, (pos + 1) as int, enc_blob(o->Some_0)));
                        }
                    }
                }
                Some((Some(v), end))
            },
        }
    } else {
        proof {
            assert forall|o: Option<Seq<u8>>| !bytes_at(bytes@, pos as int, enc_opt_blob(o))
                by {
                if bytes_at(bytes@, pos as int, enc_opt_blob(o)) {
                    assert(bytes@[pos as int] == enc_opt_blob(o)[0]);
                }
            }
        }
        None
    }
}

/// Reads a function-reference value at `pos`; accepts only a principal the
/// platform can address.
#[verifier::rlimit(100)]
fn dec_func(bytes: &Vec<u8>, pos: usize) -> (r: Option<(TransformFunc, usize)>)
    requires
        pos <= bytes@.len(),
    ensures
        r matches Some(p) ==> pos < p.1 <= bytes@.len()
            && bytes_at(bytes@, pos as int, enc_func(p.0@))
            && p.1 == pos + enc_func(p.0@).len()
            && p.0@.principal.len() <= MAX_PRINCIPAL_LEN,
        forall|f: FuncModel| f.principal.len() <= MAX_PRINCIPAL_LEN
            && bytes_at(bytes@, pos as int, enc_func(f))
            ==> (r matches Some(p) && p.0@ == f),
{
    proof {
        assert forall|f: FuncModel| bytes_at(bytes@, pos as int, enc_func(f))
            implies pos + 2 <= bytes@.len()
                && bytes@[pos as int] == 1u8 && bytes@[pos as int + 1] == 1u8
                && bytes_at(bytes@, pos as int + 2, enc_blob(f.principal))
                && bytes_at(bytes@, pos as int + 2 + enc_blob(f.principal).len(),
                    enc_text(f.method)) by {
            assert(enc_func(f)
                =~= seq![1u8, 1u8] + (enc_blob(f.principal) + enc_text(f.method)));
            lemma_bytes_at_split(bytes@, pos as int, seq![1u8, 1u8],
                enc_blob(f.principal) + enc_text(f.method));
            lemma_bytes_at_split(bytes@, pos as int + 2, enc_blob(f.principal),
                enc_text(f.method));
            assert(bytes@.subrange(pos as int, pos + 2)[0] == bytes@[pos as int]);
            assert(bytes@.subrange(pos as int, pos + 2)[1] == bytes@[pos as int + 1]);
        }
    }
    if pos >= bytes.len() || bytes[pos] != 1 {
        return None;
    }
    if pos + 1 >= bytes.len() || bytes[pos + 1] != 1 {
        return None;
    }
    match dec_blob(bytes, pos + 2) {
        None => {
            proof {
                assert forall|f: FuncModel| !bytes_at(bytes@, pos as int, enc_func(f)) by {
                    if bytes_at(bytes@, pos as int, enc_func(f)) {
                        assert(bytes_at(bytes@, (pos + 2) as int, enc_blob(f.principal)));
                    }
                }
            }
            None
        },
        Some((principal, p2)) => {
            proof {
                assert forall|f: FuncModel| bytes_at(bytes@, pos as int, enc_func(f))
                    implies principal@ == f.principal
                        && bytes_at(bytes@, p2 as int, enc_text(f.method)) by {
                    assert(bytes_at(bytes@, (pos + 2) as int, enc_blob(f.principal)));
                }
            }
            if principal.len() > MAX_PRINCIPAL_LEN {
                proof {
                    assert forall|f: FuncModel| f.principal.len() <= MAX_PRINCIPAL_LEN
                        implies !bytes_at(bytes@, pos as int, enc_func(f)) by {
                        if bytes_at(bytes@, pos as int, enc_func(f)) {
                            assert(principal@ == f.principal);
                        }
                    }
                }
                None
            } else {
                match dec_text(bytes, p2) {
                    None => {
                        proof {
                            assert forall|f: FuncModel|
                                !bytes_at(bytes@, pos as int, enc_func(f)) by {
                                if bytes_at(bytes@, pos as int, enc_func(f)) {
                                    assert(bytes_at(bytes@, p2 as int, enc_text(f.method)));
                                }
                            }
                        }
                        None
                    },
                    Some((method, end)) => {
                        let f = TransformFunc { principal, method };
                        proof {
                            lemma_bytes_at_join(bytes@, pos as int + 2,
                                enc_blob(f.principal@), enc_text(f.method@));
                            assert(bytes@.subrange(pos as int, pos + 2) =~= seq![1u8, 1u8]);
                            lemma_bytes_at_join(bytes@, pos as int, seq![1u8, 1u8],
                                enc_blob(f.principal@) + enc_text(f.method@));
                            assert(seq![1u8, 1u8] + (enc_blob(f.principal@) + enc_text(f.method@))
                                =~= enc_func(f@));
                        }
                        Some((f, end))
                    },
                }
            }
        },
    }
}

/// Reads a transform record value at `pos`.
fn dec_transform(bytes: &Vec<u8>, pos: usize) -> (r: Option<(TransformContext, usize)>)
    requires
        pos <= bytes@.len(),
    ensures
        r matches Some(p) ==> pos < p.1 <= bytes@.len()
            && bytes_at(bytes@, pos as int, enc_transform(p.0@))
            && p.1 == pos + enc_transform(p.0@).len()
            && p.0@.function.principal.len() <= MAX_PRINCIPAL_LEN,
        forall|t: TransformModel| t.function.principal.len() <= MAX_PRINCIPAL_LEN
            && bytes_at(bytes@, pos as int, enc_transform(t))
            ==> (r matches Some(p) && p.0@ == t),
{
    proof {
        assert forall|t: TransformModel| bytes_at(bytes@, pos as int, enc_transform(t))
            implies bytes_at(bytes@, pos as int, enc_func(t.function))
                && bytes_at(bytes@, pos as int + enc_func(t.function).len(),
                    enc_blob(t.context)) by {
            lemma_bytes_at_split(bytes@, pos as int, enc_func(t.function), enc_blob(t.context));
        }
    }
    match dec_func(bytes, pos) {
        None => {
            proof {
                assert forall|t: TransformModel|
                    !(t.function.principal.len() <= MAX_PRINCIPAL_LEN
                        && bytes_at(bytes@, pos as int, enc_transform(t))) by {
                    if t.function.principal.len() <= MAX_PRINCIPAL_LEN
                        && bytes_at(bytes@, pos as int, enc_transform(t)) {
                        assert(bytes_at(bytes@, pos as int, enc_func(t.function)));
                    }
                }
            }
            None
        },
        Some((function, p1)) => {
            proof {
                assert forall|t: TransformModel|
                    t.function.principal.len() <= MAX_PRINCIPAL_LEN
                        && bytes_at(bytes@, pos as int, enc_transform(t))
                    implies function@ == t.function
                        && bytes_at(bytes@, p1 as int, enc_blob(t.context)) by {
                    assert(bytes_at(bytes@, pos as int, enc_func(t.function)));
                }
            }
            match dec_blob(bytes, p1) {
                None => {
                    proof {
                        assert forall|t: TransformModel|
                            !(t.function.principal.len() <= MAX_PRINCIPAL_LEN
                                && bytes_at(bytes@, pos as int, enc_transform(t))) by {
                            if t.function.principal.len() <= MAX_PRINCIPAL_LEN
                                && bytes_at(bytes@, pos as int, enc_transform(t)) {
                                assert(bytes_at(bytes@, p1 as int, enc_blob(t.context)));
                            }
                        }
                    }
                    None
                },
                Some((context, end)) => {
                    let t = TransformContext { function, context };
                    proof {
                        lemma_bytes_at_join(bytes@, pos as int, enc_func(t.function@),
                            enc_blob(t.context@));
                    }
                    Some((t, end))
                },
            }
        },
    }
}

/// Reads an `opt` transform value at `pos`.
fn dec_opt_transform(bytes: &Vec<u8>, pos: usize) -> (r: Option<(Option<TransformContext>, usize)>)
    requires
        pos <= bytes@.len(),
    ensures
        r matches Some(p) ==> pos < p.1 <= bytes@.len()
            && bytes_at(bytes@, pos as int,
                enc_opt_transform(match p.0 { Some(t) => Some(t@), None => None }))
            && p.1 == pos
                + enc_opt_transform(match p.0 { Some(t) => Some(t@), None => None }).len()
            && (p.0 matches Some(t) ==> t@.function.principal.len() <= MAX_PRINCIPAL_LEN),
        forall|o: Option<TransformModel>|
            (o matches Some(t) ==> t.function.principal.len() <= MAX_PRINCIPAL_LEN)
            && bytes_at(bytes@, pos as int, enc_opt_transform(o))
            ==> (r matches Some(p)
                && (match p.0 { Some(t) => Some(t@), None => None::<TransformModel> }) == o),
{
    proof {
        assert forall|o: Option<TransformModel>|
            bytes_at(bytes@, pos as int, enc_opt_transform(o))
            implies pos < bytes@.len() && bytes@[pos as int] == enc_opt_transform(o)[0]
                && (o is Some ==> enc_opt_transform(o)[0] == 1)
                && (o is None ==> enc_opt_transform(o)[0] == 0) by {
            assert(bytes@.subrange(pos as int, pos + enc_opt_transform(o).len() as int)[0]
                == bytes@[pos as int]);
            if o is Some {
                assert(enc_opt_transform(o) == seq![1u8] + enc_transform(o->Some_0));
            }
        }
    }
    if pos >= bytes.len() {
        return None;
    }
    let b = bytes[pos];
    if b == 0 {
        proof {
            assert(bytes@.subrange(pos as int, pos + 1) =~= enc_opt_transform(None));
        }
        Some((None, pos + 1))
    } else if b == 1 {
        proof {
            assert forall|o: Option<TransformModel>|
                bytes_at(bytes@, pos as int, enc_opt_transform(o))
                implies o matches Some(t)
                    && bytes_at(bytes@, (pos + 1) as int, enc_transform(t)) by {
                if o is Some {
                    lemma_bytes_at_split(bytes@, pos as int, seq![1u8],
                        enc_transform(o->Some_0));
                }
            }
        }
        match dec_transform(bytes, pos + 1) {
            None => {
                proof {
                    assert forall|o: Option<TransformModel>|
                        !((o matches Some(t)
                            ==> t.function.principal.len() <= MAX_PRINCIPAL_LEN)
                            && bytes_at(bytes@, pos as int, enc_opt_transform(o))) by {
                        if bytes_at(bytes@, pos as int, enc_opt_transform(o)) {
                            assert(bytes_at(bytes@, (pos + 1) as int,
                                enc_transform(o->Some_0)));
                        }
                    }
                }
                None
            },
            Some((v, end)) => {
                proof {
                    assert(bytes@.subrange(pos as int, pos + 1) =~= seq![1u8]);
                    lemma_bytes_at_join(bytes@, pos as int, seq![1u8], enc_transform(v@));
                    assert(seq![1u8] + enc_transform(v@) == enc_opt_transform(Some(v@)));
                    assert forall|o: Option<TransformModel>|
                        (o matches Some(t)
                            ==> t.function.principal.len() <= MAX_PRINCIPAL_LEN)
                            && bytes_at(bytes@, pos as int, enc_opt_transform(o))
                        implies o == Some(v@) by {
                        if o is Some {
                            assert(bytes_at(bytes@, (pos + 1) as int,
                                enc_transform(o->Some_0)));
                        }
                    }
                }
                Some((Some(v), end))
            },
        }
    } else {
        proof {
            assert forall|o: Option<TransformModel>|
                !bytes_at(bytes@, pos as int, enc_opt_transform(o)) by {
                if bytes_at(bytes@, pos as int, enc_opt_transform(o)) {
                    assert(bytes@[pos as int] == enc_opt_transform(o)[0]);
                }
            }
        }
        None
    }
}

/// Reads one header record at `pos`.
fn dec_header(bytes: &Vec<u8>, pos: usize) -> (r: Option<(HttpHeader, usize)>)
    requires
        pos <= bytes@.len(),
    ensures
        r matches Some(p) ==> pos < p.1 <= bytes@.len()
            && bytes_at(bytes@, pos as int, enc_header(p.0@))
            && p.1 == pos + enc_header(p.0@).len(),
        forall|h: HeaderModel| bytes_at(bytes@, pos as int, enc_header(h))
            ==> (r matches Some(p) && p.0@ == h),
{
    proof {
        assert forall|h: HeaderModel| bytes_at(bytes@, pos as int, enc_header(h))
            implies bytes_at(bytes@, pos as int, enc_text(h.value))
                && bytes_at(bytes@, pos as int + enc_text(h.value).len(),
                    enc_text(h.name)) by {
            lemma_bytes_at_split(bytes@, pos as int, enc_text(h.value), enc_text(h.name));
        }
    }
    match dec_text(bytes, pos) {
        None => {
            proof {
                assert forall|h: HeaderModel| !bytes_at(bytes@, pos as int, enc_header(h)) by {
                    if bytes_at(bytes@, pos as int, enc_header(h)) {
                        assert(bytes_at(bytes@, pos as int, enc_text(h.value)));
                    }
                }
            }
            None
        },
        Some((value, p1)) => {
            proof {
                assert forall|h: HeaderModel| bytes_at(bytes@, pos as int, enc_header(h))
                    implies value@ == h.value
                        && bytes_at(bytes@, p1 as int, enc_text(h.name)) by {
                    assert(bytes_at(bytes@, pos as int, enc_text(h.value)));
                }
            }
            match dec_text(bytes, p1) {
                None => {
                    proof {
                        assert forall|h: HeaderModel|
                            !bytes_at(bytes@, pos as int, enc_header(h)) by {
                            if bytes_at(bytes@, pos as int, enc_header(h)) {
                                assert(bytes_at(bytes@, p1 as int, enc_text(h.name)));
                            }
                        }
                    }
                    None
                },
                Some((name, end)) => {
                    let h = HttpHeader { name, value };
                    proof {
                        lemma_bytes_at_join(bytes@, pos as int, enc_text(h.value@),
                            enc_text(h.name@));
                        assert(enc_text(h.value@) + enc_text(h.name@) == enc_header(h@));
                    }
                    Some((h, end))
                },
            }
        },
    }
}

/// The byte form of a header sequence splits where the sequence splits.
proof fn lemma_enc_header_seq_app(a: Seq<HeaderModel>, b: Seq<HeaderModel>)
    ensures
        enc_header_seq(a + b) == enc_header_seq(a) + enc_header_seq(b),
    decreases a.len(),
{
    if a.len() == 0 {
        assert(a + b =~= b);
        assert(enc_header_seq(a) == Seq::<u8>::empty());
        assert(Seq::<u8>::empty() + enc_header_seq(b) =~= enc_header_seq(b));
    } else {
        assert((a + b).len() > 0);
        assert((a + b)[0] == a[0]);
        assert((a + b).drop_first() =~= a.drop_first() + b);
        lemma_enc_header_seq_app(a.drop_first(), b);
        assert(enc_header_seq(a + b)
            == enc_header(a[0]) + (enc_header_seq(a.drop_first()) + enc_header_seq(b)));
        assert(enc_header(a[0]) + (enc_header_seq(a.drop_first()) + enc_header_seq(b))
            =~= (enc_header(a[0]) + enc_header_seq(a.drop_first())) + enc_header_seq(b));
    }
}

/// A header list never encodes to fewer bytes than it has headers.
proof fn lemma_enc_header_seq_len_ge(hs: Seq<HeaderModel>)
    ensures
        enc_header_seq(hs).len() >= hs.len(),
    decreases hs.len(),
{
    if hs.len() > 0 {
        lemma_enc_header_seq_len_ge(hs.drop_first());
        assert(enc_header(hs[0]).len() >= 1);
    }
}

/// Reads a header list value at `pos`.
#[verifier::rlimit(100)]
fn dec_headers(bytes: &Vec<u8>, pos: usize) -> (r: Option<(Vec<HttpHeader>, usize)>)
    requires
        pos <= bytes@.len(),
    ensures
        r matches Some(p) ==> pos <= p.1 <= bytes@.len()
            && bytes_at(bytes@, pos as int,
                enc_headers(p.0@.map_values(|h: HttpHeader| h@)))
            && p.1 == pos + enc_headers(p.0@.map_values(|h: HttpHeader| h@)).len(),
        forall|hs: Seq<HeaderModel>| bytes_at(bytes@, pos as int, enc_headers(hs))
            ==> (r matches Some(p) && p.0@.map_values(|h: HttpHeader| h@) == hs),
{
    let blen = bytes.len();
    proof {
        assert forall|hs: Seq<HeaderModel>| bytes_at(bytes@, pos as int, enc_headers(hs))
            implies leb_at(bytes@, pos as int, hs.len()) && hs.len() <= blen by {
            lemma_bytes_at_split(bytes@, pos as int, spec_leb(hs.len()), enc_header_seq(hs));
            lemma_enc_header_seq_len_ge(hs);
        }
    }
    match leb_decode(bytes, pos) {
        None => {
            proof {
                assert forall|hs: Seq<HeaderModel>| !bytes_at(bytes@, pos as int, enc_headers(hs))
                    by {
                    if bytes_at(bytes@, pos as int, enc_headers(hs)) {
                        let n0 = hs.len() as u128;
                        assert(n0 as nat == hs.len());
                        assert(leb_at(bytes@, pos as int, n0 as nat));
                    }
                }
            }
            None
        },
        Some((n, p1)) => {
            proof {
                assert forall|hs: Seq<HeaderModel>| bytes_at(bytes@, pos as int, enc_headers(hs))
                    implies n as nat == hs.len()
                        && bytes_at(bytes@, p1 as int, enc_header_seq(hs)) by {
                    let n0 = hs.len() as u128;
                    assert(n0 as nat == hs.len());
                    assert(leb_at(bytes@, pos as int, n0 as nat));
                    lemma_bytes_at_split(bytes@, pos as int, spec_leb(hs.len()),
                        enc_header_seq(hs));
                }
            }
            let mut acc: Vec<HttpHeader> = Vec::new();
            let mut cur: usize = p1;
            let mut i: u128 = 0;
            proof {
                assert(acc@.map_values(|h: HttpHeader| h@)
                    =~= Seq::<HeaderModel>::empty());
                assert(bytes@.subrange(p1 as int, p1 as int)
                    =~= Seq::<u8>::empty());
                assert(enc_header_seq(acc@.map_values(|h: HttpHeader| h@))
                    == Seq::<u8>::empty());
            }
            while i < n
                invariant
                    bytes@.len() == blen,
                    i <= n,
                    p1 <= cur <= blen,
                    acc@.len() == i,
                    bytes_at(bytes@, p1 as int,
                        enc_header_seq(acc@.map_values(|h: HttpHeader| h@))),
                    cur == p1 + enc_header_seq(acc@.map_values(|h: HttpHeader| h@)).len(),
                    bytes@.subrange(pos as int, p1 as int) == spec_leb(n as nat),
                    pos + spec_leb(n as nat).len() == p1,
                    forall|hs: Seq<HeaderModel>|
                        bytes_at(bytes@, pos as int, enc_headers(hs))
                        ==> n as nat == hs.len()
                            && bytes_at(bytes@, p1 as int, enc_header_seq(hs))
                            && hs.take(i as int) == acc@.map_values(|h: HttpHeader| h@),
                decreases n - i,
            {
                let ghost macc = acc@.map_values(|h: HttpHeader| h@);
                proof {
                    assert forall|hs: Seq<HeaderModel>|
                        bytes_at(bytes@, pos as int, enc_headers(hs))
                        implies bytes_at(bytes@, cur as int, enc_header(hs[i as int])) by {
                        assert(hs.take(i as int) =~= macc);
                        assert(hs =~= hs.take(i as int) + hs.skip(i as int));
                        lemma_enc_header_seq_app(hs.take(i as int), hs.skip(i as int));
                        lemma_bytes_at_split(bytes@, p1 as int,
                            enc_header_seq(hs.take(i as int)),
                            enc_header_seq(hs.skip(i as int)));
                        let sk = hs.skip(i as int);
                        assert(sk.len() > 0);
                        assert(sk[0] == hs[i as int]);
                        assert(enc_header_seq(sk)
                            == enc_header(sk[0]) + enc_header_seq(sk.drop_first()));
                        lemma_bytes_at_split(bytes@, cur as int, enc_header(sk[0]),
                            enc_header_seq(sk.drop_first()));
                    }
                }
                match dec_header(bytes, cur) {
                    None => {
                        proof {
                            assert forall|hs: Seq<HeaderModel>|
                                !bytes_at(bytes@, pos as int, enc_headers(hs)) by {
                                if bytes_at(bytes@, pos as int, enc_headers(hs)) {
                                    assert(bytes_at(bytes@, cur as int,
                                        enc_header(hs[i as int])));
                                }
                            }
                        }
                        return None;
                    },
                    Some((h, end)) => {
                        proof {
                            lemma_enc_header_seq_push(macc, h@);
                            assert(acc@.push(h).map_values(|x: HttpHeader| x@)
                                =~= macc.push(h@));
                            lemma_bytes_at_join(bytes@, p1 as int, enc_header_seq(macc),
                                enc_header(h@));
                            assert forall|hs: Seq<HeaderModel>|
                                bytes_at(bytes@, pos as int, enc_headers(hs))
                                implies hs.take(i as int + 1) == macc.push(h@) by {
                                assert(bytes_at(bytes@, cur as int, enc_header(hs[i as int])));
                                assert(h@ == hs[i as int]);
                                assert(hs.take(i as int + 1)
                                    =~= hs.take(i as int).push(hs[i as int]));
                                assert(hs.take(i as int) =~= macc);
                            }
                        }
                        acc.push(h);
                        cur = end;
                        i = i + 1;
                    },
                }
            }
            proof {
                lemma_bytes_at_join(bytes@, pos as int, spec_leb(n as nat),
                    enc_header_seq(acc@.map_values(|h: HttpHeader| h@)));
                assert(spec_leb(n as nat)
                    + enc_header_seq(acc@.map_values(|h: HttpHeader| h@))
                    == enc_headers(acc@.map_values(|h: HttpHeader| h@)));
                assert forall|hs: Seq<HeaderModel>|
                    bytes_at(bytes@, pos as int, enc_headers(hs))
                    implies acc@.map_values(|h: HttpHeader| h@) == hs by {
                    assert(hs.take(i as int) =~= hs);
                }
            }
            Some((acc, cur))
        },
    }
}

/// Decodes a whole response message. Exactly the encodings of response
/// values are accepted, and each decodes to the value that produced it.
#[verifier::rlimit(100)]
pub fn decode_response(bytes: &Vec<u8>) -> (r: Result<HttpResponse, OutcallError>)
    ensures
        r matches Ok(a) ==> bytes@ == enc_response_msg(a@),
        forall|v: ResponseModel| bytes@ == enc_response_msg(v)
            ==> (r matches Ok(a) && a@ == v),
        r matches Err(e) ==> e == OutcallError::DecodingError,
{
    let head = crate::encode::response_head_vec();
    proof {
        assert forall|v: ResponseModel| bytes@ == enc_response_msg(v)
            implies bytes_at(bytes@, 0, response_head())
                && leb_at(bytes@, response_head().len() as int, v.status as nat)
                && bytes_at(bytes@,
                    response_head().len() + spec_leb(v.status as nat).len() as int,
                    enc_blob(v.body))
                && bytes_at(bytes@,
                    response_head().len() + spec_leb(v.status as nat).len()
                        + enc_blob(v.body).len() as int,
                    enc_headers(v.headers)) by {
            assert(bytes@.subrange(0, bytes@.len() as int) =~= bytes@);
            assert(bytes_at(bytes@, 0, response_head() + enc_response_value(v)));
            lemma_bytes_at_split(bytes@, 0, response_head(), enc_response_value(v));
            let hl0 = response_head().len() as int;
            assert(enc_response_value(v)
                =~= spec_leb(v.status as nat) + (enc_blob(v.body) + enc_headers(v.headers)));
            lemma_bytes_at_split(bytes@, hl0, spec_leb(v.status as nat),
                enc_blob(v.body) + enc_headers(v.headers));
            lemma_bytes_at_split(bytes@, hl0 + spec_leb(v.status as nat).len(),
                enc_blob(v.body), enc_headers(v.headers));
        }
    }
    if !has_prefix(bytes, &head) {
        return Err(OutcallError::DecodingError);
    }
    let hl = head.len();
    match leb_decode(bytes, hl) {
        None => {
            proof {
                assert forall|v: ResponseModel| bytes@ != enc_response_msg(v) by {
                    if bytes@ == enc_response_msg(v) {
                        assert(leb_at(bytes@, hl as int, v.status as nat));
                    }
                }
            }
            Err(OutcallError::DecodingError)
        },
        Some((status, p1)) => {
            proof {
                assert forall|v: ResponseModel| bytes@ == enc_response_msg(v)
                    implies status == v.status
                        && bytes_at(bytes@, p1 as int, enc_blob(v.body)) by {
                    assert(leb_at(bytes@, hl as int, v.status as nat));
                }
            }
            match dec_blob(bytes, p1) {
                None => {
                    proof {
                        assert forall|v: ResponseModel| bytes@ != enc_response_msg(v) by {
                            if bytes@ == enc_response_msg(v) {
                                assert(bytes_at(bytes@, p1 as int, enc_blob(v.body)));
                            }
                        }
                    }
                    Err(OutcallError::DecodingError)
                },
                Some((body, p2)) => {
                    proof {
                        assert forall|v: ResponseModel| bytes@ == enc_response_msg(v)
                            implies body@ == v.body
                                && bytes_at(bytes@, p2 as int, enc_headers(v.headers)) by {
                            assert(bytes_at(bytes@, p1 as int, enc_blob(v.body)));
                        }
                    }
                    match dec_headers(bytes, p2) {
                        None => {
                            proof {
                                assert forall|v: ResponseModel| bytes@ != enc_response_msg(v)
                                    by {
                                    if bytes@ == enc_response_msg(v) {
                                        assert(bytes_at(bytes@, p2 as int,
                                            enc_headers(v.headers)));
                                    }
                                }
                            }
                            Err(OutcallError::DecodingError)
                        },
                        Some((headers, p3)) => {
                            if p3 != bytes.len() {
                                proof {
                                    assert forall|v: ResponseModel|
                                        bytes@ != enc_response_msg(v) by {
                                        if bytes@ == enc_response_msg(v) {
                                            assert(bytes_at(bytes@, p2 as int,
                                                enc_headers(v.headers)));
                                            assert(bytes@.len() == response_head().len()
                                                + enc_response_value(v).len());
                                        }
                                    }
                                }
                                Err(OutcallError::DecodingError)
                            } else {
                                let a = HttpResponse { status, headers, body };
                                proof {
                                    lemma_bytes_at_join(bytes@, hl as int,
                                        spec_leb(status as nat), enc_blob(body@));
                                    lemma_bytes_at_join(bytes@, hl as int,
                                        spec_leb(status as nat) + enc_blob(body@),
                                        enc_headers(a@.headers));
                                    lemma_bytes_at_join(bytes@, 0, response_head(),
                                        enc_response_value(a@));
                                    assert(bytes@.subrange(0, bytes@.len() as int) =~= bytes@);
                                    assert(bytes@ == enc_response_msg(a@));
                                }
                                Ok(a)
                            }
                        },
                    }
                },
            }
        },
    }
}

/// Decodes a whole request message. Exactly the encodings of encodable
/// request values are accepted, and each decodes to the value that
/// produced it.
#[verifier::rlimit(100)]
pub fn decode_request(bytes: &Vec<u8>) -> (r: Result<CanisterHttpRequestArgument, OutcallError>)
    ensures
        r matches Ok(a) ==> bytes@ == enc_request_msg(a@) && request_encodable(a@),
        forall|v: RequestModel| request_encodable(v) && bytes@ == enc_request_msg(v)
            ==> (r matches Ok(a) && a@ == v),
        r matches Err(e) ==> e == OutcallError::DecodingError,
{
    let head = crate::encode::request_head_vec();
    proof {
        assert forall|v: RequestModel| bytes@ == enc_request_msg(v)
            implies bytes_at(bytes@, 0, request_head())
                && bytes_at(bytes@, request_head().len() as int, enc_text(v.url))
                && bytes_at(bytes@,
                    request_head().len() + enc_text(v.url).len() as int,
                    enc_method(v.method))
                && bytes_at(bytes@,
                    request_head().len() + enc_text(v.url).len()
                        + enc_method(v.method).len() as int,
                    enc_opt_u64(v.max_response_bytes))
                && bytes_at(bytes@,
                    request_head().len() + enc_text(v.url).len() + enc_method(v.method).len()
                        + enc_opt_u64(v.max_response_bytes).len() as int,
                    enc_opt_blob(v.body))
                && bytes_at(bytes@,
                    request_head().len() + enc_text(v.url).len() + enc_method(v.method).len()
                        + enc_opt_u64(v.max_response_bytes).len()
                        + enc_opt_blob(v.body).len() as int,
                    enc_opt_transform(v.transform))
                && bytes_at(bytes@,
                    request_head().len() + enc_text(v.url).len() + enc_method(v.method).len()
                        + enc_opt_u64(v.max_response_bytes).len() + enc_opt_blob(v.body).len()
                        + enc_opt_transform(v.transform).len() as int,
                    enc_headers(v.headers)) by {
            assert(bytes@.subrange(0, bytes@.len() as int) =~= bytes@);
            assert(bytes_at(bytes@, 0, request_head() + enc_request_value(v)));
            lemma_bytes_at_split(bytes@, 0, request_head(), enc_request_value(v));
            let q0 = request_head().len() as int;
            let wa = enc_text(v.url);
            let wb = enc_method(v.method);
            let wc = enc_opt_u64(v.max_response_bytes);
            let wd = enc_opt_blob(v.body);
            let we = enc_opt_transform(v.transform);
            let wf = enc_headers(v.headers);
            assert(enc_request_value(v) =~= wa + (wb + (wc + (wd + (we + wf)))));
            lemma_bytes_at_split(bytes@, q0, wa, wb + (wc + (wd + (we + wf))));
            lemma_bytes_at_split(bytes@, q0 + wa.len(), wb, wc + (wd + (we + wf)));
            lemma_bytes_at_split(bytes@, q0 + wa.len() + wb.len(), wc, wd + (we + wf));
            lemma_bytes_at_split(bytes@, q0 + wa.len() + wb.len() + wc.len(), wd, we + wf);
            lemma_bytes_at_split(bytes@, q0 + wa.len() + wb.len() + wc.len() + wd.len(),
                we, wf);
        }
    }
    if !has_prefix(bytes, &head) {
        return Err(OutcallError::DecodingError);
    }
    let hl = head.len();
    let url = match dec_text(bytes, hl) {
        None => {
            proof {
                assert forall|v: RequestModel| bytes@ != enc_request_msg(v) by {
                    if bytes@ == enc_request_msg(v) {
                        assert(bytes_at(bytes@, hl as int, enc_text(v.url)));
                    }
                }
            }
            return Err(OutcallError::DecodingError);
        },
        Some(p) => p,
    };
    proof {
        assert forall|v: RequestModel| bytes@ == enc_request_msg(v)
            implies url.0@ == v.url
                && bytes_at(bytes@, url.1 as int, enc_method(v.method)) by {
            assert(bytes_at(bytes@, hl as int, enc_text(v.url)));
        }
    }
    let method = match dec_method(bytes, url.1) {
        None => {
            proof {
                assert forall|v: RequestModel| bytes@ != enc_request_msg(v) by {
                    if bytes@ == enc_request_msg(v) {
                        assert(bytes_at(bytes@, url.1 as int, enc_method(v.method)));
                    }
                }
            }
            return Err(OutcallError::DecodingError);
        },
        Some(p) => p,
    };
    proof {
        assert forall|v: RequestModel| bytes@ == enc_request_msg(v)
            implies method.0 == v.method
                && bytes_at(bytes@, method.1 as int, enc_opt_u64(v.max_response_bytes)) by {
            assert(bytes_at(bytes@, url.1 as int, enc_method(v.method)));
        }
    }
    let mrb = match dec_opt_u64(bytes, method.1) {
        None => {
            proof {
                assert forall|v: RequestModel| bytes@ != enc_request_msg(v) by {
                    if bytes@ == enc_request_msg(v) {
                        assert(bytes_at(bytes@, method.1 as int,
                            enc_opt_u64(v.max_response_bytes)));
                    }
                }
            }
            return Err(OutcallError::DecodingError);
        },
        Some(p) => p,
    };
    proof {
        assert forall|v: RequestModel| bytes@ == enc_request_msg(v)
            implies mrb.0 == v.max_response_bytes
                && bytes_at(bytes@, mrb.1 as int, enc_opt_blob(v.body)) by {
            assert(bytes_at(bytes@, method.1 as int, enc_opt_u64(v.max_response_bytes)));
        }
    }
    let body = match dec_opt_blob(bytes, mrb.1) {
        None => {
            proof {
                assert forall|v: RequestModel| bytes@ != enc_request_msg(v) by {
                    if bytes@ == enc_request_msg(v) {
                        assert(bytes_at(bytes@, mrb.1 as int, enc_opt_blob(v.body)));
                    }
                }
            }
            return Err(OutcallError::DecodingError);
        },
        Some(p) => p,
    };
    proof {
        assert forall|v: RequestModel| bytes@ == enc_request_msg(v)
            implies (match body.0 { Some(b) => Some(b@), None => None::<Seq<u8>> }) == v.body
                && bytes_at(bytes@, body.1 as int, enc_opt_transform(v.transform)) by {
            assert(bytes_at(bytes@, mrb.1 as int, enc_opt_blob(v.body)));
        }
    }
    let transform = match dec_opt_transform(bytes, body.1) {
        None => {
            proof {
                assert forall|v: RequestModel|
                    !(request_encodable(v) && bytes@ == enc_request_msg(v)) by {
                    if request_encodable(v) && bytes@ == enc_request_msg(v) {
                        assert(bytes_at(bytes@, body.1 as int,
                            enc_opt_transform(v.transform)));
                    }
                }
            }
            return Err(OutcallError::DecodingError);
        },
        Some(p) => p,
    };
    proof {
        assert forall|v: RequestModel| request_encodable(v) && bytes@ == enc_request_msg(v)
            implies (match transform.0 {
                Some(t) => Some(t@),
                None => None::<TransformModel>,
            }) == v.transform
                && bytes_at(bytes@, transform.1 as int, enc_headers(v.headers)) by {
            assert(bytes_at(bytes@, body.1 as int, enc_opt_transform(v.transform)));
        }
    }
    let headers = match dec_headers(bytes, transform.1) {
        None => {
            proof {
                assert forall|v: RequestModel|
                    !(request_encodable(v) && bytes@ == enc_request_msg(v)) by {
                    if request_encodable(v) && bytes@ == enc_request_msg(v) {
                        assert(bytes_at(bytes@, transform.1 as int, enc_headers(v.headers)));
                    }
                }
            }
            return Err(OutcallError::DecodingError);
        },
        Some(p) => p,
    };
    if headers.1 != bytes.len() {
        proof {
            assert forall|v: RequestModel|
                !(request_encodable(v) && bytes@ == enc_request_msg(v)) by {
                if request_encodable(v) && bytes@ == enc_request_msg(v) {
                    assert(bytes_at(bytes@, transform.1 as int, enc_headers(v.headers)));
                    assert(bytes@.len() == request_head().len() + enc_request_value(v).len());
                }
            }
        }
        return Err(OutcallError::DecodingError);
    }
    let a = CanisterHttpRequestArgument {
        url: url.0,
        max_response_bytes: mrb.0,
        method: method.0,
        headers: headers.0,
        body: body.0,
        transform: transform.0,
    };
    proof {
        let q0 = hl as int;
        let wa = enc_text(a@.url);
        let wb = enc_method(a@.method);
        let wc = enc_opt_u64(a@.max_response_bytes);
        let wd = enc_opt_blob(a@.body);
        let we = enc_opt_transform(a@.transform);
        let wf = enc_headers(a@.headers);
        lemma_bytes_at_join(bytes@, q0, wa, wb);
        lemma_bytes_at_join(bytes@, q0, wa + wb, wc);
        lemma_bytes_at_join(bytes@, q0, (wa + wb) + wc, wd);
        lemma_bytes_at_join(bytes@, q0, ((wa + wb) + wc) + wd, we);
        lemma_bytes_at_join(bytes@, q0, (((wa + wb) + wc) + wd) + we, wf);
        lemma_bytes_at_join(bytes@, 0, request_head(), enc_request_value(a@));
        assert(bytes@.subrange(0, bytes@.len() as int) =~= bytes@);
        assert(bytes@ == enc_request_msg(a@));
    }
    Ok(a)
}

} // verus!
