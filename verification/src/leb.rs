//! Little-endian byte primitives of the IDL wire form: ULEB128 for
//! unbounded naturals and lengths, and fixed-width little-endian words.

use vstd::prelude::*;

verus! {

/// ULEB128 encoding of a natural number: seven value bits per byte, least
/// significant group first, high bit set on every byte but the last.
pub open spec fn spec_leb(n: nat) -> Seq<u8>
    decreases n,
{
    if n < 128 {
        seq![n as u8]
    } else {
        seq![(128 + n % 128) as u8] + spec_leb(n / 128)
    }
}

/// `spec_leb(n)` stands in `s` at position `pos`.
pub open spec fn leb_at(s: Seq<u8>, pos: int, n: nat) -> bool {
    &&& 0 <= pos
    &&& pos + spec_leb(n).len() <= s.len()
    &&& s.subrange(pos, pos + spec_leb(n).len() as int) == spec_leb(n)
}

/// What a ULEB128 prefix forces on the bytes under it.
proof fn lemma_leb_shape(s: Seq<u8>, pos: int, n: nat)
    requires
        leb_at(s, pos, n),
    ensures
        pos < s.len(),
        n < 128 ==> s[pos] == n as u8,
        n >= 128 ==> s[pos] == (128 + n % 128) as u8 && n / 128 >= 1 && leb_at(s, pos + 1, n / 128),
{
    let e = spec_leb(n);
    assert(s.subrange(pos, pos + e.len() as int)[0] == s[pos]);
    if n >= 128 {
        let tail = spec_leb(n / 128);
        assert(e == seq![(128 + n % 128) as u8] + tail);
        assert(s.subrange(pos + 1, pos + 1 + tail.len() as int) =~= tail) by {
            assert forall|i: int| 0 <= i < tail.len() implies
                s.subrange(pos + 1, pos + 1 + tail.len() as int)[i] == tail[i] by {
                assert(s.subrange(pos, pos + e.len() as int)[i + 1] == e[i + 1]);
            }
        }
    }
}

/// `(a + 128 * m) % 128 == a` and `(a + 128 * m) / 128 == m` for `a < 128`.
proof fn lemma_base128(a: nat, m: nat)
    requires
        a < 128,
    ensures
        (a + 128 * m) % 128 == a,
        (a + 128 * m) / 128 == m,
{
    assert((a + 128 * m) % 128 == a && (a + 128 * m) / 128 == m) by (nonlinear_arith)
        requires a < 128;
}

/// Strict ULEB128 decoder: accepts exactly the encodings `spec_leb` produces
/// for values that fit in 128 bits, and nothing else.
pub fn leb_decode(bytes: &Vec<u8>, pos: usize) -> (r: Option<(u128, usize)>)
    requires
        pos <= bytes@.len(),
    ensures
        (r matches Some(p) ==> pos < p.1 <= bytes@.len()
            && bytes@.subrange(pos as int, p.1 as int) == spec_leb(p.0 as nat)),
        (r is None ==> forall|n: u128| !leb_at(bytes@, pos as int, n as nat)),
        forall|n: u128| leb_at(bytes@, pos as int, n as nat)
            ==> (r matches Some(p) && p.0 == n && p.1 == pos + spec_leb(n as nat).len()),
    decreases bytes@.len() - pos as nat,
{
    if pos >= bytes.len() {
        assert forall|n: u128| !leb_at(bytes@, pos as int, n as nat) by {
            if leb_at(bytes@, pos as int, n as nat) {
                lemma_leb_shape(bytes@, pos as int, n as nat);
            }
        }
        return None;
    }
    let b = bytes[pos];
    if b < 128 {
        proof {
            assert(bytes@.subrange(pos as int, pos + 1) =~= spec_leb(b as nat));
            assert forall|n: u128| leb_at(bytes@, pos as int, n as nat) implies
                n == b as u128 && pos + spec_leb(n as nat).len() == pos + 1 by {
                lemma_leb_shape(bytes@, pos as int, n as nat);
            }
        }
        Some((b as u128, pos + 1))
    } else {
        let rec = leb_decode(bytes, pos + 1);
        proof {
            assert forall|n: u128| leb_at(bytes@, pos as int, n as nat) implies
                n >= 128 && bytes@[pos as int] == (128 + (n as nat) % 128) as u8
                && leb_at(bytes@, pos as int + 1, (n as nat) / 128) by {
                lemma_leb_shape(bytes@, pos as int, n as nat);
                if (n as nat) < 128 {
                    assert(bytes@[pos as int] == n as u8);
                    assert(b >= 128);
                }
            }
        }
        match rec {
            None => {
                proof {
                    assert forall|n: u128| !leb_at(bytes@, pos as int, n as nat) by {
                        if leb_at(bytes@, pos as int, n as nat) {
                            assert((n as nat) / 128 <= n as nat);
                            assert(!leb_at(bytes@, pos as int + 1, ((n / 128) as u128) as nat));
                        }
                    }
                }
                None
            },
            Some((m, end)) => {
                if m == 0 {
                    proof {
                        assert forall|n: u128| !leb_at(bytes@, pos as int, n as nat) by {
                            if leb_at(bytes@, pos as int, n as nat) {
                                lemma_leb_shape(bytes@, pos as int, n as nat);
                                assert((n / 128) as u128 == (n as nat) / 128);
                                assert(m == (n / 128) as u128);
                            }
                        }
                    }
                    None
                } else if m <= (u128::MAX - 127) / 128 {
                    let v = (b - 128) as u128 + 128 * m;
                    proof {
                        lemma_base128((b - 128) as nat, m as nat);
                        assert(v as nat >= 128);
                        assert(spec_leb(v as nat)
                            == seq![(128 + (v as nat) % 128) as u8] + spec_leb((v as nat) / 128));
                        assert(bytes@.subrange(pos as int, end as int)
                            =~= seq![b] + bytes@.subrange(pos as int + 1, end as int));
                        assert(bytes@.subrange(pos as int, end as int) == spec_leb(v as nat));
                        assert forall|n: u128| leb_at(bytes@, pos as int, n as nat) implies
                            n == v && pos + spec_leb(n as nat).len() == end by {
                            lemma_leb_shape(bytes@, pos as int, n as nat);
                            assert((n / 128) as u128 == (n as nat) / 128);
                            assert(m == (n / 128) as u128);
                            assert(n as nat == 128 * ((n as nat) / 128) + (n as nat) % 128);
                        }
                    }
                    Some((v, end))
                } else {
                    proof {
                        assert forall|n: u128| !leb_at(bytes@, pos as int, n as nat) by {
                            if leb_at(bytes@, pos as int, n as nat) {
                                lemma_leb_shape(bytes@, pos as int, n as nat);
                                assert((n / 128) as u128 == (n as nat) / 128);
                                assert(m == (n / 128) as u128);
                                assert(n as nat == 128 * ((n as nat) / 128) + (n as nat) % 128);
                                assert(128 * (m as nat) <= n as nat);
                                assert(m as nat > ((u128::MAX - 127) / 128) as nat);
                            }
                        }
                    }
                    None
                }
            },
        }
    }
}

/// Appends the ULEB128 encoding of `n` to `buf`.
pub fn leb_encode(buf: &mut Vec<u8>, n: u128)
    ensures
        final(buf)@ == old(buf)@ + spec_leb(n as nat),
    decreases n,
{
    if n < 128 {
        buf.push(n as u8);
        assert(buf@ =~= old(buf)@ + spec_leb(n as nat));
    } else {
        let b = (128 + n % 128) as u8;
        buf.push(b);
        leb_encode(buf, n / 128);
        proof {
            assert((n / 128) as nat == (n as nat) / 128);
            assert((n % 128) as nat == (n as nat) % 128);
            assert(buf@ =~= old(buf)@ + spec_leb(n as nat));
        }
    }
}

/// `k`-byte little-endian encoding of `n` (only defined up to `n < 256^k`).
pub open spec fn spec_le_bytes(n: nat, k: nat) -> Seq<u8>
    decreases k,
{
    if k == 0 {
        Seq::empty()
    } else {
        seq![(n % 256) as u8] + spec_le_bytes(n / 256, (k - 1) as nat)
    }
}

/// `256^k`.
pub open spec fn pow256(k: nat) -> nat
    decreases k,
{
    if k == 0 { 1 } else { 256 * pow256((k - 1) as nat) }
}

/// `(a + 256 * m) % 256 == a` and `(a + 256 * m) / 256 == m` for `a < 256`.
proof fn lemma_base256(a: nat, m: nat)
    requires
        a < 256,
    ensures
        (a + 256 * m) % 256 == a,
        (a + 256 * m) / 256 == m,
{
    assert((a + 256 * m) % 256 == a && (a + 256 * m) / 256 == m) by (nonlinear_arith)
        requires a < 256;
}

/// Appends the `k`-byte little-endian encoding of `n` to `buf`.
pub fn le_encode(buf: &mut Vec<u8>, n: u64, k: usize)
    requires
        (n as nat) < pow256(k as nat),
    ensures
        final(buf)@ == old(buf)@ + spec_le_bytes(n as nat, k as nat),
    decreases k,
{
    if k == 0 {
        assert(buf@ =~= old(buf)@ + spec_le_bytes(n as nat, 0));
    } else {
        buf.push((n % 256) as u8);
        proof {
            assert((n / 256) as nat == (n as nat) / 256);
            assert(pow256(k as nat) == 256 * pow256((k - 1) as nat));
            assert((n as nat) / 256 < pow256((k - 1) as nat)) by (nonlinear_arith)
                requires (n as nat) < 256 * pow256((k - 1) as nat);
        }
        le_encode(buf, n / 256, k - 1);
        proof {
            assert((n % 256) as nat == (n as nat) % 256);
            assert(buf@ =~= old(buf)@ + spec_le_bytes(n as nat, k as nat));
        }
    }
}

/// Reads the `k`-byte little-endian word at `pos`; fails only when fewer
/// than `k` bytes remain.
pub fn le_decode(bytes: &Vec<u8>, pos: usize, k: usize) -> (r: Option<(u64, usize)>)
    requires
        pos <= bytes@.len(),
        k <= 8,
    ensures
        (r matches Some(p) ==> p.1 == pos + k && p.1 <= bytes@.len()
            && (p.0 as nat) < pow256(k as nat)
            && bytes@.subrange(pos as int, p.1 as int) == spec_le_bytes(p.0 as nat, k as nat)),
        (r is None ==> pos + k > bytes@.len()),
        forall|v: nat| v < pow256(k as nat) && pos + k <= bytes@.len()
            && bytes@.subrange(pos as int, (pos + k) as int) == spec_le_bytes(v, k as nat)
            ==> (r matches Some(p) && p.0 as nat == v),
    decreases k,
{
    if k == 0 {
        proof {
            assert(bytes@.subrange(pos as int, pos as int) =~= spec_le_bytes(0, 0));
        }
        Some((0u64, pos))
    } else if pos >= bytes.len() {
        None
    } else {
        let b = bytes[pos];
        match le_decode(bytes, pos + 1, k - 1) {
            None => None,
            Some((m, end)) => {
                proof {
                    assert(pow256((k - 1) as nat) <= pow256(7)) by {
                        lemma_pow256_mono((k - 1) as nat, 7);
                    }
                    assert(pow256(0) == 1);
                    assert(pow256(1) == 256);
                    assert(pow256(2) == 0x10000);
                    assert(pow256(3) == 0x1000000);
                    assert(pow256(4) == 0x100000000);
                    assert(pow256(5) == 0x10000000000);
                    assert(pow256(6) == 0x1000000000000);
                    assert(pow256(7) == 0x100000000000000);
                }
                let v = b as u64 + 256 * m;
                proof {
                    lemma_base256(b as nat, m as nat);
                    assert((v as nat) < pow256(k as nat)) by (nonlinear_arith)
                        requires
                            v as nat == b as nat + 256 * (m as nat),
                            b < 256,
                            (m as nat) < pow256((k - 1) as nat),
                            pow256(k as nat) == 256 * pow256((k - 1) as nat);
                    assert(bytes@.subrange(pos as int, end as int)
                        =~= seq![b] + bytes@.subrange(pos as int + 1, end as int));
                    assert(bytes@.subrange(pos as int, end as int)
                        == spec_le_bytes(v as nat, k as nat));
                    assert forall|w: nat| w < pow256(k as nat) && pos + k <= bytes@.len()
                        && bytes@.subrange(pos as int, (pos + k) as int) == spec_le_bytes(w, k as nat)
                        implies w == v as nat by {
                        let tail = spec_le_bytes(w / 256, (k - 1) as nat);
                        assert(spec_le_bytes(w, k as nat) == seq![(w % 256) as u8] + tail);
                        assert(bytes@.subrange(pos as int, (pos + k) as int)[0] == bytes@[pos as int]);
                        assert((w % 256) as u8 == b);
                        assert(bytes@.subrange(pos as int + 1, (pos + k) as int) =~= tail) by {
                            assert forall|i: int| 0 <= i < tail.len() implies
                                bytes@.subrange(pos as int + 1, (pos + k) as int)[i] == tail[i] by {
                                assert(bytes@.subrange(pos as int, (pos + k) as int)[i + 1]
                                    == spec_le_bytes(w, k as nat)[i + 1]);
                            }
                        }
                        assert(w / 256 < pow256((k - 1) as nat)) by (nonlinear_arith)
                            requires w < 256 * pow256((k - 1) as nat);
                        assert(m as nat == w / 256);
                        assert(w == 256 * (w / 256) + w % 256);
                    }
                }
                Some((v, end))
            },
        }
    }
}

/// A `k`-byte word encodes to `k` bytes.
pub proof fn lemma_le_bytes_len(n: nat, k: nat)
    ensures
        spec_le_bytes(n, k).len() == k,
    decreases k,
{
    if k > 0 {
        lemma_le_bytes_len(n / 256, (k - 1) as nat);
    }
}

/// `256^8` covers every `u64`.
pub proof fn lemma_pow256_8()
    ensures
        pow256(8) == 0x10000000000000000,
{
    assert(pow256(0) == 1);
    assert(pow256(1) == 256);
    assert(pow256(2) == 0x10000);
    assert(pow256(3) == 0x1000000);
    assert(pow256(4) == 0x100000000);
    assert(pow256(5) == 0x10000000000);
    assert(pow256(6) == 0x1000000000000);
    assert(pow256(7) == 0x100000000000000);
    assert(pow256(8) == 0x10000000000000000);
}

/// `pow256` is monotonic.
proof fn lemma_pow256_mono(a: nat, b: nat)
    requires
        a <= b,
    ensures
        pow256(a) <= pow256(b),
    decreases b,
{
    if a < b {
        lemma_pow256_mono(a, (b - 1) as nat);
        assert(pow256(b) == 256 * pow256((b - 1) as nat));
        assert(pow256((b - 1) as nat) <= 256 * pow256((b - 1) as nat)) by (nonlinear_arith)
            requires pow256((b - 1) as nat) >= 0;
    }
}

} // verus!
