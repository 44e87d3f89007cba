//! CRC-8 integrity check over the generator polynomial
//! `x^8 + x^2 + x + 1`, computed MSB-first per byte and carried as
//! eight individual bits behind the payload bits.

use vstd::prelude::*;

verus! {

use crate::bits::bits_of_bytes;
use crate::bits::byte_bit;
use crate::bits::chunk_at;
use crate::bits::pack_chunk;
use crate::bits::packed_seq;
use crate::bits::encode_bits;
use crate::bits::pack_one_chunk;

/// Generator polynomial of the checksum, `x^8 + x^2 + x + 1`.
pub const CRC8_POLY: u8 = 0x07;

/// One shift-and-reduce round of the checksum register.
pub open spec fn crc8_round(crc: u8) -> u8 {
    if crc & 0x80 != 0 {
        (crc << 1) ^ CRC8_POLY
    } else {
        crc << 1
    }
}

/// `k` shift-and-reduce rounds.
pub open spec fn crc8_rounds(crc: u8, k: nat) -> u8
    decreases k,
{
    if k == 0 {
        crc
    } else {
        crc8_round(crc8_rounds(crc, (k - 1) as nat))
    }
}

/// The checksum of a byte sequence: each byte is folded into the
/// register, followed by eight rounds.
pub open spec fn crc8_spec(data: Seq<u8>) -> u8
    decreases data.len(),
{
    if data.len() == 0 {
        0u8
    } else {
        crc8_rounds(crc8_spec(data.drop_last()) ^ data.last(), 8)
    }
}

/// Computes the CRC-8 checksum of a byte sequence.
pub fn crc8(data: &[u8]) -> (crc: u8)
    ensures
        crc == crc8_spec(data@),
{
    let n: usize = data.len();
    let mut crc: u8 = 0;
    let mut i: usize = 0;
    while i < n
        invariant
            i <= n,
            n == data@.len(),
            crc == crc8_spec(data@.subrange(0, i as int)),
        decreases n - i,
    {
        let ghost prev = data@.subrange(0, i as int);
        crc = crc ^ data[i];
        let mut j: usize = 0;
        while j < 8
            invariant
                j <= 8,
                crc == crc8_rounds(crc8_spec(prev) ^ data@[i as int], j as nat),
            decreases 8 - j,
        {
            if crc & 0x80 != 0 {
                crc = (crc << 1u8) ^ CRC8_POLY;
            } else {
                crc = crc << 1u8;
            }
            j += 1;
        }
        proof {
            let cur = data@.subrange(0, i + 1);
            assert(cur.drop_last() =~= prev);
            assert(cur.last() == data@[i as int]);
        }
        i += 1;
    }
    proof {
        assert(data@.subrange(0, n as int) =~= data@);
    }
    crc
}

/// The eight checksum bits, most significant first.
pub open spec fn crc_bit_seq(crc: u8) -> Seq<u8> {
    Seq::new(8, |j: int| byte_bit(crc, j))
}

/// What `encode_with_crc` returns: the payload bits followed by the
/// checksum bits.
pub open spec fn encode_with_crc_spec(data: Seq<u8>) -> Seq<u8> {
    bits_of_bytes(data) + crc_bit_seq(crc8_spec(data))
}

/// Expands the payload into bits and appends its CRC-8 checksum as
/// eight further bits.
pub fn encode_with_crc(data: &[u8]) -> (r: Vec<u8>)
    requires
        data@.len() * 8 + 8 <= usize::MAX,
    ensures
        r@ == encode_with_crc_spec(data@),
{
    let mut r: Vec<u8> = encode_bits(data);
    let crc: u8 = crc8(data);
    let mut j: usize = 0;
    while j < 8
        invariant
            j <= 8,
            crc == crc8_spec(data@),
            r@ == bits_of_bytes(data@) + crc_bit_seq(crc).subrange(0, j as int),
        decreases 8 - j,
    {
        let ghost prev = r@;
        r.push((crc >> ((7 - j) as u8)) & 1);
        proof {
            assert(r@ =~= bits_of_bytes(data@) + crc_bit_seq(crc).subrange(0, j + 1));
        }
        j += 1;
    }
    proof {
        assert(crc_bit_seq(crc).subrange(0, 8) =~= crc_bit_seq(crc));
    }
    r
}

/// What `verify_crc` checks: the trailing eight entries, packed into
/// a byte, must equal the checksum of the leading entries packed into
/// bytes.  Inputs shorter than the checksum itself never pass.
pub open spec fn verify_crc_spec(s: Seq<u8>) -> bool {
    if s.len() < 8 {
        false
    } else {
        let data_len = s.len() - 8;
        crc8_spec(packed_seq(s.subrange(0, data_len as int))) == pack_chunk(
            s.subrange(data_len as int, s.len() as int),
        )
    }
}

/// Recomputes the checksum over the leading bits of a bit sequence
/// and compares it against the trailing eight checksum bits.
pub fn verify_crc(data_with_crc: &[u8]) -> (ok: bool)
    ensures
        ok == verify_crc_spec(data_with_crc@),
{
    let n: usize = data_with_crc.len();
    if n < 8 {
        return false;
    }
    let data_len: usize = n - 8;
    // Pack the leading bit entries into bytes.
    let mut leading: Vec<u8> = Vec::new();
    let mut i: usize = 0;
    while i < data_len
        invariant
            i <= data_len,
            data_len + 8 == n,
            n == data_with_crc@.len(),
            leading@ == data_with_crc@.subrange(0, i as int),
        decreases data_len - i,
    {
        leading.push(data_with_crc[i]);
        proof {
            assert(leading@ =~= data_with_crc@.subrange(0, i + 1));
        }
        i += 1;
    }
    let data_bytes: Vec<u8> = crate::bits::pack_bits(leading.as_slice());
    let computed_crc: u8 = crc8(data_bytes.as_slice());
    let received_crc: u8 = pack_one_chunk(data_with_crc, data_len, 8);
    proof {
        assert(data_with_crc@.subrange(data_len as int, n as int) == data_with_crc@.subrange(
            data_len as int,
            data_len + 8,
        ));
    }
    computed_crc == received_crc
}

/// Packing the eight expansion bits of a byte gives back the byte.
pub proof fn lemma_pack_chunk_of_byte_bits(b: u8, s: Seq<u8>)
    requires
        s.len() == 8,
        forall|j: int| 0 <= j < 8 ==> s[j] == byte_bit(b, j),
    ensures
        pack_chunk(s) == b,
{
    reveal_with_fuel(pack_chunk, 9);
    assert(s.drop_last().drop_last().drop_last().drop_last().drop_last().drop_last().drop_last().drop_last().len() == 0);
    let p1 = (b >> 7u8) & 1;
    let p2 = (b >> 6u8) & 1;
    let p3 = (b >> 5u8) & 1;
    let p4 = (b >> 4u8) & 1;
    let p5 = (b >> 3u8) & 1;
    let p6 = (b >> 2u8) & 1;
    let p7 = (b >> 1u8) & 1;
    let p8 = (b >> 0u8) & 1;
    assert(((((((((0u8 | (p1 << 7u8)) | (p2 << 6u8)) | (p3 << 5u8)) | (p4 << 4u8)) | (p5 << 3u8))
        | (p6 << 2u8)) | (p7 << 1u8)) | (p8 << 0u8)) == b) by (bit_vector)
        requires
            p1 == (b >> 7u8) & 1,
            p2 == (b >> 6u8) & 1,
            p3 == (b >> 5u8) & 1,
            p4 == (b >> 4u8) & 1,
            p5 == (b >> 3u8) & 1,
            p6 == (b >> 2u8) & 1,
            p7 == (b >> 1u8) & 1,
            p8 == (b >> 0u8) & 1,
    ;
}

/// Packing the MSB-first expansion of a byte sequence gives back the
/// original bytes.
pub proof fn lemma_packed_of_bits(data: Seq<u8>)
    ensures
        packed_seq(bits_of_bytes(data)) == data,
{
    let bits = bits_of_bytes(data);
    assert(packed_seq(bits).len() == data.len()) by (nonlinear_arith)
        requires
            packed_seq(bits).len() == (data.len() * 8 + 7) / 8,
    ;
    assert forall|t: int| 0 <= t < data.len() implies packed_seq(bits)[t] == data[t] by {
        let chunk = chunk_at(bits, t);
        assert(8 * t + 8 <= bits.len()) by (nonlinear_arith)
            requires
                0 <= t < data.len(),
                bits.len() == data.len() * 8,
        ;
        assert(chunk.len() == 8);
        assert forall|j: int| 0 <= j < 8 implies chunk[j] == byte_bit(data[t], j) by {
            let p = 8 * t + j;
            assert(p / 8 == t && p % 8 == j) by (nonlinear_arith)
                requires
                    p == 8 * t + j,
                    0 <= j < 8,
                    0 <= t,
            ;
            assert(chunk[j] == bits[p]);
        }
        lemma_pack_chunk_of_byte_bits(data[t], chunk);
    }
    assert(packed_seq(bits) =~= data);
}

/// One shift-and-reduce round respects XOR.
proof fn lemma_round_linear(a: u8, b: u8)
    ensures
        crc8_round(a ^ b) == crc8_round(a) ^ crc8_round(b),
{
    assert((if (a ^ b) & 0x80 != 0 {
        ((a ^ b) << 1u8) ^ 0x07u8
    } else {
        (a ^ b) << 1u8
    }) == (if a & 0x80 != 0 {
        (a << 1u8) ^ 0x07u8
    } else {
        a << 1u8
    }) ^ (if b & 0x80 != 0 {
        (b << 1u8) ^ 0x07u8
    } else {
        b << 1u8
    })) by (bit_vector);
}

/// One round maps only zero to zero.
proof fn lemma_round_nonzero(a: u8)
    requires
        a != 0,
    ensures
        crc8_round(a) != 0,
{
    assert(a != 0 ==> (if a & 0x80 != 0 {
        (a << 1u8) ^ 0x07u8
    } else {
        a << 1u8
    }) != 0) by (bit_vector);
}

/// `k` rounds respect XOR.
proof fn lemma_rounds_linear(a: u8, b: u8, k: nat)
    ensures
        crc8_rounds(a ^ b, k) == crc8_rounds(a, k) ^ crc8_rounds(b, k),
    decreases k,
{
    if k > 0 {
        lemma_rounds_linear(a, b, (k - 1) as nat);
        lemma_round_linear(crc8_rounds(a, (k - 1) as nat), crc8_rounds(b, (k - 1) as nat));
    }
}

/// `k` rounds map only zero to zero.
proof fn lemma_rounds_nonzero(a: u8, k: nat)
    requires
        a != 0,
    ensures
        crc8_rounds(a, k) != 0,
    decreases k,
{
    if k > 0 {
        lemma_rounds_nonzero(a, (k - 1) as nat);
        lemma_round_nonzero(crc8_rounds(a, (k - 1) as nat));
    }
}

/// The byte-wise XOR of two equal-length sequences.
pub open spec fn xor_seq(d1: Seq<u8>, d2: Seq<u8>) -> Seq<u8> {
    Seq::new(d1.len(), |i: int| d1[i] ^ d2[i])
}

/// Rounds leave a zero register at zero.
proof fn lemma_rounds_zero(k: nat)
    ensures
        crc8_rounds(0u8, k) == 0,
    decreases k,
{
    if k > 0 {
        lemma_rounds_zero((k - 1) as nat);
        assert((if 0u8 & 0x80 != 0 {
            (0u8 << 1u8) ^ 0x07u8
        } else {
            0u8 << 1u8
        }) == 0u8) by (bit_vector);
    }
}

/// The checksum of an all-zero sequence is zero.
proof fn lemma_crc8_zeros(d: Seq<u8>)
    requires
        forall|i: int| 0 <= i < d.len() ==> d[i] == 0u8,
    ensures
        crc8_spec(d) == 0,
    decreases d.len(),
{
    if d.len() > 0 {
        lemma_crc8_zeros(d.drop_last());
        assert(0u8 ^ 0u8 == 0u8) by (bit_vector);
        lemma_rounds_zero(8);
    }
}

/// The checksum is linear: it maps the XOR of two sequences to the
/// XOR of their checksums.
proof fn lemma_crc8_linear(d1: Seq<u8>, d2: Seq<u8>)
    requires
        d1.len() == d2.len(),
    ensures
        crc8_spec(xor_seq(d1, d2)) == crc8_spec(d1) ^ crc8_spec(d2),
    decreases d1.len(),
{
    if d1.len() == 0 {
        assert(0u8 ^ 0u8 == 0u8) by (bit_vector);
    } else {
        lemma_crc8_linear(d1.drop_last(), d2.drop_last());
        let x = xor_seq(d1, d2);
        assert(x.drop_last() =~= xor_seq(d1.drop_last(), d2.drop_last()));
        assert(x.last() == d1.last() ^ d2.last());
        let c1 = crc8_spec(d1.drop_last());
        let c2 = crc8_spec(d2.drop_last());
        let l1 = d1.last();
        let l2 = d2.last();
        assert((c1 ^ c2) ^ (l1 ^ l2) == (c1 ^ l1) ^ (c2 ^ l2)) by (bit_vector);
        lemma_rounds_linear(c1 ^ l1, c2 ^ l2, 8);
    }
}

/// A sequence that is zero except for one nonzero byte has a
/// nonzero checksum.
proof fn lemma_crc8_single_nonzero(d: Seq<u8>, p: int)
    requires
        0 <= p < d.len(),
        d[p] != 0,
        forall|i: int| 0 <= i < d.len() && i != p ==> d[i] == 0u8,
    ensures
        crc8_spec(d) != 0,
    decreases d.len(),
{
    if p == d.len() - 1 {
        lemma_crc8_zeros(d.drop_last());
        let delta = d.last();
        assert(0u8 ^ delta == delta) by (bit_vector);
        lemma_rounds_nonzero(delta, 8);
    } else {
        lemma_crc8_single_nonzero(d.drop_last(), p);
        let c = crc8_spec(d.drop_last());
        assert(c ^ 0u8 == c) by (bit_vector);
        lemma_rounds_nonzero(c, 8);
    }
}

/// Flipping one entry of a byte's bit expansion expands the byte
/// with that one bit flipped.
proof fn lemma_byte_bits_flip(b: u8, j: int, s: Seq<u8>)
    requires
        0 <= j < 8,
        s.len() == 8,
        forall|t: int| 0 <= t < 8 && t != j ==> s[t] == byte_bit(b, t),
        s[j] == byte_bit(b, j) ^ 1,
    ensures
        forall|t: int| 0 <= t < 8 ==> s[t] == byte_bit(b ^ (1u8 << ((7 - j) as u8)), t),
        b ^ (1u8 << ((7 - j) as u8)) != b,
{
    let jj = j as u8;
    assert forall|t: int| 0 <= t < 8 implies s[t] == byte_bit(b ^ (1u8 << ((7 - j) as u8)), t) by {
        let tt = t as u8;
        assert(tt < 8 && jj < 8 ==> ((b ^ (1u8 << ((7 - jj) as u8))) >> ((7 - tt) as u8)) & 1 == (
        if tt == jj {
            ((b >> ((7 - tt) as u8)) & 1) ^ 1
        } else {
            (b >> ((7 - tt) as u8)) & 1
        })) by (bit_vector);
    }
    assert(jj < 8 ==> b ^ (1u8 << ((7 - jj) as u8)) != b) by (bit_vector);
}

/// Flipping any single bit of an encoded payload makes verification
/// fail: a flip among the payload bits changes the recomputed
/// checksum (the checksum is linear and no single-byte error has a
/// zero checksum), and a flip among the trailing checksum bits
/// changes the received checksum alone.
pub proof fn lemma_crc_flip_detected(data: Seq<u8>, i: int)
    requires
        0 <= i < encode_with_crc_spec(data).len(),
    ensures
        !verify_crc_spec(encode_with_crc_spec(data).update(i, encode_with_crc_spec(data)[i] ^ 1)),
{
    let s = encode_with_crc_spec(data);
    let s2 = s.update(i, s[i] ^ 1);
    let bits = bits_of_bytes(data);
    let crc = crc8_spec(data);
    let dl = s.len() - 8;
    assert(dl == data.len() * 8);
    let lead2 = s2.subrange(0, dl as int);
    let tail2 = s2.subrange(dl as int, s2.len() as int);
    lemma_packed_of_bits(data);
    if i < dl {
        // The payload part changed in bit i of byte i/8; the packed
        // bytes differ there, so the recomputed checksum moves.
        let t0 = i / 8;
        let j0 = i % 8;
        assert(0 <= j0 < 8 && 0 <= t0 < data.len()) by (nonlinear_arith)
            requires
                0 <= i < data.len() * 8,
                t0 == i / 8,
                j0 == i % 8,
        ;
        assert(tail2 =~= crc_bit_seq(crc));
        lemma_pack_chunk_of_byte_bits(crc, tail2);
        // The flipped chunk packs to the byte with one bit flipped.
        let delta = 1u8 << ((7 - j0) as u8);
        let b0 = data[t0];
        let chunk2 = chunk_at(lead2, t0);
        assert(8 * t0 + 8 <= lead2.len()) by (nonlinear_arith)
            requires
                0 <= t0 < data.len(),
                lead2.len() == data.len() * 8,
        ;
        assert(chunk2.len() == 8);
        assert forall|t: int| 0 <= t < 8 && t != j0 implies chunk2[t] == byte_bit(b0, t) by {
            let p = 8 * t0 + t;
            assert(p != i) by (nonlinear_arith)
                requires
                    p == 8 * t0 + t,
                    i == 8 * t0 + j0,
                    t != j0,
                    t0 == i / 8,
                    j0 == i % 8,
            ;
            assert(p / 8 == t0 && p % 8 == t) by (nonlinear_arith)
                requires
                    p == 8 * t0 + t,
                    0 <= t < 8,
                    0 <= t0,
            ;
            assert(chunk2[t] == s2[p]);
            assert(s2[p] == s[p]);
            assert(s[p] == bits[p]);
        }
        assert(chunk2[j0] == byte_bit(b0, j0) ^ 1) by {
            assert(i == 8 * t0 + j0) by (nonlinear_arith)
                requires
                    t0 == i / 8,
                    j0 == i % 8,
                    i >= 0,
            ;
            assert(chunk2[j0] == s2[i]);
            assert(s[i] == bits[i]);
            assert(bits[i] == byte_bit(data[i / 8], i % 8));
        }
        lemma_byte_bits_flip(b0, j0, chunk2);
        let b2 = b0 ^ delta;
        lemma_pack_chunk_of_byte_bits(b2, chunk2);
        // Every other chunk is unchanged, so the packed sequence is
        // the payload with byte t0 flipped by delta.
        let packed2 = packed_seq(lead2);
        assert(packed2.len() == data.len()) by (nonlinear_arith)
            requires
                packed2.len() == (data.len() * 8 + 7) / 8,
        ;
        assert forall|t: int| 0 <= t < data.len() implies packed2[t] == data.update(t0, b2)[t] by {
            if t != t0 {
                let chunk = chunk_at(lead2, t);
                let orig_chunk = chunk_at(bits, t);
                assert(8 * t + 8 <= lead2.len()) by (nonlinear_arith)
                    requires
                        0 <= t < data.len(),
                        lead2.len() == data.len() * 8,
                ;
                assert forall|u: int| 0 <= u < 8 implies chunk[u] == orig_chunk[u] by {
                    let p = 8 * t + u;
                    assert(p / 8 == t && p % 8 == u) by (nonlinear_arith)
                        requires
                            p == 8 * t + u,
                            0 <= u < 8,
                            0 <= t,
                    ;
                    assert(p != i) by (nonlinear_arith)
                        requires
                            p / 8 == t,
                            t0 == i / 8,
                            t != t0,
                            p == 8 * t + u,
                            i >= 0,
                    ;
                }
                assert(chunk =~= orig_chunk);
                assert(packed_seq(bits)[t] == data[t]);
            }
        }
        assert(packed2 =~= data.update(t0, b2));
        // The error pattern is a single nonzero byte, so the
        // checksums of the two payloads differ.
        let e = xor_seq(data.update(t0, b2), data);
        assert(e[t0] == (b0 ^ delta) ^ b0);
        assert((b0 ^ delta) ^ b0 == delta) by (bit_vector);
        assert(delta != 0) by {
            let jj = j0 as u8;
            assert(jj < 8 ==> 1u8 << ((7 - jj) as u8) != 0) by (bit_vector);
        }
        assert forall|t: int| 0 <= t < e.len() && t != t0 implies e[t] == 0u8 by {
            let x = data[t];
            assert(x ^ x == 0u8) by (bit_vector);
        }
        lemma_crc8_single_nonzero(e, t0);
        lemma_crc8_linear(data.update(t0, b2), data);
        assert(xor_seq(data.update(t0, b2), data) =~= e);
        assert(crc8_spec(data.update(t0, b2)) != crc8_spec(data)) by {
            let c2 = crc8_spec(data.update(t0, b2));
            let c1 = crc8_spec(data);
            assert(c2 ^ c1 != 0);
            assert(c2 ^ c1 != 0 ==> c2 != c1) by (bit_vector);
        }
    } else {
        // The checksum part changed: the recomputed value is
        // unchanged but the received one has one bit flipped.
        let j0 = i - dl;
        assert(lead2 =~= bits);
        assert(packed_seq(lead2) == data);
        assert(tail2.len() == 8);
        assert forall|t: int| 0 <= t < 8 && t != j0 implies tail2[t] == byte_bit(crc, t) by {
            assert(tail2[t] == s[dl + t]);
        }
        assert(tail2[j0] == byte_bit(crc, j0) ^ 1) by {
            assert(tail2[j0] == s2[i]);
            assert(s[i] == crc_bit_seq(crc)[j0]);
        }
        lemma_byte_bits_flip(crc, j0, tail2);
        let crc2 = crc ^ (1u8 << ((7 - j0) as u8));
        lemma_pack_chunk_of_byte_bits(crc2, tail2);
    }
}

/// Checksum round trip: verifying an encoded payload always
/// succeeds, whatever the payload bytes.
pub proof fn lemma_crc_roundtrip(data: Seq<u8>)
    ensures
        verify_crc_spec(encode_with_crc_spec(data)),
{
    let s = encode_with_crc_spec(data);
    let bits = bits_of_bytes(data);
    let crc = crc8_spec(data);
    assert(s.len() == data.len() * 8 + 8);
    let data_len = s.len() - 8;
    assert(s.subrange(0, data_len as int) =~= bits);
    assert(s.subrange(data_len as int, s.len() as int) =~= crc_bit_seq(crc));
    lemma_packed_of_bits(data);
    lemma_pack_chunk_of_byte_bits(crc, crc_bit_seq(crc));
}

} // verus!
