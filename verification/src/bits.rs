//! Payload bit expansion, bit packing, and bit-order reversal.

use vstd::prelude::*;

verus! {

use vstd::arithmetic::power2::pow2;

/// Bit `j` of byte `b`, counting the most significant bit as bit 0.
pub open spec fn byte_bit(b: u8, j: int) -> u8 {
    (b >> ((7 - j) as u8)) & 1
}

/// MSB-first expansion of a byte sequence into one bit per entry.
pub open spec fn bits_of_bytes(data: Seq<u8>) -> Seq<u8> {
    Seq::new(data.len() * 8, |i: int| byte_bit(data[i / 8], i % 8))
}

/// A single extracted bit is 0 or 1.
pub proof fn lemma_byte_bit_le_one(b: u8, j: int)
    ensures
        byte_bit(b, j) <= 1,
{
    let s = (7 - j) as u8;
    assert((b >> s) & 1 <= 1) by (bit_vector);
}

/// Expands bytes into bits, most significant bit of each byte first.
pub fn encode_bits(data_bytes: &[u8]) -> (bits: Vec<u8>)
    requires
        data_bytes@.len() * 8 <= usize::MAX,
    ensures
        bits@ == bits_of_bytes(data_bytes@),
        forall|t: int| 0 <= t < bits@.len() ==> bits@[t] <= 1,
{
    let n: usize = data_bytes.len();
    let mut bits: Vec<u8> = Vec::new();
    let mut i: usize = 0;
    while i < n
        invariant
            i <= n,
            n == data_bytes@.len(),
            n * 8 <= usize::MAX,
            bits@.len() == i * 8,
            forall|t: int| 0 <= t < bits@.len() ==> bits@[t] == byte_bit(data_bytes@[t / 8], t % 8),
        decreases n - i,
    {
        let b: u8 = data_bytes[i];
        let mut j: usize = 0;
        while j < 8
            invariant
                j <= 8,
                i < n,
                n == data_bytes@.len(),
                n * 8 <= usize::MAX,
                b == data_bytes@[i as int],
                bits@.len() == i * 8 + j,
            forall|t: int| 0 <= t < bits@.len() ==> bits@[t] == byte_bit(data_bytes@[t / 8], t % 8),
            decreases 8 - j,
        {
            let bit: u8 = (b >> ((7 - j) as u8)) & 1;
            bits.push(bit);
            proof {
                let t = (i * 8 + j) as int;
                assert(t / 8 == i as int && t % 8 == j as int) by (nonlinear_arith)
                    requires
                        t == i * 8 + j,
                        0 <= j < 8,
                        0 <= i,
                ;
            }
            j += 1;
        }
        i += 1;
    }
    proof {
        assert forall|t: int| 0 <= t < bits@.len() implies bits@[t] <= 1 by {
            lemma_byte_bit_le_one(data_bytes@[t / 8], t % 8);
        }
        assert(bits@ =~= bits_of_bytes(data_bytes@));
    }
    bits
}

/// The byte obtained by OR-folding a chunk of up to 8 entries,
/// entry `t` shifted to bit position `7 - t`.
pub open spec fn pack_chunk(s: Seq<u8>) -> u8
    decreases s.len(),
{
    if s.len() == 0 {
        0u8
    } else {
        pack_chunk(s.drop_last()) | (s.last() << ((8 - s.len()) as u8))
    }
}

/// Number of bytes that `pack_bits` produces for `n` input entries.
pub open spec fn packed_len(n: nat) -> nat {
    (n + 7) / 8
}

/// Chunk `t` of a bit sequence: entries `8 t` up to `8 t + 8`,
/// truncated at the end of the sequence.
pub open spec fn chunk_at(bits: Seq<u8>, t: int) -> Seq<u8> {
    bits.subrange(8 * t, if 8 * t + 8 <= bits.len() { 8 * t + 8 } else { bits.len() as int })
}

/// The byte sequence obtained by packing a bit sequence chunk by
/// chunk.
pub open spec fn packed_seq(bits: Seq<u8>) -> Seq<u8> {
    Seq::new(packed_len(bits.len()), |t: int| pack_chunk(chunk_at(bits, t)))
}

/// Packs bits back into bytes, eight entries per byte, first entry in
/// the most significant position; a ragged final chunk fills the high
/// bits only.
pub fn pack_bits(bits: &[u8]) -> (bytes: Vec<u8>)
    ensures
        bytes@ == packed_seq(bits@),
        bytes@.len() == packed_len(bits@.len()),
        forall|t: int| 0 <= t < bytes@.len() ==> bytes@[t] == pack_chunk(#[trigger] chunk_at(bits@, t)),
{
    let n: usize = bits.len();
    let mut bytes: Vec<u8> = Vec::new();
    let mut i: usize = 0;
    while n - i >= 8
        invariant
            i <= n,
            n == bits@.len(),
            i % 8 == 0,
            bytes@.len() * 8 == i,
            forall|t: int| 0 <= t < bytes@.len() ==> bytes@[t] == pack_chunk(#[trigger] chunk_at(bits@, t)),
        decreases n - i,
    {
        let acc: u8 = pack_one_chunk(bits, i, 8);
        bytes.push(acc);
        proof {
            let t = bytes@.len() - 1;
            assert(8 * t == i as int);
            assert(chunk_at(bits@, t) =~= bits@.subrange(i as int, (i + 8) as int));
        }
        i += 8;
    }
    if i < n {
        let acc: u8 = pack_one_chunk(bits, i, n - i);
        bytes.push(acc);
        proof {
            let t = bytes@.len() - 1;
            assert(8 * t == i as int);
            assert(chunk_at(bits@, t) =~= bits@.subrange(i as int, n as int));
        }
    }
    proof {
        assert(bytes@.len() == packed_len(n as nat)) by (nonlinear_arith)
            requires
                i <= n,
                i % 8 == 0,
                n - i < 8,
                (i < n ==> bytes@.len() * 8 == i + 8) && (i == n ==> bytes@.len() * 8 == i),
        ;
        assert(bytes@ =~= packed_seq(bits@));
    }
    bytes
}

/// OR-folds `len` entries of `bits` starting at `start` into one byte,
/// the first entry in the most significant position.
pub(crate) fn pack_one_chunk(bits: &[u8], start: usize, len: usize) -> (acc: u8)
    requires
        1 <= len <= 8,
        start + len <= bits@.len(),
    ensures
        acc == pack_chunk(bits@.subrange(start as int, (start + len) as int)),
{
    let total: usize = bits.len();
    let mut acc: u8 = 0;
    let mut j: usize = 0;
    while j < len
        invariant
            j <= len,
            1 <= len <= 8,
            total == bits@.len(),
            start + len <= bits@.len(),
            acc == pack_chunk(bits@.subrange(start as int, (start + j) as int)),
        decreases len - j,
    {
        let ghost prev = bits@.subrange(start as int, (start + j) as int);
        acc = acc | (bits[start + j] << ((7 - j) as u8));
        proof {
            let cur = bits@.subrange(start as int, (start + j + 1) as int);
            assert(cur.drop_last() =~= prev);
            assert(cur.last() == bits@[(start + j) as int]);
        }
        j += 1;
    }
    acc
}

/// The low `m` bits of `x`, in reversed order, as an `m`-bit value.
pub open spec fn rev_bits(x: nat, m: nat) -> nat
    decreases m,
{
    if m == 0 {
        0
    } else {
        (x % 2) * pow2((m - 1) as nat) + rev_bits(x / 2, (m - 1) as nat)
    }
}

/// A reversed `m`-bit value fits in `m` bits.
pub proof fn lemma_rev_bits_bound(x: nat, m: nat)
    ensures
        rev_bits(x, m) < pow2(m),
    decreases m,
{
    vstd::arithmetic::power2::lemma_pow2_pos(m);
    if m > 0 {
        lemma_rev_bits_bound(x / 2, (m - 1) as nat);
        vstd::arithmetic::power2::lemma_pow2_unfold(m);
        assert((x % 2) * pow2((m - 1) as nat) <= pow2((m - 1) as nat)) by (nonlinear_arith)
            requires
                0 <= x % 2 <= 1,
                pow2((m - 1) as nat) >= 0,
        ;
    }
}

/// Appending one more (higher) source bit places it at the bottom of
/// the reversed value.
pub proof fn lemma_rev_bits_step(x: nat, m: nat)
    ensures
        rev_bits(x, m + 1) == 2 * rev_bits(x, m) + (x / pow2(m)) % 2,
    decreases m,
{
    vstd::arithmetic::power2::lemma_pow2_pos(m);
    if m == 0 {
        assert(pow2(0) == 1) by {
            vstd::arithmetic::power2::lemma2_to64();
        }
        assert(rev_bits(x, 1) == (x % 2) * pow2(0) + rev_bits(x / 2, 0));
        assert((x % 2) * 1 == x % 2);
        assert(x / 1 == x);
        assert(2 * rev_bits(x, 0) == 0);
    } else {
        let m1 = (m - 1) as nat;
        lemma_rev_bits_step(x / 2, m1);
        vstd::arithmetic::power2::lemma_pow2_unfold(m);
        vstd::arithmetic::power2::lemma_pow2_pos(m1);
        assert((x / 2) / pow2(m1) == x / pow2(m)) by {
            vstd::arithmetic::div_mod::lemma_div_denominator(x as int, 2, pow2(m1) as int);
        }
        assert(rev_bits(x, m + 1) == (x % 2) * pow2(m) + rev_bits(x / 2, m));
        assert(rev_bits(x / 2, m) == 2 * rev_bits(x / 2, m1) + ((x / 2) / pow2(m1)) % 2);
        assert(rev_bits(x, m) == (x % 2) * pow2(m1) + rev_bits(x / 2, m1));
        assert((x % 2) * pow2(m) == 2 * ((x % 2) * pow2(m1))) by (nonlinear_arith)
            requires
                pow2(m) == 2 * pow2(m1),
        ;
        assert(rev_bits(x, m + 1) == 2 * ((x % 2) * pow2(m1)) + 2 * rev_bits(x / 2, m1) + (x / pow2(m)) % 2);
        assert(2 * rev_bits(x, m) == 2 * ((x % 2) * pow2(m1)) + 2 * rev_bits(x / 2, m1));
    }
}

/// Bit reversal only reads the low `m` bits.
pub proof fn lemma_rev_bits_low(x: nat, m: nat)
    ensures
        rev_bits(x, m) == rev_bits(x % pow2(m), m),
    decreases m,
{
    if m == 0 {
        vstd::arithmetic::power2::lemma2_to64();
        assert(rev_bits(x, 0) == 0);
        assert(rev_bits(x % pow2(0), 0) == 0);
    } else {
        let m1 = (m - 1) as nat;
        let p1 = pow2(m1);
        vstd::arithmetic::power2::lemma_pow2_pos(m1);
        vstd::arithmetic::power2::lemma_pow2_unfold(m);
        lemma_rev_bits_low(x / 2, m1);
        vstd::arithmetic::div_mod::lemma_mod_breakdown(x as int, 2, p1 as int);
        let r = (x % pow2(m)) as int;
        assert(r == 2 * (((x as int) / 2) % (p1 as int)) + (x as int) % 2);
        let a = ((x as int) / 2) % (p1 as int);
        let b = (x as int) % 2;
        assert(0 <= a < p1 && 0 <= b < 2);
        assert(r / 2 == a && r % 2 == b) by (nonlinear_arith)
            requires
                r == 2 * a + b,
                0 <= a,
                0 <= b < 2,
        ;
        assert(a as nat == (x / 2) % p1);
        assert(b as nat == x % 2);
        assert((x % pow2(m)) / 2 == a as nat && (x % pow2(m)) % 2 == b as nat);
        assert(rev_bits(x % pow2(m), m) == (b as nat) * p1 + rev_bits(a as nat, m1));
        assert(rev_bits(x, m) == (b as nat) * p1 + rev_bits(x / 2, m1));
        assert(rev_bits(x / 2, m1) == rev_bits((x / 2) % p1, m1));
        assert(rev_bits(a as nat, m1) == rev_bits((x / 2) % p1, m1));
    }
}

/// Reversing twice gives back the original `m`-bit value.
pub proof fn lemma_rev_bits_involution(x: nat, m: nat)
    requires
        x < pow2(m),
    ensures
        rev_bits(rev_bits(x, m), m) == x,
    decreases m,
{
    vstd::arithmetic::power2::lemma_pow2_pos(m);
    if m == 0 {
        assert(pow2(0) == 1) by {
            vstd::arithmetic::power2::lemma2_to64();
        }
    } else {
        let m1 = (m - 1) as nat;
        let p1 = pow2(m1);
        vstd::arithmetic::power2::lemma_pow2_pos(m1);
        vstd::arithmetic::power2::lemma_pow2_unfold(m);
        let b = (x / p1) % 2;
        assert(x / p1 < 2) by (nonlinear_arith)
            requires
                x < 2 * p1,
                p1 > 0,
                0 <= x,
        ;
        assert(b == x / p1);
        lemma_rev_bits_step(x, m1);
        let y = rev_bits(x, m);
        assert(y == 2 * rev_bits(x, m1) + b);
        lemma_rev_bits_low(x, m1);
        let xl = x % p1;
        vstd::arithmetic::div_mod::lemma_mod_bound(x as int, p1 as int);
        lemma_rev_bits_involution(xl, m1);
        assert(y % 2 == b && y / 2 == rev_bits(x, m1)) by (nonlinear_arith)
            requires
                y == 2 * rev_bits(x, m1) + b,
                0 <= rev_bits(x, m1),
                0 <= b < 2,
        ;
        assert(rev_bits(y, m) == (y % 2) * p1 + rev_bits(y / 2, m1));
        assert(rev_bits(y / 2, m1) == rev_bits(rev_bits(xl, m1), m1)) by {
            assert(y / 2 == rev_bits(x, m1) == rev_bits(xl, m1));
        }
        assert(rev_bits(y, m) == b * p1 + xl);
        vstd::arithmetic::div_mod::lemma_fundamental_div_mod(x as int, p1 as int);
    }
}

/// Reverses the low `bit_count` bits of `n`, dropping the rest.
pub fn reverse_bits(n: usize, bit_count: u32) -> (r: usize)
    requires
        bit_count < usize::BITS,
    ensures
        r as nat == rev_bits(n as nat, bit_count as nat),
{
    let ghost x: nat = n as nat;
    let mut val: usize = n;
    let mut result: usize = 0;
    let mut round: u32 = 0;
    proof {
        vstd::arithmetic::power2::lemma2_to64();
        assert(x / pow2(0) == x);
    }
    while round < bit_count
        invariant
            round <= bit_count,
            bit_count < usize::BITS,
            result as nat == rev_bits(x, round as nat),
            val as nat == x / pow2(round as nat),
        decreases bit_count - round,
    {
        proof {
            lemma_rev_bits_bound(x, round as nat);
            lemma_rev_bits_step(x, round as nat);
            vstd::arithmetic::power2::lemma_pow2_unfold((round + 1) as nat);
            vstd::bits::lemma_usize_pow2_no_overflow(bit_count as nat);
            if ((round + 1) as nat) < (bit_count as nat) {
                vstd::arithmetic::power2::lemma_pow2_strictly_increases(
                    (round + 1) as nat,
                    bit_count as nat,
                );
            }
            assert(rev_bits(x, (round + 1) as nat) < pow2((round + 1) as nat)) by {
                lemma_rev_bits_bound(x, (round + 1) as nat);
            }
            vstd::arithmetic::div_mod::lemma_div_denominator(
                x as int,
                pow2(round as nat) as int,
                2,
            );
        }
        result = result * 2 + val % 2;
        val = val / 2;
        round += 1;
    }
    result
}

} // verus!
