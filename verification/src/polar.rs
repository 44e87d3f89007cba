//! Polar code: construction of the frozen/information partition,
//! the butterfly encoding transform, and successive-cancellation
//! (list) decoding over fixed-point log-likelihood ratios.
//!
//! The per-bit decision metric of the list decoder uses the raw
//! channel value at each position rather than propagating beliefs
//! through the transform tree; this mirrors a deliberate
//! simplification of the design and is weaker than a textbook
//! successive-cancellation decoder.

use vstd::prelude::*;

verus! {

use vstd::arithmetic::power2::pow2;
use crate::bits::rev_bits;
use crate::bits::lemma_rev_bits_bound;
use crate::bits::lemma_rev_bits_involution;

/// Fixed-point scale of one unit of log-likelihood ratio: a channel
/// confidence of `x` is carried as `x * LLR_SCALE`.
pub const LLR_SCALE: i64 = 256;

/// Decision metrics clip each contribution to twenty units, so one
/// overconfident sample cannot dominate a path score.
pub const LLR_CLIP: i64 = 20 * LLR_SCALE;

/// Largest supported code length; keeps every accumulated path
/// metric far inside the fixed-point range.
pub const MAX_CODE_LEN: usize = 0x4000_0000;

/// Floor of the base-two logarithm.
pub open spec fn lg(n: nat) -> nat
    decreases n,
{
    if n <= 1 {
        0
    } else {
        1 + lg(n / 2)
    }
}

/// `lg` inverts `pow2`.
pub proof fn lemma_lg_pow2(m: nat)
    ensures
        lg(pow2(m)) == m,
    decreases m,
{
    vstd::arithmetic::power2::lemma_pow2_pos(m);
    if m == 0 {
        assert(pow2(0) == 1) by {
            vstd::arithmetic::power2::lemma2_to64();
        }
    } else {
        vstd::arithmetic::power2::lemma_pow2_unfold(m);
        lemma_lg_pow2((m - 1) as nat);
        vstd::arithmetic::power2::lemma_pow2_pos((m - 1) as nat);
        assert(pow2(m) / 2 == pow2((m - 1) as nat));
    }
}

/// A sequence of indices in strictly increasing order.
pub open spec fn strictly_increasing(s: Seq<usize>) -> bool {
    forall|a: int, b: int| 0 <= a < b < s.len() ==> s[a] < s[b]
}

/// Number of positions `i < upto` whose reversed index is at least
/// `t`.
pub open spec fn count_rev_ge(upto: nat, m: nat, t: nat) -> nat
    decreases upto,
{
    if upto == 0 {
        0
    } else {
        count_rev_ge((upto - 1) as nat, m, t) + if rev_bits((upto - 1) as nat, m) >= t {
            1nat
        } else {
            0nat
        }
    }
}

/// Number of positions `i < upto` whose reversed index equals `t`.
pub open spec fn count_rev_eq(upto: nat, m: nat, t: nat) -> nat
    decreases upto,
{
    if upto == 0 {
        0
    } else {
        count_rev_eq((upto - 1) as nat, m, t) + if rev_bits((upto - 1) as nat, m) == t {
            1nat
        } else {
            0nat
        }
    }
}

/// Splitting the count at one threshold step.
proof fn lemma_count_split(upto: nat, m: nat, t: nat)
    ensures
        count_rev_ge(upto, m, t) == count_rev_ge(upto, m, t + 1) + count_rev_eq(upto, m, t),
    decreases upto,
{
    if upto > 0 {
        lemma_count_split((upto - 1) as nat, m, t);
    }
}

/// No reversed index reaches `pow2(m)`.
proof fn lemma_count_top(upto: nat, m: nat, t: nat)
    requires
        t >= pow2(m),
    ensures
        count_rev_ge(upto, m, t) == 0,
    decreases upto,
{
    if upto > 0 {
        lemma_count_top((upto - 1) as nat, m, t);
        lemma_rev_bits_bound((upto - 1) as nat, m);
    }
}

/// Exactly one position below `upto` reverses to `t`, namely
/// `rev_bits(t, m)`, once `upto` has passed it.
proof fn lemma_count_eq_value(upto: nat, m: nat, t: nat)
    requires
        t < pow2(m),
        upto <= pow2(m),
    ensures
        count_rev_eq(upto, m, t) == if rev_bits(t, m) < upto {
            1nat
        } else {
            0nat
        },
    decreases upto,
{
    if upto > 0 {
        let i = (upto - 1) as nat;
        lemma_count_eq_value(i, m, t);
        lemma_rev_bits_involution(t, m);
        if rev_bits(i, m) == t {
            // Then i is the unique preimage rev_bits(t, m).
            lemma_rev_bits_involution(i, m);
            lemma_rev_bits_bound(i, m);
        }
    }
}

/// The reversed indices of a full block hit every threshold class
/// exactly: `pow2(m) - t` of them are at least `t`.
proof fn lemma_count_total(m: nat, t: nat)
    requires
        t <= pow2(m),
    ensures
        count_rev_ge(pow2(m), m, t) == pow2(m) - t,
    decreases pow2(m) - t,
{
    if t == pow2(m) {
        lemma_count_top(pow2(m), m, t);
    } else {
        lemma_count_total(m, t + 1);
        lemma_count_split(pow2(m), m, t);
        lemma_count_eq_value(pow2(m), m, t);
        lemma_rev_bits_bound(t, m);
    }
}

/// Polar code configuration: a power-of-two code length `n`, `k`
/// information positions, and the complementary frozen positions.
pub struct PolarCode {
    /// Code length (a power of two).
    pub n: usize,
    /// Number of information bits.
    pub k: usize,
    /// Positions forced to zero, in increasing order.
    pub frozen_positions: Vec<usize>,
    /// Positions carrying payload bits, in increasing order.
    pub info_positions: Vec<usize>,
}

impl PolarCode {
    /// Number of butterfly stages, `log2(n)`.
    pub open spec fn stages(self) -> nat {
        lg(self.n as nat)
    }

    /// A position is reliable (carries information) when its
    /// bit-reversed index ranks among the top `k` of the block.
    pub open spec fn is_info_pos(self, p: int) -> bool {
        0 <= p < self.n && rev_bits(p as nat, self.stages()) >= self.n - self.k
    }

    /// Structural well-formedness: the two position lists partition
    /// `0..n` by the bit-reversal reliability rule.
    pub open spec fn wf(self) -> bool {
        &&& pow2(self.stages()) == self.n as nat
        &&& self.n <= MAX_CODE_LEN
        &&& self.k <= self.n
        &&& self.info_positions@.len() == self.k as nat
        &&& self.frozen_positions@.len() == (self.n - self.k) as nat
        &&& strictly_increasing(self.info_positions@)
        &&& strictly_increasing(self.frozen_positions@)
        &&& forall|j: int|
            0 <= j < self.info_positions@.len() ==> self.is_info_pos(
                #[trigger] self.info_positions@[j] as int,
            )
        &&& forall|j: int|
            0 <= j < self.frozen_positions@.len() ==> (0 <= #[trigger] self.frozen_positions@[j]
                < self.n && !self.is_info_pos(self.frozen_positions@[j] as int))
        &&& forall|p: int|
            0 <= p < self.n && self.is_info_pos(p) ==> #[trigger] self.info_positions@.contains(
                p as usize,
            )
        &&& forall|p: int|
            0 <= p < self.n && !self.is_info_pos(p)
                ==> #[trigger] self.frozen_positions@.contains(p as usize)
    }

    /// Reverses the low `num_bits` bits of `x`.
    pub fn bit_reversal(x: usize, num_bits: usize) -> (r: usize)
        requires
            num_bits < usize::BITS,
        ensures
            r as nat == rev_bits(x as nat, num_bits as nat),
    {
        crate::bits::reverse_bits(x, num_bits as u32)
    }

    /// Builds the code for length `n` and dimension `k`: positions
    /// whose bit-reversed index ranks in the top `k` carry
    /// information, the rest are frozen.
    pub fn new(n: usize, k: usize) -> (code: PolarCode)
        requires
            vstd::arithmetic::power2::is_pow2(n as int),
            k <= n,
            n <= MAX_CODE_LEN,
        ensures
            code.wf(),
            code.n == n,
            code.k == k,
    {
        let m: u32 = log2_of_pow2(n);
        let threshold: usize = n - k;
        let mut info_positions: Vec<usize> = Vec::new();
        let mut frozen_positions: Vec<usize> = Vec::new();
        let ghost mm = m as nat;
        let mut i: usize = 0;
        while i < n
            invariant
                i <= n,
                pow2(mm) == n as nat,
                mm == m,
                m < usize::BITS,
                threshold == n - k,
                k <= n <= MAX_CODE_LEN,
                info_positions@.len() == count_rev_ge(i as nat, mm, threshold as nat),
                info_positions@.len() + frozen_positions@.len() == i as nat,
                strictly_increasing(info_positions@),
                strictly_increasing(frozen_positions@),
                forall|j: int|
                    0 <= j < info_positions@.len() ==> #[trigger] info_positions@[j] < i,
                forall|j: int|
                    0 <= j < frozen_positions@.len() ==> #[trigger] frozen_positions@[j] < i,
                forall|j: int|
                    0 <= j < info_positions@.len() ==> rev_bits(
                        #[trigger] info_positions@[j] as nat,
                        mm,
                    ) >= threshold,
                forall|j: int|
                    0 <= j < frozen_positions@.len() ==> rev_bits(
                        #[trigger] frozen_positions@[j] as nat,
                        mm,
                    ) < threshold,
                forall|p: int|
                    0 <= p < i && rev_bits(p as nat, mm) >= threshold
                        ==> #[trigger] info_positions@.contains(p as usize),
                forall|p: int|
                    0 <= p < i && rev_bits(p as nat, mm) < threshold
                        ==> #[trigger] frozen_positions@.contains(p as usize),
            decreases n - i,
        {
            let r: usize = Self::bit_reversal(i, m as usize);
            let ghost old_info = info_positions@;
            let ghost old_frozen = frozen_positions@;
            if r >= threshold {
                info_positions.push(i);
            } else {
                frozen_positions.push(i);
            }
            proof {
                assert forall|p: int|
                    0 <= p < i + 1 && rev_bits(p as nat, mm) >= threshold
                        implies #[trigger] info_positions@.contains(p as usize) by {
                    if p < i {
                        assert(old_info.contains(p as usize));
                        let w = choose|w: int| 0 <= w < old_info.len() && old_info[w] == p as usize;
                        assert(info_positions@[w] == p as usize);
                    } else {
                        assert(info_positions@.last() == i as usize);
                    }
                }
                assert forall|p: int|
                    0 <= p < i + 1 && rev_bits(p as nat, mm) < threshold
                        implies #[trigger] frozen_positions@.contains(p as usize) by {
                    if p < i {
                        assert(old_frozen.contains(p as usize));
                        let w = choose|w: int|
                            0 <= w < old_frozen.len() && old_frozen[w] == p as usize;
                        assert(frozen_positions@[w] == p as usize);
                    } else {
                        assert(frozen_positions@.last() == i as usize);
                    }
                }
            }
            i += 1;
        }
        proof {
            lemma_count_total(mm, threshold as nat);
            lemma_lg_pow2(mm);
        }
        let code = PolarCode { n, k, frozen_positions, info_positions };
        proof {
            assert(code.stages() == mm);
            assert forall|j: int|
                0 <= j < code.info_positions@.len() implies code.is_info_pos(
                #[trigger] code.info_positions@[j] as int,
            ) by {
                assert(code.info_positions@[j] < code.n);
            }
        }
        code
    }
}

/// One butterfly stage with pair distance `step`: within each block
/// of `2 * step` entries, the upper half becomes the XOR of the pair,
/// the lower half passes through.
pub open spec fn stage_xor(x: Seq<u8>, step: nat) -> Seq<u8>
    recommends
        step >= 1,
{
    Seq::new(
        x.len(),
        |i: int|
            if i % (2 * step as int) < step as int {
                x[i] ^ x[i + step]
            } else {
                x[i]
            },
    )
}

/// The polar transform: `stages` butterfly stages applied with
/// doubling pair distance, starting at distance one.
pub open spec fn transform_spec(x: Seq<u8>, stages: nat) -> Seq<u8>
    decreases stages,
{
    if stages == 0 {
        x
    } else {
        stage_xor(transform_spec(x, (stages - 1) as nat), pow2((stages - 1) as nat))
    }
}

/// Two equal entries of a strictly increasing sequence have the same
/// index.
pub proof fn lemma_strictly_increasing_unique(s: Seq<usize>, a: int, b: int)
    requires
        strictly_increasing(s),
        0 <= a < s.len(),
        0 <= b < s.len(),
        s[a] == s[b],
    ensures
        a == b,
{
}

impl PolarCode {
    /// The index in the information list at which position `p`
    /// appears.
    pub open spec fn info_index_of(self, p: int) -> int {
        choose|j: int| 0 <= j < self.info_positions@.len() && self.info_positions@[j] as int == p
    }

    /// The source word fed to the transform: information bits at
    /// their positions, zeros at the frozen positions.
    pub open spec fn u_vec_spec(self, info: Seq<u8>) -> Seq<u8> {
        Seq::new(
            self.n as nat,
            |p: int|
                if self.info_positions@.contains(p as usize) {
                    info[self.info_index_of(p)]
                } else {
                    0u8
                },
        )
    }

    /// What `encode` returns: the transform of the source word.
    pub open spec fn encode_spec(self, info: Seq<u8>) -> Seq<u8> {
        transform_spec(self.u_vec_spec(info), self.stages())
    }

    /// Positions already filled after placing the first `j`
    /// information bits.
    pub open spec fn placed(self, p: int, j: int) -> bool {
        exists|jj: int| 0 <= jj < j && self.info_positions@[jj] as int == p
    }

    /// Encodes `k` information bits into an `n`-bit codeword.
    pub fn encode(&self, info_bits: &[u8]) -> (cw: Vec<u8>)
        requires
            self.wf(),
            info_bits@.len() == self.k,
        ensures
            cw@ == self.encode_spec(info_bits@),
            cw@.len() == self.n,
    {
        let n: usize = self.n;
        let k: usize = self.k;
        let mut u: Vec<u8> = Vec::new();
        let mut z: usize = 0;
        while z < n
            invariant
                z <= n,
                u@.len() == z,
                forall|p: int| 0 <= p < z ==> u@[p] == 0u8,
            decreases n - z,
        {
            u.push(0u8);
            z += 1;
        }
        let mut j: usize = 0;
        while j < k
            invariant
                j <= k,
                self.wf(),
                n == self.n,
                k == self.k,
                info_bits@.len() == k,
                u@.len() == n,
                forall|p: int|
                    0 <= p < n ==> u@[p] == if self.placed(p, j as int) {
                        info_bits@[self.info_index_of(p)]
                    } else {
                        0u8
                    },
            decreases k - j,
        {
            let pos: usize = self.info_positions[j];
            proof {
                assert(self.is_info_pos(self.info_positions@[j as int] as int));
            }
            u[pos] = info_bits[j];
            proof {
                assert forall|p: int| 0 <= p < n implies u@[p] == (if self.placed(p, j + 1) {
                    info_bits@[self.info_index_of(p)]
                } else {
                    0u8
                }) by {
                    if p == pos as int {
                        assert(self.placed(p, j + 1));
                        let w = self.info_index_of(p);
                        assert(self.info_positions@[j as int] as int == p);
                        assert(0 <= w < self.info_positions@.len()
                            && self.info_positions@[w] as int == p);
                        lemma_strictly_increasing_unique(self.info_positions@, w, j as int);
                    } else {
                        if self.placed(p, j + 1) {
                            let jj = choose|jj: int|
                                0 <= jj < j + 1 && self.info_positions@[jj] as int == p;
                            assert(jj != j);
                            assert(self.placed(p, j as int));
                        }
                        if self.placed(p, j as int) {
                            assert(self.placed(p, j + 1));
                        }
                    }
                }
            }
            j += 1;
        }
        proof {
            assert forall|p: int| 0 <= p < n implies u@[p] == self.u_vec_spec(info_bits@)[p] by {
                if self.info_positions@.contains(p as usize) {
                    let w = choose|w: int|
                        0 <= w < self.info_positions@.len() && self.info_positions@[w] == p as usize;
                    assert(self.placed(p, k as int));
                } else {
                    if self.placed(p, k as int) {
                        let jj = choose|jj: int|
                            0 <= jj < k && self.info_positions@[jj] as int == p;
                        assert(self.info_positions@.contains(p as usize));
                    }
                }
            }
            assert(u@ =~= self.u_vec_spec(info_bits@));
        }
        self.polar_transform(u.as_slice())
    }

    /// Applies the `log2(n)` butterfly stages to an `n`-entry word.
    pub fn polar_transform(&self, u: &[u8]) -> (x: Vec<u8>)
        requires
            self.wf(),
            u@.len() == self.n,
        ensures
            x@ == transform_spec(u@, self.stages()),
            x@.len() == self.n,
    {
        let n: usize = u.len();
        proof {
            broadcast use vstd::arithmetic::power2::is_pow2_equiv;

            assert(vstd::arithmetic::power::pow(2, self.stages()) == n as int) by {
                vstd::arithmetic::power2::lemma_pow2(self.stages());
            }
            assert(vstd::arithmetic::power2::is_pow2_exists(n as int));
        }
        let m: u32 = log2_of_pow2(n);
        proof {
            lemma_lg_pow2(m as nat);
            assert(m as nat == self.stages());
        }
        let mut x: Vec<u8> = Vec::new();
        let mut z: usize = 0;
        while z < n
            invariant
                z <= n,
                n == u@.len(),
                x@ == u@.subrange(0, z as int),
            decreases n - z,
        {
            x.push(u[z]);
            proof {
                assert(x@ =~= u@.subrange(0, z + 1));
            }
            z += 1;
        }
        proof {
            assert(x@ =~= u@);
        }
        let mut stage: u32 = 0;
        let mut step: usize = 1;
        proof {
            vstd::arithmetic::power2::lemma2_to64();
        }
        while stage < m
            invariant
                stage <= m,
                m <= 30,
                step as nat == pow2(stage as nat),
                pow2(m as nat) == n as nat,
                n == u@.len(),
                x@.len() == n,
                x@ == transform_spec(u@, stage as nat),
            decreases m - stage,
        {
            proof {
                vstd::arithmetic::power2::lemma_pow2_pos(stage as nat);
                vstd::arithmetic::power2::lemma_pow2_adds((stage + 1) as nat, (m - stage - 1) as nat);
                vstd::arithmetic::power2::lemma_pow2_unfold((stage + 1) as nat);
                vstd::arithmetic::power2::lemma_pow2_pos((m - stage - 1) as nat);
                assert(2 * step as nat * pow2((m - stage - 1) as nat) == n as nat);
                assert(2 * step <= n) by (nonlinear_arith)
                    requires
                        2 * (step as nat) * pow2((m - stage - 1) as nat) == n as nat,
                        pow2((m - stage - 1) as nat) >= 1,
                        step >= 1,
                ;
            }
            let ghost d = pow2((m - stage - 1) as nat);
            let mut temp: Vec<u8> = Vec::new();
            let mut i: usize = 0;
            while i < n
                invariant
                    i <= n,
                    n == x@.len(),
                    step >= 1,
                    2 * step <= n,
                    2 * (step as nat) * d == n as nat,
                    temp@.len() == i,
                    forall|t: int| 0 <= t < i ==> temp@[t] == stage_xor(x@, step as nat)[t],
                decreases n - i,
            {
                let pos_in_group: usize = i % (2 * step);
                let val: u8 = if pos_in_group < step {
                    proof {
                        let s2 = 2 * step as int;
                        vstd::arithmetic::div_mod::lemma_fundamental_div_mod(i as int, s2);
                        let q = i as int / s2;
                        vstd::arithmetic::div_mod::lemma_div_pos_is_pos(i as int, s2);
                        assert(i + step < n) by (nonlinear_arith)
                            requires
                                i as int == s2 * q + pos_in_group,
                                0 <= pos_in_group < step,
                                s2 == 2 * step as int,
                                q >= 0,
                                step >= 1,
                                d >= 1,
                                s2 * (d as int) == n,
                                i < n,
                        ;
                    }
                    x[i] ^ x[i + step]
                } else {
                    x[i]
                };
                temp.push(val);
                i += 1;
            }
            proof {
                assert(temp@ =~= stage_xor(x@, step as nat));
            }
            x = temp;
            step = step * 2;
            stage += 1;
        }
        x
    }
}

/// The hard decision of a log-likelihood ratio: non-negative means
/// bit 0, negative means bit 1.
pub open spec fn hard_bit(llr: i64) -> u8 {
    if llr < 0 {
        1u8
    } else {
        0u8
    }
}

/// A channel value clipped to twenty log-likelihood units.
pub open spec fn clip_metric(llr: i64) -> int {
    if llr > LLR_CLIP {
        LLR_CLIP as int
    } else if llr < -LLR_CLIP {
        -(LLR_CLIP as int)
    } else {
        llr as int
    }
}

/// Path-metric contribution of deciding `bit` under channel value
/// `llr`: the clipped value scores bit 0, its negation scores bit 1.
pub open spec fn log_prob_spec(llr: i64, bit: u8) -> int {
    if bit == 0 {
        clip_metric(llr)
    } else {
        -clip_metric(llr)
    }
}

/// Computes the clipped decision metric.
fn log_prob(llr: i64, bit: u8) -> (r: i64)
    ensures
        r as int == log_prob_spec(llr, bit),
{
    let c: i64 = if llr > LLR_CLIP {
        LLR_CLIP
    } else if llr < -LLR_CLIP {
        -LLR_CLIP
    } else {
        llr
    };
    if bit == 0 {
        c
    } else {
        -c
    }
}

/// One candidate decoding in the list decoder: the bits decided so
/// far and the accumulated decision metric.
struct DecoderPath {
    /// Decided bits, one per processed position.
    bits: Vec<u8>,
    /// Sum of the decision metrics of those bits.
    metric: i64,
}

/// A fresh copy of a bit vector.
fn clone_bits(v: &Vec<u8>) -> (r: Vec<u8>)
    ensures
        r@ == v@,
{
    let n: usize = v.len();
    let mut r: Vec<u8> = Vec::new();
    let mut i: usize = 0;
    while i < n
        invariant
            i <= n,
            n == v@.len(),
            r@ == v@.subrange(0, i as int),
        decreases n - i,
    {
        r.push(v[i]);
        proof {
            assert(r@ =~= v@.subrange(0, i + 1));
        }
        i += 1;
    }
    proof {
        assert(r@ =~= v@);
    }
    r
}

/// Linear membership test on a position list.
fn contains_pos(v: &Vec<usize>, x: usize) -> (found: bool)
    ensures
        found == v@.contains(x),
{
    let n: usize = v.len();
    let mut i: usize = 0;
    while i < n
        invariant
            i <= n,
            n == v@.len(),
            forall|t: int| 0 <= t < i ==> v@[t] != x,
        decreases n - i,
    {
        if v[i] == x {
            return true;
        }
        i += 1;
    }
    false
}

/// The path coincides (in bits and metric) with some entry of `s`.
spec fn path_from(p: DecoderPath, s: Seq<DecoderPath>) -> bool {
    exists|b: int| 0 <= b < s.len() && p.bits@ == (#[trigger] s[b]).bits@ && p.metric == s[b].metric
}

/// Index `b` holds the maximum metric and every earlier index holds
/// a strictly smaller one.
spec fn is_first_max(s: Seq<DecoderPath>, b: int) -> bool {
    &&& 0 <= b < s.len()
    &&& forall|a: int| 0 <= a < s.len() ==> (#[trigger] s[a]).metric <= s[b].metric
    &&& forall|a: int| 0 <= a < b ==> (#[trigger] s[a]).metric < s[b].metric
}

/// The earliest maximum is unique.
proof fn lemma_first_max_unique(s: Seq<DecoderPath>, a: int, b: int)
    requires
        is_first_max(s, a),
        is_first_max(s, b),
    ensures
        a == b,
{
    if a < b {
        assert(s[a].metric < s[b].metric);
        assert(s[b].metric <= s[a].metric);
    }
    if b < a {
        assert(s[b].metric < s[a].metric);
        assert(s[a].metric <= s[b].metric);
    }
}

/// Finds the earliest index of maximum metric.
fn first_max_index(paths: &Vec<DecoderPath>) -> (b: usize)
    requires
        paths@.len() >= 1,
    ensures
        is_first_max(paths@, b as int),
{
    let n: usize = paths.len();
    let mut best: usize = 0;
    let mut a: usize = 1;
    while a < n
        invariant
            1 <= a <= n,
            best < a,
            n == paths@.len(),
            forall|t: int| 0 <= t < a ==> (#[trigger] paths@[t]).metric <= paths@[best as int].metric,
            forall|t: int| 0 <= t < best ==> (#[trigger] paths@[t]).metric < paths@[best as int].metric,
        decreases n - a,
    {
        if paths[a].metric > paths[best].metric {
            best = a;
        }
        a += 1;
    }
    best
}

/// Keeps the best `limit` paths, best metric first; the head of the
/// result is the earliest path of maximum metric.
fn prune_paths(paths: Vec<DecoderPath>, limit: usize) -> (kept: Vec<DecoderPath>)
    requires
        paths@.len() >= 1,
        limit >= 1,
    ensures
        kept@.len() == if limit <= paths@.len() {
            limit as int
        } else {
            paths@.len() as int
        },
        forall|a: int| 0 <= a < kept@.len() ==> path_from(#[trigger] kept@[a], paths@),
        forall|a: int| 0 <= a < kept@.len() ==> (#[trigger] kept@[a]).metric <= kept@[0].metric,
        exists|b: int|
            #[trigger] is_first_max(paths@, b) && kept@[0].bits@ == paths@[b].bits@
                && kept@[0].metric == paths@[b].metric,
{
    let ghost orig = paths@;
    let mut rest = paths;
    let mut kept: Vec<DecoderPath> = Vec::new();
    proof {
        assert forall|a: int| 0 <= a < rest@.len() implies path_from(#[trigger] rest@[a], orig) by {
            assert(0 <= a < orig.len() && rest@[a].bits@ == orig[a].bits@ && rest@[a].metric
                == orig[a].metric);
        }
    }
    while kept.len() < limit && rest.len() > 0
        invariant
            limit >= 1,
            kept@.len() <= limit,
            kept@.len() + rest@.len() == orig.len(),
            kept@.len() == 0 ==> rest@ == orig,
            forall|a: int| 0 <= a < rest@.len() ==> path_from(#[trigger] rest@[a], orig),
            forall|a: int| 0 <= a < kept@.len() ==> path_from(#[trigger] kept@[a], orig),
            kept@.len() >= 1 ==> exists|b: int|
                #[trigger] is_first_max(orig, b) && kept@[0].bits@ == orig[b].bits@
                    && kept@[0].metric == orig[b].metric,
            forall|a: int, b: int|
                0 <= a <= b < kept@.len() ==> (#[trigger] kept@[a]).metric >= (#[trigger] kept@[b]).metric,
            kept@.len() >= 1 ==> forall|a: int|
                0 <= a < rest@.len() ==> (#[trigger] rest@[a]).metric <= kept@[kept@.len() - 1].metric,
        decreases rest@.len(),
    {
        let bidx: usize = first_max_index(&rest);
        let ghost old_rest = rest@;
        let ghost old_kept = kept@;
        let p: DecoderPath = rest.remove(bidx);
        kept.push(p);
        proof {
            assert(kept@[kept@.len() - 1].bits@ == old_rest[bidx as int].bits@);
            assert forall|a: int| 0 <= a < rest@.len() implies path_from(
                #[trigger] rest@[a],
                orig,
            ) by {
                if a < bidx as int {
                    assert(rest@[a] == old_rest[a]);
                    assert(path_from(old_rest[a], orig));
                } else {
                    assert(rest@[a] == old_rest[a + 1]);
                    assert(path_from(old_rest[a + 1], orig));
                }
            }
            assert(path_from(old_rest[bidx as int], orig));
            if old_kept.len() == 0 {
                assert(is_first_max(orig, bidx as int));
            }
            assert forall|a: int| 0 <= a < rest@.len() implies (#[trigger] rest@[a]).metric
                <= kept@[kept@.len() - 1].metric by {
                if a < bidx as int {
                    assert(old_rest[a].metric <= old_rest[bidx as int].metric);
                } else {
                    assert(old_rest[a + 1].metric <= old_rest[bidx as int].metric);
                }
            }
        }
    }
    kept
}

impl PolarCode {
    /// The decision the list decoder makes at position `i`: zero at a
    /// frozen position, otherwise the hard decision of the channel
    /// value there.
    pub open spec fn sc_bit(self, llrs: Seq<i64>, i: int) -> u8 {
        if self.is_info_pos(i) {
            hard_bit(llrs[i])
        } else {
            0u8
        }
    }

    /// The decisions over the first `len` positions.
    pub open spec fn sc_path_prefix(self, llrs: Seq<i64>, len: int) -> Seq<u8> {
        Seq::new(len as nat, |i: int| self.sc_bit(llrs, i))
    }

    /// What list decoding returns: the hard decision of the channel
    /// value at each information position, in increasing position
    /// order.
    pub open spec fn scl_decode_spec(self, llrs: Seq<i64>) -> Seq<u8> {
        Seq::new(self.k as nat, |j: int| hard_bit(llrs[self.info_positions@[j] as int]))
    }

    /// The per-bit channel value used by the list decoder.  The
    /// decision metric reads the raw channel value at the position
    /// and does not propagate beliefs through the transform tree.
    fn compute_llr_for_bit(&self, llrs: &[i64], bit_idx: usize) -> (r: i64)
        requires
            bit_idx < llrs@.len(),
        ensures
            r == llrs@[bit_idx as int],
    {
        llrs[bit_idx]
    }

    /// Successive-cancellation list decoding: maintains up to
    /// `list_size` candidate paths, forks each at every information
    /// position, keeps the best by accumulated metric, and returns
    /// the information bits of the best surviving path.
    pub fn decode_scl(&self, llrs: &[i64], list_size: usize) -> (info: Vec<u8>)
        requires
            self.wf(),
            llrs@.len() == self.n,
            list_size >= 1,
        ensures
            info@ == self.scl_decode_spec(llrs@),
            info@.len() == self.k,
    {
        let n: usize = self.n;
        let mut paths: Vec<DecoderPath> = Vec::new();
        paths.push(DecoderPath { bits: Vec::new(), metric: 0i64 });
        let mut i: usize = 0;
        while i < n
            invariant
                i <= n,
                self.wf(),
                n == self.n,
                llrs@.len() == n,
                list_size >= 1,
                paths@.len() >= 1,
                forall|a: int| 0 <= a < paths@.len() ==> (#[trigger] paths@[a]).bits@.len() == i as int,
                forall|a: int|
                    0 <= a < paths@.len() ==> (#[trigger] paths@[a]).metric <= paths@[0].metric,
                forall|a: int|
                    0 <= a < paths@.len() ==> -(i as int) * (LLR_CLIP as int)
                        <= (#[trigger] paths@[a]).metric <= (i as int) * (LLR_CLIP as int),
                paths@[0].bits@ == self.sc_path_prefix(llrs@, i as int),
            decreases n - i,
        {
            let llr_i: i64 = self.compute_llr_for_bit(llrs, i);
            let frozen: bool = contains_pos(&self.frozen_positions, i);
            proof {
                if frozen {
                    let w = choose|w: int|
                        0 <= w < self.frozen_positions@.len() && self.frozen_positions@[w]
                            == i as usize;
                    assert(!self.is_info_pos(self.frozen_positions@[w] as int));
                } else {
                    if !self.is_info_pos(i as int) {
                        assert(self.frozen_positions@.contains(i as usize));
                    }
                }
                assert(frozen == !self.is_info_pos(i as int));
                assert((i as int + 1) * (LLR_CLIP as int) <= 0x4000_0000 * (LLR_CLIP as int))
                    by (nonlinear_arith)
                    requires
                        0 <= i as int + 1 <= 0x4000_0000,
                        LLR_CLIP > 0,
                ;
                assert((i as int) * (LLR_CLIP as int) + LLR_CLIP == (i as int + 1) * (
                LLR_CLIP as int)) by (nonlinear_arith);
            }
            let lp0: i64 = log_prob(llr_i, 0);
            let lp1: i64 = log_prob(llr_i, 1);
            let ghost fan: int = if frozen {
                1int
            } else {
                2int
            };
            let mut new_paths: Vec<DecoderPath> = Vec::new();
            let mut a: usize = 0;
            while a < paths.len()
                invariant
                    0 <= a <= paths@.len(),
                    i < n,
                    n == self.n,
                    self.wf(),
                    llrs@.len() == n,
                    fan == if frozen {
                        1int
                    } else {
                        2int
                    },
                    lp0 as int == log_prob_spec(llr_i, 0),
                    lp1 as int == log_prob_spec(llr_i, 1),
                    forall|t: int|
                        0 <= t < paths@.len() ==> (#[trigger] paths@[t]).bits@.len() == i as int,
                    forall|t: int|
                        0 <= t < paths@.len() ==> -(i as int) * (LLR_CLIP as int)
                            <= (#[trigger] paths@[t]).metric <= (i as int) * (LLR_CLIP as int),
                    new_paths@.len() == fan * a,
                    forall|t: int|
                        0 <= t < new_paths@.len() ==> (#[trigger] new_paths@[t]).bits@
                            == paths@[t / fan].bits@.push(if frozen {
                            0u8
                        } else {
                            (t % 2) as u8
                        }),
                    forall|t: int|
                        0 <= t < new_paths@.len() ==> (#[trigger] new_paths@[t]).metric as int
                            == paths@[t / fan].metric + (if frozen || t % 2 == 0 {
                            log_prob_spec(llr_i, 0)
                        } else {
                            log_prob_spec(llr_i, 1)
                        }),
                decreases paths@.len() - a,
            {
                proof {
                    assert((i as int) * (LLR_CLIP as int) + LLR_CLIP == (i as int + 1) * (
                    LLR_CLIP as int)) by (nonlinear_arith);
                    assert((i as int + 1) * (LLR_CLIP as int) <= 0x4000_0000 * (LLR_CLIP as int))
                        by (nonlinear_arith)
                        requires
                            0 <= i as int + 1 <= 0x4000_0000,
                            LLR_CLIP > 0,
                    ;
                }
                let parent_bits: Vec<u8> = clone_bits(&paths[a].bits);
                let parent_metric: i64 = paths[a].metric;
                let mut child0_bits: Vec<u8> = parent_bits;
                child0_bits.push(0u8);
                let child0 = DecoderPath { bits: child0_bits, metric: parent_metric + lp0 };
                new_paths.push(child0);
                if !frozen {
                    let mut child1_bits: Vec<u8> = clone_bits(&paths[a].bits);
                    child1_bits.push(1u8);
                    let child1 = DecoderPath { bits: child1_bits, metric: parent_metric + lp1 };
                    new_paths.push(child1);
                }
                proof {
                    assert forall|t: int| 0 <= t < new_paths@.len() implies (#[trigger] new_paths@[t]).bits@
                        == paths@[t / fan].bits@.push(if frozen {
                        0u8
                    } else {
                        (t % 2) as u8
                    }) by {
                        if t < fan * a {
                        } else {
                            if frozen {
                                assert(t == a);
                                assert(t / fan == a);
                            } else {
                                assert(t == 2 * a || t == 2 * a + 1);
                                assert(t / 2 == a && (t % 2 == 0 <==> t == 2 * a)) by (nonlinear_arith)
                                    requires
                                        t == 2 * a || t == 2 * a + 1,
                                        a >= 0,
                                ;
                            }
                        }
                    }
                    assert forall|t: int| 0 <= t < new_paths@.len() implies (#[trigger] new_paths@[t]).metric as int
                        == paths@[t / fan].metric + (if frozen || t % 2 == 0 {
                        log_prob_spec(llr_i, 0)
                    } else {
                        log_prob_spec(llr_i, 1)
                    }) by {
                        if t >= fan * a {
                            if frozen {
                                assert(t == a && t / fan == a);
                            } else {
                                assert(t == 2 * a || t == 2 * a + 1);
                                assert(t / 2 == a && (t % 2 == 0 <==> t == 2 * a)) by (nonlinear_arith)
                                    requires
                                        t == 2 * a || t == 2 * a + 1,
                                        a >= 0,
                                ;
                            }
                        }
                    }
                }
                a += 1;
            }
            let ghost forked = new_paths@;
            let ghost bstar: int = if frozen || llr_i >= 0 {
                0int
            } else {
                1int
            };
            proof {
                // The head path's preferred child is the earliest
                // maximum among all forked paths.
                assert(paths@[0].metric <= paths@[0].metric);
                assert(forked.len() >= 1);
                assert forall|t: int| 0 <= t < forked.len() implies (#[trigger] forked[t]).metric
                    <= forked[bstar].metric by {
                    assert(paths@[t / fan].metric <= paths@[0].metric);
                    if frozen {
                        assert(forked[t].metric as int == paths@[t / fan].metric + log_prob_spec(
                            llr_i,
                            0,
                        ));
                    } else if llr_i >= 0 {
                        assert(log_prob_spec(llr_i, 1) <= log_prob_spec(llr_i, 0));
                    } else {
                        assert(log_prob_spec(llr_i, 0) < log_prob_spec(llr_i, 1));
                    }
                }
                if bstar == 1 {
                    assert(forked[0].metric < forked[1].metric);
                }
                assert(is_first_max(forked, bstar));
            }
            let pruned: Vec<DecoderPath> = prune_paths(new_paths, list_size);
            paths = pruned;
            proof {
                let b0 = choose|b: int|
                    #[trigger] is_first_max(forked, b) && paths@[0].bits@ == forked[b].bits@
                        && paths@[0].metric == forked[b].metric;
                lemma_first_max_unique(forked, b0, bstar);
                assert(paths@[0].bits@ == forked[bstar].bits@);
                let ghost prev_prefix = self.sc_path_prefix(llrs@, i as int);
                assert(forked[bstar].bits@ == prev_prefix.push(self.sc_bit(llrs@, i as int))) by {
                    assert(bstar / fan == 0) by (nonlinear_arith)
                        requires
                            0 <= bstar < fan,
                            fan >= 1,
                    ;
                    if frozen {
                        assert(self.sc_bit(llrs@, i as int) == 0u8);
                    } else {
                        assert(self.sc_bit(llrs@, i as int) == hard_bit(llrs@[i as int]));
                        if llr_i >= 0 {
                            assert(bstar % 2 == 0);
                        } else {
                            assert(bstar % 2 == 1);
                        }
                    }
                }
                assert(paths@[0].bits@ =~= self.sc_path_prefix(llrs@, i + 1));
                assert forall|t: int| 0 <= t < paths@.len() implies (#[trigger] paths@[t]).bits@.len()
                    == i + 1 && -(i as int + 1) * (LLR_CLIP as int) <= paths@[t].metric <= (
                i as int + 1) * (LLR_CLIP as int) by {
                    assert(path_from(paths@[t], forked));
                    let b = choose|b: int|
                        0 <= b < forked.len() && paths@[t].bits@ == (#[trigger] forked[b]).bits@
                            && paths@[t].metric == forked[b].metric;
                    assert(forked[b].bits@.len() == i + 1);
                    assert((i as int) * (LLR_CLIP as int) + LLR_CLIP == (i as int + 1) * (
                    LLR_CLIP as int)) by (nonlinear_arith);
                }
            }
            i += 1;
        }
        // Extract the information bits of the best path.
        let kk: usize = self.info_positions.len();
        proof {
            assert(kk == self.k);
        }
        let mut info: Vec<u8> = Vec::new();
        let mut j: usize = 0;
        while j < kk
            invariant
                j <= kk,
                kk == self.k,
                self.wf(),
                llrs@.len() == self.n,
                paths@.len() >= 1,
                paths@[0].bits@ == self.sc_path_prefix(llrs@, self.n as int),
                info@.len() == j,
                forall|t: int|
                    0 <= t < j ==> info@[t] == hard_bit(llrs@[self.info_positions@[t] as int]),
            decreases kk - j,
        {
            let pos: usize = self.info_positions[j];
            proof {
                assert(self.is_info_pos(self.info_positions@[j as int] as int));
                assert(self.sc_bit(llrs@, pos as int) == hard_bit(llrs@[pos as int]));
            }
            let b: u8 = paths[0].bits[pos];
            info.push(b);
            j += 1;
        }
        proof {
            assert(info@ =~= self.scl_decode_spec(llrs@));
        }
        info
    }

    /// Successive-cancellation decoding: list decoding with a single
    /// path.
    pub fn decode_sc(&self, llrs: &[i64]) -> (info: Vec<u8>)
        requires
            self.wf(),
            llrs@.len() == self.n,
        ensures
            info@ == self.scl_decode_spec(llrs@),
            info@.len() == self.k,
    {
        self.decode_scl(llrs, 1)
    }
}

/// Converts soft bit confidences to log-likelihood ratios by the
/// fixed gain of four (two over an assumed noise variance of one
/// half).
pub fn soft_bits_to_llrs(soft_bits: &[i64]) -> (llrs: Vec<i64>)
    requires
        forall|t: int|
            0 <= t < soft_bits@.len() ==> -(i64::MAX / 4) <= #[trigger] soft_bits@[t] <= i64::MAX
                / 4,
    ensures
        llrs@.len() == soft_bits@.len(),
        forall|t: int|
            0 <= t < llrs@.len() ==> #[trigger] llrs@[t] as int == 4 * (soft_bits@[t] as int),
{
    let n: usize = soft_bits.len();
    let mut llrs: Vec<i64> = Vec::new();
    let mut i: usize = 0;
    while i < n
        invariant
            i <= n,
            n == soft_bits@.len(),
            forall|t: int|
                0 <= t < n ==> -(i64::MAX / 4) <= #[trigger] soft_bits@[t] <= i64::MAX / 4,
            llrs@.len() == i,
            forall|t: int|
                0 <= t < i ==> #[trigger] llrs@[t] as int == 4 * (soft_bits@[t] as int),
        decreases n - i,
    {
        llrs.push(4 * soft_bits[i]);
        i += 1;
    }
    llrs
}

/// Signs hard symbols with their confidences: a symbol of zero keeps
/// the confidence positive, a symbol of one negates it.
pub fn compute_soft_bits(symbols: &[u8], confidences: &[i64]) -> (soft: Vec<i64>)
    requires
        symbols@.len() == confidences@.len(),
        forall|t: int| 0 <= t < confidences@.len() ==> #[trigger] confidences@[t] > i64::MIN,
    ensures
        soft@.len() == symbols@.len(),
        forall|t: int|
            0 <= t < soft@.len() ==> #[trigger] soft@[t] as int == if symbols@[t] == 0 {
                confidences@[t] as int
            } else {
                -(confidences@[t] as int)
            },
{
    let n: usize = symbols.len();
    let mut soft: Vec<i64> = Vec::new();
    let mut i: usize = 0;
    while i < n
        invariant
            i <= n,
            n == symbols@.len(),
            n == confidences@.len(),
            forall|t: int| 0 <= t < n ==> #[trigger] confidences@[t] > i64::MIN,
            soft@.len() == i,
            forall|t: int|
                0 <= t < i ==> #[trigger] soft@[t] as int == if symbols@[t] == 0 {
                    confidences@[t] as int
                } else {
                    -(confidences@[t] as int)
                },
        decreases n - i,
    {
        if symbols[i] == 0 {
            soft.push(confidences[i]);
        } else {
            soft.push(-confidences[i]);
        }
        i += 1;
    }
    soft
}

/// Entry `i + step` of a butterfly pair stays inside a block whose
/// length is a multiple of `2 * step`.
pub(crate) proof fn lemma_butterfly_pair_in_range(i: int, step: nat, d: nat, len: nat)
    requires
        step >= 1,
        2 * step * d == len,
        0 <= i < len,
        i % (2 * step as int) < step as int,
    ensures
        i + step < len,
{
    let s2 = 2 * step as int;
    vstd::arithmetic::div_mod::lemma_fundamental_div_mod(i, s2);
    vstd::arithmetic::div_mod::lemma_div_pos_is_pos(i, s2);
    let q = i / s2;
    assert(i + step < len) by (nonlinear_arith)
        requires
            i == s2 * q + (i % s2),
            0 <= i % s2 < step,
            s2 == 2 * step as int,
            q >= 0,
            step >= 1,
            d >= 1 || d == 0,
            s2 * (d as int) == len,
            i < len,
    ;
}

/// The butterfly transform maps the all-zero word to itself.
pub proof fn lemma_transform_zero(x: Seq<u8>, m: nat, stages: nat)
    requires
        x.len() == pow2(m),
        stages <= m,
        forall|i: int| 0 <= i < x.len() ==> x[i] == 0u8,
    ensures
        transform_spec(x, stages).len() == x.len(),
        forall|i: int| 0 <= i < x.len() ==> transform_spec(x, stages)[i] == 0u8,
    decreases stages,
{
    if stages > 0 {
        let prev = transform_spec(x, (stages - 1) as nat);
        lemma_transform_zero(x, m, (stages - 1) as nat);
        let step = pow2((stages - 1) as nat);
        vstd::arithmetic::power2::lemma_pow2_pos((stages - 1) as nat);
        vstd::arithmetic::power2::lemma_pow2_adds(stages, (m - stages) as nat);
        vstd::arithmetic::power2::lemma_pow2_unfold(stages);
        vstd::arithmetic::power2::lemma_pow2_pos((m - stages) as nat);
        let d = pow2((m - stages) as nat);
        assert(2 * step * d == x.len());
        assert forall|i: int| 0 <= i < x.len() implies transform_spec(x, stages)[i] == 0u8 by {
            if i % (2 * step as int) < step as int {
                lemma_butterfly_pair_in_range(i, step, d, x.len());
                assert(prev[i] == 0u8 && prev[i + step] == 0u8);
                assert(0u8 ^ 0u8 == 0u8) by (bit_vector);
            }
        }
    }
}

/// Clean-channel round trip for successive-cancellation (list)
/// decoding.  The decoder reads the raw channel value at each
/// position, so decoding recovers the message exactly on those
/// inputs where the codeword carries the message bits unchanged at
/// the information positions; the all-zero message is such an input
/// for every valid code.
pub proof fn lemma_clean_channel_roundtrip(code: PolarCode, info: Seq<u8>, llrs: Seq<i64>)
    requires
        code.wf(),
        info.len() == code.k,
        forall|j: int| 0 <= j < info.len() ==> #[trigger] info[j] <= 1,
        llrs.len() == code.n,
        forall|p: int|
            0 <= p < code.n ==> ((#[trigger] llrs[p] >= 0) <==> code.encode_spec(info)[p] == 0),
        forall|j: int|
            0 <= j < code.k ==> #[trigger] code.encode_spec(info)[code.info_positions@[j] as int]
                == info[j],
    ensures
        code.scl_decode_spec(llrs) == info,
{
    assert forall|j: int| 0 <= j < code.k implies code.scl_decode_spec(llrs)[j] == info[j] by {
        assert(code.is_info_pos(code.info_positions@[j] as int));
        let p = code.info_positions@[j] as int;
        assert(code.encode_spec(info)[p] == info[j]);
        if info[j] == 0 {
            assert(llrs[p] >= 0);
        } else {
            assert(info[j] == 1);
            assert(!(llrs[p] >= 0));
        }
    }
    assert(code.scl_decode_spec(llrs) =~= info);
}

/// The all-zero message encodes to the all-zero codeword, so its
/// clean-channel round trip holds unconditionally.
pub proof fn lemma_zero_message_roundtrip(code: PolarCode, llrs: Seq<i64>)
    requires
        code.wf(),
        llrs.len() == code.n,
        forall|p: int| 0 <= p < code.n ==> #[trigger] llrs[p] >= 0,
    ensures
        code.scl_decode_spec(llrs) == Seq::new(code.k as nat, |j: int| 0u8),
{
    let zero_info = Seq::new(code.k as nat, |j: int| 0u8);
    let u = code.u_vec_spec(zero_info);
    assert forall|p: int| 0 <= p < u.len() implies u[p] == 0u8 by {
        if code.info_positions@.contains(p as usize) {
            let w = code.info_index_of(p);
            assert(0 <= w < code.k);
        }
    }
    lemma_transform_zero(u, code.stages(), code.stages());
    lemma_clean_channel_roundtrip(code, zero_info, llrs);
}

/// The exponent of a power of two.
pub(crate) fn log2_of_pow2(n: usize) -> (m: u32)
    requires
        vstd::arithmetic::power2::is_pow2(n as int),
        n <= MAX_CODE_LEN,
    ensures
        pow2(m as nat) == n as nat,
        m < usize::BITS,
        m <= 30,
{
    proof {
        reveal(vstd::arithmetic::power2::is_pow2);
    }
    let mut v: usize = n;
    let mut m: u32 = 0;
    proof {
        vstd::arithmetic::power2::lemma2_to64();
    }
    while v > 1
        invariant
            v >= 1,
            vstd::arithmetic::power2::is_pow2(v as int),
            (v as nat) * pow2(m as nat) == n as nat,
            pow2(m as nat) <= n as nat,
            n <= MAX_CODE_LEN,
            m <= 30,
        decreases v,
    {
        proof {
            reveal(vstd::arithmetic::power2::is_pow2);
            vstd::arithmetic::power2::lemma_pow2_unfold((m + 1) as nat);
            assert((v as nat / 2) * (2 * pow2(m as nat)) == (v as nat) * pow2(m as nat))
                by (nonlinear_arith)
                requires
                    v as int % 2 == 0,
                    v >= 2,
            ;
            assert(pow2((m + 1) as nat) <= n as nat) by (nonlinear_arith)
                requires
                    (v as nat / 2) * pow2((m + 1) as nat) == n as nat,
                    v as nat / 2 >= 1,
                    pow2((m + 1) as nat) >= 0,
            ;
            assert(pow2(30) == 0x40000000) by {
                vstd::arithmetic::power2::lemma2_to64();
            }
            if m + 1 > 30 {
                vstd::arithmetic::power2::lemma_pow2_strictly_increases(30, (m + 1) as nat);
            }
        }
        v = v / 2;
        m = m + 1;
    }
    m
}

} // verus!
