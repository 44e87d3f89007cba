//! Belief-propagation decoding of the polar code: iterative min-sum
//! message passing over the same butterfly factor graph that the
//! encoder's transform implements, with leftward (channel-to-bit) and
//! rightward (bit-to-channel) message arrays per stage.
//!
//! All messages are fixed-point values; additions saturate at
//! `BP_CAP`, mirroring the clamping that keeps the log-likelihood
//! arithmetic from overflowing.

use vstd::prelude::*;

verus! {

use vstd::arithmetic::power2::pow2;
use crate::bits::rev_bits;
use crate::polar::lg;
use crate::polar::MAX_CODE_LEN;
use crate::polar::PolarCode;
use crate::polar::lemma_butterfly_pair_in_range;
use crate::polar::lemma_lg_pow2;
use crate::polar::log2_of_pow2;

/// Saturation bound of all message arithmetic.
pub const BP_CAP: i64 = 2_000_000_000;

/// Prior placed at a frozen position: a very strong belief in zero.
pub const FROZEN_PRIOR: i64 = 1_000_000_000;

/// The sign of a message, counting zero as positive.
pub open spec fn sign_of(x: i64) -> int {
    if x >= 0 {
        1
    } else {
        -1
    }
}

/// The magnitude of a message.
pub open spec fn abs_of(x: i64) -> int {
    if x >= 0 {
        x as int
    } else {
        -(x as int)
    }
}

/// Min-sum approximation of the check-node update:
/// `sign(a) * sign(b) * min(|a|, |b|)`.
pub open spec fn min_sum_spec(a: i64, b: i64) -> i64 {
    (sign_of(a) * sign_of(b) * (if abs_of(a) <= abs_of(b) {
        abs_of(a)
    } else {
        abs_of(b)
    })) as i64
}

/// Saturating addition of two messages.
pub open spec fn cap_add(a: i64, b: i64) -> i64 {
    let s = a as int + b as int;
    if s > BP_CAP as int {
        BP_CAP
    } else if s < -(BP_CAP as int) {
        (-(BP_CAP as int)) as i64
    } else {
        s as i64
    }
}

/// Every entry within the saturation bound.
pub open spec fn all_capped(s: Seq<i64>) -> bool {
    forall|i: int| 0 <= i < s.len() ==> -BP_CAP <= #[trigger] s[i] <= BP_CAP
}

/// Each level has `n` entries, all within the saturation bound.
pub open spec fn levels_capped(ss: Seq<Seq<i64>>, n: nat) -> bool {
    forall|s: int| 0 <= s < ss.len() ==> (#[trigger] ss[s]).len() == n && all_capped(ss[s])
}

/// Forward (leftward) update of one butterfly stage with pair
/// distance `stride`: the upper half of each block takes the min-sum
/// of its own message and the lower pair's combined belief, the lower
/// half adds the min-sum of the upper pair to its own message.
pub open spec fn bp_stage_fwd(l_s: Seq<i64>, r_s1: Seq<i64>, stride: nat) -> Seq<i64> {
    Seq::new(
        l_s.len(),
        |i: int|
            if i % (2 * stride as int) < stride as int {
                min_sum_spec(l_s[i], cap_add(l_s[i + stride], r_s1[i + stride]))
            } else {
                cap_add(min_sum_spec(l_s[i - stride], r_s1[i - stride]), l_s[i])
            },
    )
}

/// Backward (rightward) update of one butterfly stage, the symmetric
/// rule with the message roles swapped.
pub open spec fn bp_stage_bwd(r_s1: Seq<i64>, l_s: Seq<i64>, stride: nat) -> Seq<i64> {
    Seq::new(
        r_s1.len(),
        |i: int|
            if i % (2 * stride as int) < stride as int {
                min_sum_spec(r_s1[i], cap_add(l_s[i + stride], r_s1[i + stride]))
            } else {
                cap_add(min_sum_spec(r_s1[i - stride], l_s[i - stride]), r_s1[i])
            },
    )
}

/// The leftward message levels after the forward passes of stages
/// `0 .. s`: level `t + 1` is rewritten from level `t` with pair
/// distance `pow2(t)`, in increasing stage order.
pub open spec fn bp_fwd_pass(l: Seq<Seq<i64>>, r: Seq<Seq<i64>>, s: nat) -> Seq<Seq<i64>>
    decreases s,
{
    if s == 0 {
        l
    } else {
        let prev = bp_fwd_pass(l, r, (s - 1) as nat);
        prev.update(s as int, bp_stage_fwd(prev[s as int - 1], r[s as int], pow2((s - 1) as nat)))
    }
}

/// The rightward message levels after the backward passes of the top
/// `t` stages: level `stages - t` is rewritten last, in decreasing
/// stage order, each from the level above it.
pub open spec fn bp_bwd_pass(l: Seq<Seq<i64>>, r: Seq<Seq<i64>>, t: nat, stages: nat) -> Seq<
    Seq<i64>,
>
    decreases t,
{
    if t == 0 {
        r
    } else {
        let prev = bp_bwd_pass(l, r, (t - 1) as nat, stages);
        let idx = stages - t;
        prev.update(
            idx as int,
            bp_stage_bwd(prev[idx as int + 1], l[idx as int], pow2(idx as nat)),
        )
    }
}

/// The message state after `iters` full iterations, each one forward
/// pass followed by one backward pass.
pub open spec fn bp_iterate(l: Seq<Seq<i64>>, r: Seq<Seq<i64>>, stages: nat, iters: nat) -> (
    Seq<Seq<i64>>,
    Seq<Seq<i64>>,
)
    decreases iters,
{
    if iters == 0 {
        (l, r)
    } else {
        let prev = bp_iterate(l, r, stages, (iters - 1) as nat);
        let l2 = bp_fwd_pass(prev.0, prev.1, stages);
        let r2 = bp_bwd_pass(l2, prev.1, stages, stages);
        (l2, r2)
    }
}

/// A level of zero messages.
pub open spec fn zero_level(n: nat) -> Seq<i64> {
    Seq::new(n, |i: int| 0i64)
}

/// The prior level: a strong zero-belief at frozen positions, no
/// prior elsewhere.
pub open spec fn prior_level(frozen: Seq<bool>) -> Seq<i64> {
    Seq::new(
        frozen.len(),
        |i: int|
            if frozen[i] {
                FROZEN_PRIOR
            } else {
                0i64
            },
    )
}

/// Initial leftward messages: the channel values at level zero and,
/// until the first forward pass rewrites it, at the top level too —
/// so that with no propagation at all the decision stage still reads
/// the channel plus the priors.  The levels between start at zero.
pub open spec fn bp_init_l(llrs: Seq<i64>, stages: nat) -> Seq<Seq<i64>> {
    Seq::new(
        stages + 1,
        |s: int|
            if s == 0 || s == stages {
                llrs
            } else {
                zero_level(llrs.len())
            },
    )
}

/// Initial rightward messages: the priors at the top level, zeros
/// below.
pub open spec fn bp_init_r(frozen: Seq<bool>, stages: nat) -> Seq<Seq<i64>> {
    Seq::new(
        stages + 1,
        |s: int|
            if s == stages {
                prior_level(frozen)
            } else {
                zero_level(frozen.len())
            },
    )
}

/// What `decode_bp` returns: the combined belief at the top level
/// after the configured number of iterations.
pub open spec fn bp_decode_spec(llrs: Seq<i64>, frozen: Seq<bool>, stages: nat, iters: nat) -> Seq<
    i64,
> {
    let lr = bp_iterate(bp_init_l(llrs, stages), bp_init_r(frozen, stages), stages, iters);
    Seq::new(llrs.len(), |i: int| cap_add(lr.0[stages as int][i], lr.1[stages as int][i]))
}

/// Saturating addition, executed.
fn cap_add_exec(a: i64, b: i64) -> (r: i64)
    requires
        -BP_CAP <= a <= BP_CAP,
        -BP_CAP <= b <= BP_CAP,
    ensures
        r == cap_add(a, b),
        -BP_CAP <= r <= BP_CAP,
{
    let s: i64 = a + b;
    if s > BP_CAP {
        BP_CAP
    } else if s < -BP_CAP {
        -BP_CAP
    } else {
        s
    }
}

/// Min-sum check-node update, executed; zero counts as positive.
fn min_sum(a: i64, b: i64) -> (r: i64)
    requires
        -BP_CAP <= a <= BP_CAP,
        i64::MIN < b,
    ensures
        r == min_sum_spec(a, b),
        -BP_CAP <= r <= BP_CAP,
{
    let sign_a: i64 = if a >= 0 {
        1
    } else {
        -1
    };
    let sign_b: i64 = if b >= 0 {
        1
    } else {
        -1
    };
    let abs_a: i64 = if a >= 0 {
        a
    } else {
        -a
    };
    let abs_b: i64 = if b >= 0 {
        b
    } else {
        -b
    };
    let min_abs: i64 = if abs_a <= abs_b {
        abs_a
    } else {
        abs_b
    };
    sign_a * sign_b * min_abs
}

/// One forward stage, executed over vectors.
fn bp_stage_forward(l_s: &Vec<i64>, r_s1: &Vec<i64>, stride: usize, Ghost(d): Ghost<nat>) -> (out: Vec<i64>)
    requires
        stride >= 1,
        2 * stride * d == l_s@.len(),
        r_s1@.len() == l_s@.len(),
        all_capped(l_s@),
        all_capped(r_s1@),
    ensures
        out@ == bp_stage_fwd(l_s@, r_s1@, stride as nat),
        out@.len() == l_s@.len(),
        all_capped(out@),
{
    let n: usize = l_s.len();
    let mut out: Vec<i64> = Vec::new();
    let mut i: usize = 0;
    while i < n
        invariant
            i <= n,
            n == l_s@.len(),
            n == r_s1@.len(),
            stride >= 1,
            2 * stride * d == n as nat,
            all_capped(l_s@),
            all_capped(r_s1@),
            out@.len() == i,
            forall|t: int| 0 <= t < i ==> out@[t] == bp_stage_fwd(l_s@, r_s1@, stride as nat)[t],
            all_capped(out@),
        decreases n - i,
    {
        proof {
            assert(2 * stride <= n) by (nonlinear_arith)
                requires
                    2 * (stride as nat) * d == n as nat,
                    stride >= 1,
                    i < n,
            ;
        }
        let block: usize = 2 * stride;
        let pos: usize = i % block;
        let v: i64 = if pos < stride {
            proof {
                lemma_butterfly_pair_in_range(i as int, stride as nat, d, n as nat);
            }
            min_sum(l_s[i], cap_add_exec(l_s[i + stride], r_s1[i + stride]))
        } else {
            proof {
                vstd::arithmetic::div_mod::lemma_mod_decreases(i as nat, block as nat);
            }
            cap_add_exec(min_sum(l_s[i - stride], r_s1[i - stride]), l_s[i])
        };
        out.push(v);
        i += 1;
    }
    proof {
        assert(out@ =~= bp_stage_fwd(l_s@, r_s1@, stride as nat));
    }
    out
}

/// One backward stage, executed over vectors.
fn bp_stage_backward(r_s1: &Vec<i64>, l_s: &Vec<i64>, stride: usize, Ghost(d): Ghost<nat>) -> (out: Vec<i64>)
    requires
        stride >= 1,
        2 * stride * d == r_s1@.len(),
        l_s@.len() == r_s1@.len(),
        all_capped(r_s1@),
        all_capped(l_s@),
    ensures
        out@ == bp_stage_bwd(r_s1@, l_s@, stride as nat),
        out@.len() == r_s1@.len(),
        all_capped(out@),
{
    let n: usize = r_s1.len();
    let mut out: Vec<i64> = Vec::new();
    let mut i: usize = 0;
    while i < n
        invariant
            i <= n,
            n == r_s1@.len(),
            n == l_s@.len(),
            stride >= 1,
            2 * stride * d == n as nat,
            all_capped(r_s1@),
            all_capped(l_s@),
            out@.len() == i,
            forall|t: int| 0 <= t < i ==> out@[t] == bp_stage_bwd(r_s1@, l_s@, stride as nat)[t],
            all_capped(out@),
        decreases n - i,
    {
        proof {
            assert(2 * stride <= n) by (nonlinear_arith)
                requires
                    2 * (stride as nat) * d == n as nat,
                    stride >= 1,
                    i < n,
            ;
        }
        let block: usize = 2 * stride;
        let pos: usize = i % block;
        let v: i64 = if pos < stride {
            proof {
                lemma_butterfly_pair_in_range(i as int, stride as nat, d, n as nat);
            }
            min_sum(r_s1[i], cap_add_exec(l_s[i + stride], r_s1[i + stride]))
        } else {
            proof {
                vstd::arithmetic::div_mod::lemma_mod_decreases(i as nat, block as nat);
            }
            cap_add_exec(min_sum(r_s1[i - stride], l_s[i - stride]), r_s1[i])
        };
        out.push(v);
        i += 1;
    }
    proof {
        assert(out@ =~= bp_stage_bwd(r_s1@, l_s@, stride as nat));
    }
    out
}

/// The element views of a vector of message vectors.
pub open spec fn views_of(v: Seq<Vec<i64>>) -> Seq<Seq<i64>> {
    Seq::new(v.len(), |i: int| v[i]@)
}

/// Updating one entry commutes with taking views.
proof fn lemma_views_update(v_old: Seq<Vec<i64>>, v_new: Seq<Vec<i64>>, idx: int, x: Vec<i64>)
    requires
        0 <= idx < v_old.len(),
        v_new == v_old.update(idx, x),
    ensures
        views_of(v_new) == views_of(v_old).update(idx, x@),
{
    assert(views_of(v_new) =~= views_of(v_old).update(idx, x@));
}

/// A fresh copy of the channel values.
fn copy_channel(v: &[i64]) -> (r: Vec<i64>)
    ensures
        r@ == v@,
{
    let n: usize = v.len();
    let mut r: Vec<i64> = Vec::new();
    let mut i: usize = 0;
    while i < n
        invariant
            i <= n,
            n == v@.len(),
            r@ == v@.subrange(0, i as int),
        decreases n - i,
    {
        r.push(v[i]);
        proof {
            assert(r@ =~= v@.subrange(0, i + 1));
        }
        i += 1;
    }
    proof {
        assert(r@ =~= v@);
    }
    r
}

/// A vector of `n` zero messages.
fn zero_messages(n: usize) -> (r: Vec<i64>)
    ensures
        r@ == zero_level(n as nat),
{
    let mut r: Vec<i64> = Vec::new();
    let mut i: usize = 0;
    while i < n
        invariant
            i <= n,
            r@.len() == i,
            forall|t: int| 0 <= t < i ==> r@[t] == 0i64,
        decreases n - i,
    {
        r.push(0i64);
        i += 1;
    }
    proof {
        assert(r@ =~= zero_level(n as nat));
    }
    r
}

/// Polar code structure for belief propagation: the frozen positions
/// as a mask over `0..n`.
pub struct PolarCodeBP {
    /// Code length (a power of two).
    pub n: usize,
    /// Number of information bits.
    pub k: usize,
    /// True at each frozen position.
    pub frozen_mask: Vec<bool>,
}

impl PolarCodeBP {
    /// Number of butterfly stages, `log2(n)`.
    pub open spec fn stages(self) -> nat {
        lg(self.n as nat)
    }

    /// The mask marks exactly the positions whose bit-reversed index
    /// ranks below the top `k`.
    pub open spec fn wf(self) -> bool {
        &&& pow2(self.stages()) == self.n as nat
        &&& self.n <= MAX_CODE_LEN
        &&& self.k <= self.n
        &&& self.frozen_mask@.len() == self.n as nat
        &&& forall|p: int|
            0 <= p < self.n ==> (#[trigger] self.frozen_mask@[p] == !(rev_bits(
                p as nat,
                self.stages(),
            ) >= self.n - self.k))
    }

    /// Builds the mask from the polar code construction.
    pub fn new(n: usize, k: usize) -> (code: PolarCodeBP)
        requires
            vstd::arithmetic::power2::is_pow2(n as int),
            k <= n,
            n <= MAX_CODE_LEN,
        ensures
            code.wf(),
            code.n == n,
            code.k == k,
    {
        let pc: PolarCode = PolarCode::new(n, k);
        let mut frozen_mask: Vec<bool> = Vec::new();
        let mut z: usize = 0;
        while z < n
            invariant
                z <= n,
                frozen_mask@.len() == z,
                forall|p: int| 0 <= p < z ==> !(#[trigger] frozen_mask@[p]),
            decreases n - z,
        {
            frozen_mask.push(false);
            z += 1;
        }
        let fl: usize = pc.frozen_positions.len();
        let mut j: usize = 0;
        while j < fl
            invariant
                j <= fl,
                pc.wf(),
                pc.n == n,
                pc.k == k,
                fl == pc.frozen_positions@.len(),
                frozen_mask@.len() == n,
                forall|p: int|
                    0 <= p < n ==> (#[trigger] frozen_mask@[p] <==> exists|jj: int|
                        0 <= jj < j && pc.frozen_positions@[jj] as int == p),
            decreases fl - j,
        {
            let pos: usize = pc.frozen_positions[j];
            proof {
                assert(pc.frozen_positions@[j as int] < pc.n);
            }
            let ghost old_mask = frozen_mask@;
            frozen_mask[pos] = true;
            proof {
                assert forall|p: int| 0 <= p < n implies (#[trigger] frozen_mask@[p]
                    <==> exists|jj: int| 0 <= jj < j + 1 && pc.frozen_positions@[jj] as int == p) by {
                    if p == pos as int {
                        assert(pc.frozen_positions@[j as int] as int == p);
                    } else {
                        if frozen_mask@[p] {
                            let w = choose|jj: int|
                                0 <= jj < j && pc.frozen_positions@[jj] as int == p;
                            assert(0 <= w < j + 1 && pc.frozen_positions@[w] as int == p);
                        }
                        if exists|jj: int| 0 <= jj < j + 1 && pc.frozen_positions@[jj] as int == p {
                            let w = choose|jj: int|
                                0 <= jj < j + 1 && pc.frozen_positions@[jj] as int == p;
                            assert(w < j);
                        }
                    }
                }
            }
            j += 1;
        }
        let code = PolarCodeBP { n, k, frozen_mask };
        proof {
            assert forall|p: int| 0 <= p < n implies (#[trigger] code.frozen_mask@[p] == !(
            rev_bits(p as nat, code.stages()) >= n - k)) by {
                assert(code.stages() == pc.stages());
                if code.frozen_mask@[p] {
                    let w = choose|jj: int| 0 <= jj < fl && pc.frozen_positions@[jj] as int == p;
                    assert(!pc.is_info_pos(pc.frozen_positions@[w] as int));
                } else {
                    if !pc.is_info_pos(p) {
                        assert(pc.frozen_positions@.contains(p as usize));
                        let w = choose|jj: int|
                            0 <= jj < pc.frozen_positions@.len() && pc.frozen_positions@[jj]
                                == p as usize;
                        assert(exists|jj: int|
                            0 <= jj < fl && pc.frozen_positions@[jj] as int == p);
                    }
                }
            }
        }
        code
    }

    /// Belief-propagation decoding: `iterations` rounds of forward
    /// and backward min-sum passes over the butterfly graph, then the
    /// combined belief at every codeword position.  The caller
    /// thresholds signs for hard bits or feeds the soft outputs to
    /// further combining.
    #[verifier::loop_isolation(false)]
    pub fn decode_bp(&self, llrs: &[i64], iterations: usize) -> (out: Vec<i64>)
        requires
            self.wf(),
            llrs@.len() == self.n,
            all_capped(llrs@),
        ensures
            out@ == bp_decode_spec(
                llrs@,
                self.frozen_mask@,
                self.stages(),
                iterations as nat,
            ),
            out@.len() == self.n,
            all_capped(out@),
    {
        let n: usize = self.n;
        proof {
            broadcast use vstd::arithmetic::power2::is_pow2_equiv;

            assert(vstd::arithmetic::power::pow(2, self.stages()) == n as int) by {
                vstd::arithmetic::power2::lemma_pow2(self.stages());
            }
            assert(vstd::arithmetic::power2::is_pow2_exists(n as int));
        }
        let m: u32 = log2_of_pow2(n);
        proof {
            lemma_lg_pow2(m as nat);
            assert(m as nat == self.stages());
        }
        let stages: usize = m as usize;
        let ghost init_l = bp_init_l(llrs@, stages as nat);
        let ghost init_r = bp_init_r(self.frozen_mask@, stages as nat);

        // Leftward messages: channel values at level zero, zeros above.
        let mut l_stages: Vec<Vec<i64>> = Vec::new();
        l_stages.push(copy_channel(llrs));
        let mut s0: usize = 1;
        while s0 < stages
            invariant
                1 <= s0 <= stages || (stages == 0 && s0 == 1),
                n == llrs@.len(),
                l_stages@.len() == s0,
                views_of(l_stages@) == init_l.subrange(0, s0 as int),
                init_l == bp_init_l(llrs@, stages as nat),
            decreases stages - s0,
        {
            l_stages.push(zero_messages(n));
            proof {
                assert(views_of(l_stages@) =~= init_l.subrange(0, s0 + 1));
            }
            s0 += 1;
        }
        let ghost l_pre = l_stages@;
        if stages > 0 {
            l_stages.push(copy_channel(llrs));
        }
        proof {
            if stages > 0 {
                assert forall|t: int| 0 <= t < views_of(l_stages@).len() implies #[trigger] views_of(
                    l_stages@,
                )[t] == init_l[t] by {
                    assert(views_of(l_stages@)[t] == l_stages@[t]@);
                    if t < stages {
                        assert(l_stages@[t] == l_pre[t]);
                        assert(views_of(l_pre)[t] == l_pre[t]@);
                        assert(views_of(l_pre)[t] == init_l.subrange(0, stages as int)[t]);
                    }
                }
            }
            assert(views_of(l_stages@) =~= init_l);
        }

        // Rightward messages: zeros below, the priors at the top.
        let mut r_stages: Vec<Vec<i64>> = Vec::new();
        let mut s1: usize = 0;
        while s1 < stages
            invariant
                s1 <= stages,
                n == llrs@.len(),
                self.frozen_mask@.len() == n,
                r_stages@.len() == s1,
                views_of(r_stages@) == init_r.subrange(0, s1 as int),
                init_r == bp_init_r(self.frozen_mask@, stages as nat),
            decreases stages - s1,
        {
            r_stages.push(zero_messages(n));
            proof {
                assert(views_of(r_stages@) =~= init_r.subrange(0, s1 + 1));
            }
            s1 += 1;
        }
        let mut prior: Vec<i64> = Vec::new();
        let mut z2: usize = 0;
        while z2 < n
            invariant
                z2 <= n,
                n == self.frozen_mask@.len(),
                prior@.len() == z2,
                forall|t: int| 0 <= t < z2 ==> prior@[t] == prior_level(self.frozen_mask@)[t],
            decreases n - z2,
        {
            if self.frozen_mask[z2] {
                prior.push(FROZEN_PRIOR);
            } else {
                prior.push(0i64);
            }
            z2 += 1;
        }
        proof {
            assert(prior@ =~= prior_level(self.frozen_mask@));
        }
        let ghost pre_push = r_stages@;
        r_stages.push(prior);
        proof {
            assert forall|t: int| 0 <= t < views_of(r_stages@).len() implies #[trigger] views_of(
                r_stages@,
            )[t] == init_r[t] by {
                if t < stages {
                    assert(views_of(r_stages@)[t] == r_stages@[t]@);
                    assert(r_stages@[t] == pre_push[t]);
                    assert(views_of(pre_push)[t] == pre_push[t]@);
                    assert(views_of(pre_push)[t] == init_r.subrange(0, stages as int)[t]);
                } else {
                    assert(views_of(r_stages@)[t] == r_stages@[t]@);
                }
            }
            assert(views_of(r_stages@) =~= init_r);
            assert(all_capped(zero_level(n as nat)));
            assert(all_capped(prior_level(self.frozen_mask@)));
            assert forall|s: int| 0 <= s < init_l.len() implies (#[trigger] init_l[s]).len()
                == n as nat && all_capped(init_l[s]) by {}
            assert forall|s: int| 0 <= s < init_r.len() implies (#[trigger] init_r[s]).len()
                == n as nat && all_capped(init_r[s]) by {}
            assert(levels_capped(init_l, n as nat));
            assert(levels_capped(init_r, n as nat));
        }

        // Message-passing iterations.
        let mut iter: usize = 0;
        while iter < iterations
            invariant
                iter <= iterations,
                n == self.n,
                n == llrs@.len(),
                self.wf(),
                pow2(stages as nat) == n as nat,
                stages <= 30,
                l_stages@.len() == stages + 1,
                r_stages@.len() == stages + 1,
                init_l == bp_init_l(llrs@, stages as nat),
                init_r == bp_init_r(self.frozen_mask@, stages as nat),
                (views_of(l_stages@), views_of(r_stages@)) == bp_iterate(
                    init_l,
                    init_r,
                    stages as nat,
                    iter as nat,
                ),
                levels_capped(views_of(l_stages@), n as nat),
                levels_capped(views_of(r_stages@), n as nat),
            decreases iterations - iter,
        {
            let ghost l_it = views_of(l_stages@);
            let ghost r_it = views_of(r_stages@);
            // Forward pass.
            let mut s: usize = 0;
            let mut stride: usize = 1;
            proof {
                vstd::arithmetic::power2::lemma2_to64();
            }
            while s < stages
                invariant
                    s <= stages,
                    stride as nat == pow2(s as nat),
                    n == self.n,
                    pow2(stages as nat) == n as nat,
                    stages <= 30,
                    l_stages@.len() == stages + 1,
                    r_stages@.len() == stages + 1,
                    views_of(l_stages@) == bp_fwd_pass(l_it, r_it, s as nat),
                    views_of(r_stages@) == r_it,
                    levels_capped(views_of(l_stages@), n as nat),
                    levels_capped(views_of(r_stages@), n as nat),
                decreases stages - s,
            {
                proof {
                    vstd::arithmetic::power2::lemma_pow2_pos(s as nat);
                    vstd::arithmetic::power2::lemma_pow2_adds(
                        (s + 1) as nat,
                        (stages - s - 1) as nat,
                    );
                    vstd::arithmetic::power2::lemma_pow2_unfold((s + 1) as nat);
                    vstd::arithmetic::power2::lemma_pow2_pos((stages - s - 1) as nat);
                    assert(views_of(l_stages@)[s as int] == l_stages@[s as int]@);
                    assert(views_of(r_stages@)[s + 1] == r_stages@[s + 1]@);
                }
                let ghost d = pow2((stages - s - 1) as nat);
                let new_l: Vec<i64> = bp_stage_forward(&l_stages[s], &r_stages[s + 1], stride, Ghost(d));
                let ghost old_l_seq = l_stages@;
                l_stages[s + 1] = new_l;
                proof {
                    lemma_views_update(old_l_seq, l_stages@, s + 1, new_l);
                    assert(views_of(l_stages@) == bp_fwd_pass(l_it, r_it, (s + 1) as nat));
                    assert forall|t: int| 0 <= t < views_of(l_stages@).len() implies (#[trigger] views_of(
                        l_stages@,
                    )[t]).len() == n as nat && all_capped(views_of(l_stages@)[t]) by {
                        if t != s + 1 {
                            assert(views_of(l_stages@)[t] == bp_fwd_pass(l_it, r_it, s as nat)[t]);
                        }
                    }
                    assert(2 * stride <= n) by (nonlinear_arith)
                        requires
                            2 * (stride as nat) * d == n as nat,
                            d >= 1,
                            stride >= 1,
                    ;
                }
                stride = stride * 2;
                s += 1;
            }
            // Backward pass.
            let ghost l_cur = views_of(l_stages@);
            proof {
                assert(bp_bwd_pass(l_cur, r_it, 0, stages as nat) == r_it);
            }
            while s > 0
                invariant
                    s <= stages,
                    stride as nat == pow2(s as nat),
                    n == self.n,
                    pow2(stages as nat) == n as nat,
                    stages <= 30,
                    l_stages@.len() == stages + 1,
                    r_stages@.len() == stages + 1,
                    views_of(l_stages@) == l_cur,
                    views_of(r_stages@) == bp_bwd_pass(l_cur, r_it, (stages - s) as nat, stages as nat),
                    levels_capped(views_of(l_stages@), n as nat),
                    levels_capped(views_of(r_stages@), n as nat),
                decreases s,
            {
                proof {
                    vstd::arithmetic::power2::lemma_pow2_unfold(s as nat);
                    vstd::arithmetic::power2::lemma_pow2_pos((s - 1) as nat);
                    vstd::arithmetic::power2::lemma_pow2_adds(s as nat, (stages - s) as nat);
                    vstd::arithmetic::power2::lemma_pow2_pos((stages - s) as nat);
                }
                s -= 1;
                stride = stride / 2;
                proof {
                    assert(stride as nat == pow2(s as nat));
                    assert(views_of(r_stages@)[s + 1] == r_stages@[s + 1]@);
                    assert(views_of(l_stages@)[s as int] == l_stages@[s as int]@);
                    assert(2 * (stride as nat) * pow2((stages - s - 1) as nat) == n as nat) by {
                        vstd::arithmetic::power2::lemma_pow2_adds(
                            (s + 1) as nat,
                            (stages - s - 1) as nat,
                        );
                        vstd::arithmetic::power2::lemma_pow2_unfold((s + 1) as nat);
                    }
                }
                let ghost d = pow2((stages - s - 1) as nat);
                let new_r: Vec<i64> = bp_stage_backward(
                    &r_stages[s + 1],
                    &l_stages[s],
                    stride,
                    Ghost(d),
                );
                let ghost old_r_seq = r_stages@;
                r_stages[s] = new_r;
                proof {
                    lemma_views_update(old_r_seq, r_stages@, s as int, new_r);
                    assert(views_of(r_stages@) == bp_bwd_pass(
                        l_cur,
                        r_it,
                        (stages - s) as nat,
                        stages as nat,
                    ));
                    assert forall|t: int| 0 <= t < views_of(r_stages@).len() implies (#[trigger] views_of(
                        r_stages@,
                    )[t]).len() == n as nat && all_capped(views_of(r_stages@)[t]) by {
                        if t != s as int {
                            assert(views_of(r_stages@)[t] == bp_bwd_pass(
                                l_cur,
                                r_it,
                                (stages - s - 1) as nat,
                                stages as nat,
                            )[t]);
                        }
                    }
                }
            }
            proof {
                assert((views_of(l_stages@), views_of(r_stages@)) == bp_iterate(
                    init_l,
                    init_r,
                    stages as nat,
                    (iter + 1) as nat,
                ));
            }
            iter += 1;
        }

        // Combined belief at the top level.
        proof {
            assert(views_of(l_stages@)[stages as int] == l_stages@[stages as int]@);
            assert(views_of(r_stages@)[stages as int] == r_stages@[stages as int]@);
        }
        let mut out: Vec<i64> = Vec::new();
        let ghost lr = bp_iterate(init_l, init_r, stages as nat, iterations as nat);
        let mut i: usize = 0;
        while i < n
            invariant
                i <= n,
                n == self.n,
                n == llrs@.len(),
                stages < l_stages@.len(),
                stages < r_stages@.len(),
                views_of(l_stages@) == lr.0,
                views_of(r_stages@) == lr.1,
                l_stages@[stages as int]@.len() == n,
                r_stages@[stages as int]@.len() == n,
                all_capped(l_stages@[stages as int]@),
                all_capped(r_stages@[stages as int]@),
                out@.len() == i,
                forall|t: int|
                    0 <= t < i ==> out@[t] == cap_add(
                        lr.0[stages as int][t],
                        lr.1[stages as int][t],
                    ),
                all_capped(out@),
            decreases n - i,
        {
            proof {
                assert(views_of(l_stages@)[stages as int] == l_stages@[stages as int]@);
                assert(views_of(r_stages@)[stages as int] == r_stages@[stages as int]@);
            }
            let v: i64 = cap_add_exec(l_stages[stages][i], r_stages[stages][i]);
            out.push(v);
            i += 1;
        }
        proof {
            assert(out@ =~= bp_decode_spec(
                llrs@,
                self.frozen_mask@,
                self.stages(),
                iterations as nat,
            ));
        }
        out
    }
}

/// With zero iterations no propagation happens: the decoder passes
/// the channel values through, with the frozen priors added on top.
pub proof fn lemma_bp_zero_iterations(llrs: Seq<i64>, frozen: Seq<bool>, stages: nat)
    requires
        llrs.len() == frozen.len(),
    ensures
        forall|i: int|
            0 <= i < llrs.len() ==> bp_decode_spec(llrs, frozen, stages, 0)[i] == cap_add(
                llrs[i],
                if frozen[i] {
                    FROZEN_PRIOR
                } else {
                    0i64
                },
            ),
{
    assert forall|i: int| 0 <= i < llrs.len() implies bp_decode_spec(llrs, frozen, stages, 0)[i]
        == cap_add(
        llrs[i],
        if frozen[i] {
            FROZEN_PRIOR
        } else {
            0i64
        },
    ) by {
        assert(bp_init_l(llrs, stages)[stages as int] == llrs);
        assert(bp_init_r(frozen, stages)[stages as int] == prior_level(frozen));
    }
}

/// The decoder output is bounded by the saturation cap for every
/// input and every iteration count: iterating longer cannot make the
/// beliefs diverge.
pub proof fn lemma_bp_output_bounded(llrs: Seq<i64>, frozen: Seq<bool>, stages: nat, iters: nat)
    ensures
        forall|i: int|
            0 <= i < llrs.len() ==> -BP_CAP <= #[trigger] bp_decode_spec(
                llrs,
                frozen,
                stages,
                iters,
            )[i] <= BP_CAP,
{
}

} // verus!
