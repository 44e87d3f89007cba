//! RAKE receiver: detects multipath components of a received signal
//! by cross-correlation against a known reference and recombines the
//! delay-aligned copies by maximum-ratio combining, turning multipath
//! echoes into a diversity gain.
//!
//! Signal samples are fixed-point values bounded by `SAMPLE_BOUND`,
//! so every correlation and combining sum has exact integer
//! semantics.

use vstd::prelude::*;

verus! {

/// Fixed-point scale of one unit of signal amplitude.
pub const SAMPLE_SCALE: i64 = 256;

/// Largest sample magnitude the receiver accepts.
pub const SAMPLE_BOUND: i64 = 0x8000;

/// Longest reference waveform; keeps correlation sums in range.
pub const MAX_REF_LEN: usize = 0x1_0000;

/// Largest correlation magnitude under the two bounds above.
pub const CORR_BOUND: i64 = 0x4000_0000_0000;

/// A detected peak below one tenth of a unit (squared, as a
/// correlation carries two amplitude factors of `SAMPLE_SCALE`
/// each) is insignificant and stops the search.
pub const PEAK_FLOOR: i64 = 6553;

/// Peak suppression radius: after a peak is recorded, this
/// neighbourhood is zeroed so the same path is not detected twice.
pub const SUPPRESS_RADIUS: usize = 5;

/// Shortest useful combined output; shorter results are rejected and
/// the original signal passes through.
pub const MIN_COMBINE_LEN: usize = 1000;

/// Most fingers a receiver may track.
pub const MAX_FINGERS: usize = 64;

/// One tracked multipath component.
pub struct RakeFinger {
    /// Path delay in samples.
    pub delay: usize,
    /// Peak correlation value at that delay.
    pub amplitude: i64,
    /// Path phase offset; the receiver assumes aligned phases.
    pub phase: i64,
    /// Combining weight, the magnitude of the amplitude.
    pub weight: i64,
}

/// Sum of the first `j` products of the reference against the signal
/// shifted by `delay`.
pub open spec fn dot_prefix(signal: Seq<i64>, reference: Seq<i64>, delay: int, j: int) -> int
    decreases j,
{
    if j <= 0 {
        0
    } else {
        dot_prefix(signal, reference, delay, j - 1) + signal[delay + j - 1] * reference[j - 1]
    }
}

/// Cross-correlation of the signal against the reference at one
/// delay.
pub open spec fn corr_at(signal: Seq<i64>, reference: Seq<i64>, delay: int) -> int {
    dot_prefix(signal, reference, delay, reference.len() as int)
}

/// Every sample within the accepted amplitude range.
pub open spec fn samples_bounded(s: Seq<i64>) -> bool {
    forall|i: int| 0 <= i < s.len() ==> -SAMPLE_BOUND <= #[trigger] s[i] <= SAMPLE_BOUND
}

/// Every correlation value within the derived range.
pub open spec fn corr_bounded(s: Seq<i64>) -> bool {
    forall|i: int| 0 <= i < s.len() ==> -CORR_BOUND <= #[trigger] s[i] <= CORR_BOUND
}

/// The dot product only reads the signal below `delay + len`, so a
/// truncated signal correlates identically.
proof fn lemma_dot_prefix_congruence(
    s1: Seq<i64>,
    s2: Seq<i64>,
    reference: Seq<i64>,
    delay: int,
    j: int,
)
    requires
        0 <= delay,
        j <= reference.len(),
        delay + j <= s1.len(),
        s1.len() <= s2.len(),
        forall|i: int| 0 <= i < s1.len() ==> s1[i] == s2[i],
    ensures
        dot_prefix(s1, reference, delay, j) == dot_prefix(s2, reference, delay, j),
    decreases j,
{
    if j > 0 {
        lemma_dot_prefix_congruence(s1, s2, reference, delay, j - 1);
    }
}

/// Computes the cross-correlation at every delay that keeps the
/// reference inside the signal; a signal shorter than the reference
/// yields the single value zero.
pub fn cross_correlation(signal: &[i64], reference: &[i64]) -> (corr: Vec<i64>)
    requires
        samples_bounded(signal@),
        samples_bounded(reference@),
        1 <= reference@.len() <= MAX_REF_LEN,
    ensures
        signal@.len() < reference@.len() ==> corr@ =~= seq![0i64],
        signal@.len() >= reference@.len() ==> {
            &&& corr@.len() == signal@.len() - reference@.len() + 1
            &&& forall|d: int|
                0 <= d < corr@.len() ==> #[trigger] corr@[d] as int == corr_at(
                    signal@,
                    reference@,
                    d,
                )
        },
        corr_bounded(corr@),
{
    let sig_len: usize = signal.len();
    let ref_len: usize = reference.len();
    if sig_len < ref_len {
        let mut corr: Vec<i64> = Vec::new();
        corr.push(0i64);
        return corr;
    }
    let out_len: usize = sig_len - ref_len + 1;
    let mut corr: Vec<i64> = Vec::new();
    let mut d: usize = 0;
    while d < out_len
        invariant
            d <= out_len,
            out_len == sig_len - ref_len + 1,
            sig_len == signal@.len(),
            ref_len == reference@.len(),
            ref_len <= MAX_REF_LEN,
            samples_bounded(signal@),
            samples_bounded(reference@),
            corr@.len() == d,
            forall|t: int|
                0 <= t < d ==> #[trigger] corr@[t] as int == corr_at(signal@, reference@, t),
            corr_bounded(corr@),
        decreases out_len - d,
    {
        let mut acc: i64 = 0;
        let mut j: usize = 0;
        while j < ref_len
            invariant
                j <= ref_len,
                d < out_len,
                out_len == sig_len - ref_len + 1,
                sig_len == signal@.len(),
                ref_len == reference@.len(),
                ref_len <= MAX_REF_LEN,
                samples_bounded(signal@),
                samples_bounded(reference@),
                acc as int == dot_prefix(signal@, reference@, d as int, j as int),
                -(j * (SAMPLE_BOUND as int) * (SAMPLE_BOUND as int)) <= acc as int <= j * (
                SAMPLE_BOUND as int) * (SAMPLE_BOUND as int),
            decreases ref_len - j,
        {
            let x: i64 = signal[d + j];
            let y: i64 = reference[j];
            proof {
                assert(-(SAMPLE_BOUND * SAMPLE_BOUND) <= x as int * y as int <= SAMPLE_BOUND
                    * SAMPLE_BOUND) by (nonlinear_arith)
                    requires
                        -SAMPLE_BOUND <= x <= SAMPLE_BOUND,
                        -SAMPLE_BOUND <= y <= SAMPLE_BOUND,
                ;
                assert((j as int) * (SAMPLE_BOUND as int) * (SAMPLE_BOUND as int) + SAMPLE_BOUND
                    * SAMPLE_BOUND == (j as int + 1) * (SAMPLE_BOUND as int) * (SAMPLE_BOUND as int))
                    by (nonlinear_arith);
                assert((j as int + 1) * (SAMPLE_BOUND as int) * (SAMPLE_BOUND as int) <= (
                MAX_REF_LEN as int) * (SAMPLE_BOUND as int) * (SAMPLE_BOUND as int))
                    by (nonlinear_arith)
                    requires
                        0 <= j as int + 1 <= MAX_REF_LEN as int,
                ;
            }
            acc = acc + x * y;
            j += 1;
        }
        proof {
            assert((ref_len as int) * (SAMPLE_BOUND as int) * (SAMPLE_BOUND as int) <= (
            MAX_REF_LEN as int) * (SAMPLE_BOUND as int) * (SAMPLE_BOUND as int)) by (nonlinear_arith)
                requires
                    0 <= ref_len as int <= MAX_REF_LEN as int,
            ;
        }
        corr.push(acc);
        d += 1;
    }
    corr
}

/// Index `b` holds the first maximum of the sequence.
pub open spec fn is_first_peak(corr: Seq<i64>, b: int) -> bool {
    &&& 0 <= b < corr.len()
    &&& forall|a: int| 0 <= a < corr.len() ==> #[trigger] corr[a] <= corr[b]
    &&& forall|a: int| 0 <= a < b ==> #[trigger] corr[a] < corr[b]
}

/// The first maximum is unique.
proof fn lemma_first_peak_unique(corr: Seq<i64>, a: int, b: int)
    requires
        is_first_peak(corr, a),
        is_first_peak(corr, b),
    ensures
        a == b,
{
    if a < b {
        assert(corr[a] < corr[b]);
        assert(corr[b] <= corr[a]);
    }
    if b < a {
        assert(corr[b] < corr[a]);
        assert(corr[a] <= corr[b]);
    }
}

/// The index of the first maximum.
pub open spec fn first_peak(corr: Seq<i64>) -> int {
    choose|b: int| is_first_peak(corr, b)
}

/// Finds the earliest index of maximum value.
fn first_peak_index(corr: &Vec<i64>) -> (b: usize)
    requires
        corr@.len() >= 1,
    ensures
        is_first_peak(corr@, b as int),
        first_peak(corr@) == b as int,
{
    let n: usize = corr.len();
    let mut best: usize = 0;
    let mut a: usize = 1;
    while a < n
        invariant
            1 <= a <= n,
            best < a,
            n == corr@.len(),
            forall|t: int| 0 <= t < a ==> #[trigger] corr@[t] <= corr@[best as int],
            forall|t: int| 0 <= t < best ==> #[trigger] corr@[t] < corr@[best as int],
        decreases n - a,
    {
        if corr[a] > corr[best] {
            best = a;
        }
        a += 1;
    }
    proof {
        assert(is_first_peak(corr@, best as int));
        assert(exists|b: int| is_first_peak(corr@, b));
        lemma_first_peak_unique(corr@, first_peak(corr@), best as int);
    }
    best
}

/// The correlation curve with the suppression window around a peak
/// zeroed out.
pub open spec fn suppress_spec(corr: Seq<i64>, delay: int) -> Seq<i64> {
    Seq::new(
        corr.len(),
        |j: int|
            if delay - SUPPRESS_RADIUS <= j < delay + SUPPRESS_RADIUS {
                0i64
            } else {
                corr[j]
            },
    )
}

/// The fingers that iterative peak extraction finds: repeatedly take
/// the first maximum of the remaining curve, stop early when it
/// falls below the significance floor, and suppress its
/// neighbourhood before the next round.
pub open spec fn detect_spec(corr: Seq<i64>, count: nat) -> Seq<RakeFinger>
    decreases count,
{
    if count == 0 || corr.len() == 0 {
        Seq::empty()
    } else {
        let b = first_peak(corr);
        if corr[b] < PEAK_FLOOR {
            Seq::empty()
        } else {
            seq![
                RakeFinger { delay: b as usize, amplitude: corr[b], phase: 0i64, weight: corr[b] },
            ] + detect_spec(suppress_spec(corr, b), (count - 1) as nat)
        }
    }
}

/// Structural bounds on a finger list that combining relies on.
pub open spec fn fingers_wf(fingers: Seq<RakeFinger>) -> bool {
    &&& fingers.len() <= MAX_FINGERS
    &&& forall|f: int|
        0 <= f < fingers.len() ==> 0 < (#[trigger] fingers[f]).weight <= CORR_BOUND
}

/// Sum of the first `t` finger weights.
pub open spec fn weight_sum(fingers: Seq<RakeFinger>, t: int) -> int
    decreases t,
{
    if t <= 0 {
        0
    } else {
        weight_sum(fingers, t - 1) + fingers[t - 1].weight
    }
}

/// Weighted sum of the delay-aligned samples at output position `j`,
/// over the first `t` fingers.
pub open spec fn mrc_num(fingers: Seq<RakeFinger>, signal: Seq<i64>, j: int, t: int) -> int
    decreases t,
{
    if t <= 0 {
        0
    } else {
        mrc_num(fingers, signal, j, t - 1) + signal[fingers[t - 1].delay + j] * fingers[t
            - 1].weight
    }
}

/// The largest finger delay.
pub open spec fn max_finger_delay(fingers: Seq<RakeFinger>) -> int
    decreases fingers.len(),
{
    if fingers.len() == 0 {
        0
    } else {
        let rest = max_finger_delay(fingers.drop_last());
        if fingers.last().delay >= rest {
            fingers.last().delay as int
        } else {
            rest
        }
    }
}

/// Division truncating towards zero, as the normalisation divides
/// magnitudes.
pub open spec fn trunc_div(a: int, b: int) -> int {
    if a >= 0 {
        a / b
    } else {
        -((-a) / b)
    }
}

/// What maximum-ratio combining returns: each output sample is the
/// weight-normalised sum of the delay-aligned input samples; with no
/// fingers, or an output too short to be useful, the signal passes
/// through unchanged.
pub open spec fn combine_spec(fingers: Seq<RakeFinger>, signal: Seq<i64>) -> Seq<i64> {
    if fingers.len() == 0 {
        signal
    } else {
        let maxd = max_finger_delay(fingers);
        let out_len: int = if signal.len() >= maxd {
            signal.len() - maxd
        } else {
            0
        };
        if out_len < MIN_COMBINE_LEN {
            signal
        } else {
            Seq::new(
                out_len as nat,
                |j: int|
                    trunc_div(
                        mrc_num(fingers, signal, j, fingers.len() as int),
                        weight_sum(fingers, fingers.len() as int),
                    ) as i64,
            )
        }
    }
}

/// RAKE receiver configuration and its tracked fingers.
pub struct RakeReceiver {
    /// Number of paths to track.
    pub num_fingers: usize,
    /// Largest path delay searched, in samples.
    pub max_delay: usize,
    /// The fingers found by the latest path detection.
    pub fingers: Vec<RakeFinger>,
}

impl RakeReceiver {
    /// A receiver with no detected paths yet.
    pub fn new(num_fingers: usize, max_delay: usize) -> (r: RakeReceiver)
        requires
            num_fingers <= MAX_FINGERS,
        ensures
            r.num_fingers == num_fingers,
            r.max_delay == max_delay,
            r.fingers@.len() == 0,
    {
        RakeReceiver { num_fingers, max_delay, fingers: Vec::new() }
    }

    /// Detects multipath components: correlates the signal against
    /// the reference over the delay search window and extracts up to
    /// `num_fingers` significant peaks.  A signal shorter than the
    /// reference leaves the receiver unchanged.
    pub fn detect_paths(&mut self, signal: &[i64], reference: &[i64])
        requires
            old(self).num_fingers <= MAX_FINGERS,
            samples_bounded(signal@),
            samples_bounded(reference@),
            reference@.len() <= MAX_REF_LEN,
            reference@.len() >= 1,
        ensures
            final(self).num_fingers == old(self).num_fingers,
            final(self).max_delay == old(self).max_delay,
            signal@.len() < reference@.len() ==> *final(self) == *old(self),
            signal@.len() >= reference@.len() ==> {
                let search_len = if old(self).max_delay <= signal@.len() - reference@.len() {
                    old(self).max_delay as int
                } else {
                    signal@.len() - reference@.len()
                };
                let corr = Seq::new(
                    (search_len + 1) as nat,
                    |d: int| corr_at(signal@, reference@, d) as i64,
                );
                final(self).fingers@ == detect_spec(corr, old(self).num_fingers as nat)
            },
            fingers_wf(final(self).fingers@) || signal@.len() < reference@.len(),
    {
        let sig_len: usize = signal.len();
        let ref_len: usize = reference.len();
        if sig_len < ref_len {
            return ;
        }
        let search_len: usize = if self.max_delay <= sig_len - ref_len {
            self.max_delay
        } else {
            sig_len - ref_len
        };
        // Correlate over the search window only.
        let mut truncated: Vec<i64> = Vec::new();
        let mut z: usize = 0;
        let window: usize = search_len + ref_len;
        while z < window
            invariant
                z <= window,
                window == search_len + ref_len,
                window <= signal@.len(),
                truncated@ == signal@.subrange(0, z as int),
            decreases window - z,
        {
            truncated.push(signal[z]);
            proof {
                assert(truncated@ =~= signal@.subrange(0, z + 1));
            }
            z += 1;
        }
        let corr: Vec<i64> = cross_correlation(truncated.as_slice(), reference);
        let ghost corr_full = Seq::new(
            (search_len + 1) as nat,
            |d: int| corr_at(signal@, reference@, d) as i64,
        );
        proof {
            assert(truncated@.len() == window);
            assert forall|d: int| 0 <= d < corr@.len() implies #[trigger] corr@[d]
                == corr_full[d] by {
                assert(corr@[d] as int == corr_at(truncated@, reference@, d));
                lemma_dot_prefix_congruence(
                    truncated@,
                    signal@,
                    reference@,
                    d,
                    reference@.len() as int,
                );
            }
            assert(corr@ =~= corr_full);
        }
        // Iterative peak extraction with neighbourhood suppression.
        self.fingers = Vec::new();
        let mut remaining: Vec<i64> = corr;
        let ghost total = self.num_fingers as nat;
        let mut cnt: usize = 0;
        let mut done: bool = false;
        while cnt < self.num_fingers && !done
            invariant
                cnt <= self.num_fingers,
                self.num_fingers == old(self).num_fingers,
                self.max_delay == old(self).max_delay,
                self.num_fingers <= MAX_FINGERS,
                total == self.num_fingers as nat,
                remaining@.len() == corr_full.len(),
                remaining@.len() >= 1,
                corr_bounded(remaining@),
                self.fingers@.len() == cnt,
                fingers_wf(self.fingers@),
                detect_spec(corr_full, total) == self.fingers@ + (if done {
                    Seq::<RakeFinger>::empty()
                } else {
                    detect_spec(remaining@, (total - cnt) as nat)
                }),
            decreases self.num_fingers - cnt, (if done { 0int } else { 1int }),
        {
            let b: usize = first_peak_index(&remaining);
            let max_val: i64 = remaining[b];
            if max_val < PEAK_FLOOR {
                done = true;
                proof {
                    assert(detect_spec(remaining@, (total - cnt) as nat) =~= Seq::<
                        RakeFinger,
                    >::empty());
                    assert(self.fingers@ + Seq::<RakeFinger>::empty() =~= self.fingers@ + (
                    Seq::<RakeFinger>::empty()));
                }
            } else {
                let weight: i64 = if max_val >= 0 {
                    max_val
                } else {
                    -max_val
                };
                let finger = RakeFinger { delay: b, amplitude: max_val, phase: 0i64, weight };
                let ghost old_fingers = self.fingers@;
                let ghost old_remaining = remaining@;
                self.fingers.push(finger);
                // Suppress the neighbourhood of the peak.
                let start: usize = if b >= SUPPRESS_RADIUS {
                    b - SUPPRESS_RADIUS
                } else {
                    0
                };
                let len_r: usize = remaining.len();
                let end: usize = if len_r - b > SUPPRESS_RADIUS {
                    b + SUPPRESS_RADIUS
                } else {
                    len_r
                };
                let mut w: usize = start;
                while w < end
                    invariant
                        start <= w <= end,
                        end <= remaining@.len(),
                        remaining@.len() == old_remaining.len(),
                        b < remaining@.len(),
                        start == if b >= SUPPRESS_RADIUS {
                            b - SUPPRESS_RADIUS
                        } else {
                            0
                        },
                        end == if old_remaining.len() - b > SUPPRESS_RADIUS {
                            (b + SUPPRESS_RADIUS) as int
                        } else {
                            old_remaining.len() as int
                        },
                        forall|t: int| 0 <= t < start ==> remaining@[t] == old_remaining[t],
                        forall|t: int| start <= t < w ==> remaining@[t] == 0i64,
                        forall|t: int|
                            w <= t < remaining@.len() ==> remaining@[t] == old_remaining[t],
                    decreases end - w,
                {
                    remaining[w] = 0i64;
                    w += 1;
                }
                proof {
                    assert(remaining@ =~= suppress_spec(old_remaining, b as int));
                    assert(is_first_peak(old_remaining, b as int));
                    lemma_first_peak_unique(old_remaining, first_peak(old_remaining), b as int);
                    assert(detect_spec(old_remaining, (total - cnt) as nat) == seq![finger]
                        + detect_spec(remaining@, (total - cnt - 1) as nat));
                    assert(self.fingers@ == old_fingers + seq![finger]) by {
                        assert(self.fingers@ =~= old_fingers + seq![finger]);
                    }
                    assert(old_fingers + (seq![finger] + detect_spec(
                        remaining@,
                        (total - cnt - 1) as nat,
                    )) =~= (old_fingers + seq![finger]) + detect_spec(
                        remaining@,
                        (total - cnt - 1) as nat,
                    ));
                }
                cnt += 1;
            }
        }
        proof {
            if !done {
                assert(detect_spec(remaining@, (total - cnt) as nat) =~= Seq::<RakeFinger>::empty());
            }
            assert(self.fingers@ + Seq::<RakeFinger>::empty() =~= self.fingers@);
        }
    }

    /// Maximum-ratio combining of the detected paths: each finger's
    /// delay-aligned segment of the signal contributes in proportion
    /// to its weight, normalised by the total weight.  With no
    /// fingers, or with too little signal left after delay
    /// compensation, the original signal passes through.
    pub fn combine_paths(&self, signal: &[i64]) -> (out: Vec<i64>)
        requires
            fingers_wf(self.fingers@),
            samples_bounded(signal@),
        ensures
            out@ == combine_spec(self.fingers@, signal@),
    {
        let nf: usize = self.fingers.len();
        if nf == 0 {
            return copy_signal(signal);
        }
        // Longest delay bounds the usable output length.
        let mut maxd: usize = 0;
        let mut f: usize = 0;
        while f < nf
            invariant
                f <= nf,
                nf == self.fingers@.len(),
                maxd as int == max_finger_delay(self.fingers@.subrange(0, f as int)),
            decreases nf - f,
        {
            let ghost prev = self.fingers@.subrange(0, f as int);
            let d: usize = self.fingers[f].delay;
            proof {
                let cur = self.fingers@.subrange(0, f + 1);
                assert(cur.drop_last() =~= prev);
                assert(cur.last() == self.fingers@[f as int]);
            }
            if d > maxd {
                maxd = d;
            }
            f += 1;
        }
        proof {
            assert(self.fingers@.subrange(0, nf as int) =~= self.fingers@);
        }
        let sig_len: usize = signal.len();
        let out_len: usize = if sig_len >= maxd {
            sig_len - maxd
        } else {
            0
        };
        if out_len < MIN_COMBINE_LEN {
            return copy_signal(signal);
        }
        // Total weight for normalisation.
        let mut total_weight: i64 = 0;
        let mut f2: usize = 0;
        while f2 < nf
            invariant
                f2 <= nf,
                nf == self.fingers@.len(),
                fingers_wf(self.fingers@),
                total_weight as int == weight_sum(self.fingers@, f2 as int),
                0 <= total_weight as int <= (f2 as int) * (CORR_BOUND as int),
            decreases nf - f2,
        {
            proof {
                assert((f2 as int) * (CORR_BOUND as int) + CORR_BOUND == (f2 as int + 1) * (
                CORR_BOUND as int)) by (nonlinear_arith);
                assert((f2 as int + 1) * (CORR_BOUND as int) <= (MAX_FINGERS as int) * (
                CORR_BOUND as int)) by (nonlinear_arith)
                    requires
                        0 <= f2 as int + 1 <= MAX_FINGERS as int,
                ;
            }
            total_weight = total_weight + self.fingers[f2].weight;
            f2 += 1;
        }
        proof {
            assert(total_weight > 0) by {
                assert(weight_sum(self.fingers@, 0) == 0);
                assert(self.fingers@[0].weight > 0);
                assert(weight_sum(self.fingers@, 1) == self.fingers@[0].weight);
                lemma_weight_sum_monotone(self.fingers@, 1, nf as int);
            }
        }
        // Weighted accumulation, one output sample at a time.
        let mut out: Vec<i64> = Vec::new();
        let mut j: usize = 0;
        while j < out_len
            invariant
                j <= out_len,
                nf == self.fingers@.len(),
                nf >= 1,
                fingers_wf(self.fingers@),
                samples_bounded(signal@),
                sig_len == signal@.len(),
                maxd as int == max_finger_delay(self.fingers@),
                out_len == sig_len - maxd,
                out_len >= MIN_COMBINE_LEN,
                total_weight as int == weight_sum(self.fingers@, nf as int),
                total_weight > 0,
                out@.len() == j,
                forall|t: int|
                    0 <= t < j ==> #[trigger] out@[t] as int == trunc_div(
                        mrc_num(self.fingers@, signal@, t, nf as int),
                        total_weight as int,
                    ),
            decreases out_len - j,
        {
            let mut acc: i128 = 0;
            let mut f3: usize = 0;
            while f3 < nf
                invariant
                    f3 <= nf,
                    j < out_len,
                    nf == self.fingers@.len(),
                    fingers_wf(self.fingers@),
                    samples_bounded(signal@),
                    sig_len == signal@.len(),
                    maxd as int == max_finger_delay(self.fingers@),
                    out_len == sig_len - maxd,
                    acc as int == mrc_num(self.fingers@, signal@, j as int, f3 as int),
                    0 <= weight_sum(self.fingers@, f3 as int) <= (f3 as int) * (CORR_BOUND as int),
                    -((SAMPLE_BOUND as int) * weight_sum(self.fingers@, f3 as int)) <= acc as int
                        <= (SAMPLE_BOUND as int) * weight_sum(self.fingers@, f3 as int),
                decreases nf - f3,
            {
                let d: usize = self.fingers[f3].delay;
                let wgt: i64 = self.fingers[f3].weight;
                proof {
                    lemma_max_finger_delay_bound(self.fingers@, f3 as int);
                    assert(d + j < sig_len);
                }
                let x: i64 = signal[d + j];
                proof {
                    let ws = weight_sum(self.fingers@, f3 as int);
                    assert(-((SAMPLE_BOUND as int) * (wgt as int)) <= x as int * wgt as int <= (
                    SAMPLE_BOUND as int) * (wgt as int)) by (nonlinear_arith)
                        requires
                            -SAMPLE_BOUND <= x <= SAMPLE_BOUND,
                            0 < wgt,
                    ;
                    assert((SAMPLE_BOUND as int) * (wgt as int) <= (SAMPLE_BOUND as int) * (
                    CORR_BOUND as int)) by (nonlinear_arith)
                        requires
                            0 < wgt <= CORR_BOUND,
                            SAMPLE_BOUND > 0,
                    ;
                    assert((SAMPLE_BOUND as int) * ws + (SAMPLE_BOUND as int) * (wgt as int) == (
                    SAMPLE_BOUND as int) * (ws + wgt)) by (nonlinear_arith);
                    assert(ws + wgt <= (f3 as int + 1) * (CORR_BOUND as int)) by (nonlinear_arith)
                        requires
                            ws <= (f3 as int) * (CORR_BOUND as int),
                            0 < wgt <= CORR_BOUND,
                    ;
                    assert((f3 as int + 1) * (CORR_BOUND as int) <= (MAX_FINGERS as int) * (
                    CORR_BOUND as int)) by (nonlinear_arith)
                        requires
                            0 <= f3 as int + 1 <= MAX_FINGERS as int,
                    ;
                    assert(ws + wgt <= (MAX_FINGERS as int) * (CORR_BOUND as int))
                        by (nonlinear_arith)
                        requires
                            0 <= ws + wgt <= (f3 as int + 1) * (CORR_BOUND as int),
                            0 <= f3 as int + 1 <= MAX_FINGERS as int,
                            CORR_BOUND > 0,
                    ;
                    assert((SAMPLE_BOUND as int) * (ws + wgt) <= (SAMPLE_BOUND as int) * ((
                    MAX_FINGERS as int) * (CORR_BOUND as int))) by (nonlinear_arith)
                        requires
                            0 <= ws + wgt <= (MAX_FINGERS as int) * (CORR_BOUND as int),
                            SAMPLE_BOUND > 0,
                    ;
                    assert((SAMPLE_BOUND as int) * ws <= (SAMPLE_BOUND as int) * (ws + wgt))
                        by (nonlinear_arith)
                        requires
                            0 <= ws,
                            0 < wgt,
                            SAMPLE_BOUND > 0,
                    ;
                    assert(weight_sum(self.fingers@, f3 as int + 1) == ws + wgt);
                    assert(acc as int + x as int * wgt as int <= (SAMPLE_BOUND as int) * (ws
                        + wgt));
                    assert(-((SAMPLE_BOUND as int) * (ws + wgt)) <= acc as int + x as int
                        * wgt as int);
                }
                acc = acc + (x as i128) * (wgt as i128);
                f3 += 1;
            }
            // Normalise by the total weight, truncating towards zero.
            let ghost ws_all = weight_sum(self.fingers@, nf as int);
            proof {
                assert((SAMPLE_BOUND as int) * ws_all <= (SAMPLE_BOUND as int) * ((
                MAX_FINGERS as int) * (CORR_BOUND as int))) by (nonlinear_arith)
                    requires
                        0 <= ws_all <= (MAX_FINGERS as int) * (CORR_BOUND as int),
                        SAMPLE_BOUND > 0,
                ;
                assert(ws_all <= (MAX_FINGERS as int) * (CORR_BOUND as int)) by {
                    assert(weight_sum(self.fingers@, nf as int) <= (nf as int) * (
                    CORR_BOUND as int));
                    assert((nf as int) * (CORR_BOUND as int) <= (MAX_FINGERS as int) * (
                    CORR_BOUND as int)) by (nonlinear_arith)
                        requires
                            0 <= nf as int <= MAX_FINGERS as int,
                    ;
                }
            }
            let neg: bool = acc < 0;
            let mag: u128 = if neg {
                (-acc) as u128
            } else {
                acc as u128
            };
            let q_mag: u128 = mag / (total_weight as u128);
            proof {
                let w = total_weight as int;
                assert(mag as int <= (SAMPLE_BOUND as int) * w);
                vstd::arithmetic::div_mod::lemma_div_is_ordered(
                    mag as int,
                    (SAMPLE_BOUND as int) * w,
                    w,
                );
                assert(((SAMPLE_BOUND as int) * w) / w == SAMPLE_BOUND) by (nonlinear_arith)
                    requires
                        w > 0,
                ;
                assert(q_mag as int <= SAMPLE_BOUND);
            }
            let q: i64 = if neg {
                -(q_mag as i64)
            } else {
                q_mag as i64
            };
            out.push(q);
            j += 1;
        }
        proof {
            assert(out@ =~= combine_spec(self.fingers@, signal@));
        }
        out
    }

    /// Detects paths against the reference, then combines them:
    /// the usual receive-side composition.
    pub fn process(&mut self, signal: &[i64], reference: &[i64]) -> (out: Vec<i64>)
        requires
            old(self).num_fingers <= MAX_FINGERS,
            samples_bounded(signal@),
            samples_bounded(reference@),
            reference@.len() <= MAX_REF_LEN,
            reference@.len() >= 1,
            fingers_wf(old(self).fingers@),
        ensures
            out@ == combine_spec(final(self).fingers@, signal@),
            signal@.len() < reference@.len() ==> *final(self) == *old(self),
            signal@.len() >= reference@.len() ==> {
                let search_len = if old(self).max_delay <= signal@.len() - reference@.len() {
                    old(self).max_delay as int
                } else {
                    signal@.len() - reference@.len()
                };
                let corr = Seq::new(
                    (search_len + 1) as nat,
                    |d: int| corr_at(signal@, reference@, d) as i64,
                );
                final(self).fingers@ == detect_spec(corr, old(self).num_fingers as nat)
            },
    {
        self.detect_paths(signal, reference);
        self.combine_paths(signal)
    }
}

/// Degenerate pass-through: with no detected fingers, combining
/// leaves the signal exactly as it was.
pub proof fn lemma_combine_no_fingers(fingers: Seq<RakeFinger>, signal: Seq<i64>)
    requires
        fingers.len() == 0,
    ensures
        combine_spec(fingers, signal) == signal,
{
}

/// Weight sums grow with the number of fingers counted.
proof fn lemma_weight_sum_monotone(fingers: Seq<RakeFinger>, a: int, b: int)
    requires
        fingers_wf(fingers),
        0 <= a <= b <= fingers.len(),
    ensures
        weight_sum(fingers, a) <= weight_sum(fingers, b),
    decreases b - a,
{
    if a < b {
        lemma_weight_sum_monotone(fingers, a, b - 1);
    }
}

/// Every finger's delay is at most the maximum delay.
proof fn lemma_max_finger_delay_bound(fingers: Seq<RakeFinger>, f: int)
    requires
        0 <= f < fingers.len(),
    ensures
        fingers[f].delay <= max_finger_delay(fingers),
        max_finger_delay(fingers) >= 0,
    decreases fingers.len(),
{
    if fingers.len() > 0 {
        if f == fingers.len() - 1 {
            if fingers.len() > 1 {
                lemma_max_finger_delay_bound(fingers.drop_last(), 0);
            }
        } else {
            lemma_max_finger_delay_bound(fingers.drop_last(), f);
            assert(fingers.drop_last()[f] == fingers[f]);
        }
    }
}

/// A fresh copy of a signal vector.
fn copy_signal(v: &[i64]) -> (r: Vec<i64>)
    ensures
        r@ == v@,
{
    let n: usize = v.len();
    let mut r: Vec<i64> = Vec::new();
    let mut i: usize = 0;
    while i < n
        invariant
            i <= n,
            n == v@.len(),
            r@ == v@.subrange(0, i as int),
        decreases n - i,
    {
        r.push(v[i]);
        proof {
            assert(r@ =~= v@.subrange(0, i + 1));
        }
        i += 1;
    }
    proof {
        assert(r@ =~= v@);
    }
    r
}

} // verus!
