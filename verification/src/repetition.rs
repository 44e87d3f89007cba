//! Time-slotted repetition protocol: deterministic transmission
//! scheduling and the combining of repeated copies, softly in the
//! log-likelihood-ratio domain (maximum-ratio combining) or by
//! weighted byte-level voting as a hard-decision fallback.
//!
//! Durations are carried in milliseconds; signal-quality estimates
//! are fixed-point values scaled by `SNR_SCALE`.

use vstd::prelude::*;

verus! {

/// Duration of one data symbol, in milliseconds.
pub const SYMBOL_MS: u64 = 100;

/// Duration of the synchronisation preamble, in milliseconds.
pub const PREAMBLE_MS: u64 = 3200;

/// Duration of one mid-stream flourish, in milliseconds.
pub const FLOURISH_MS: u64 = 1600;

/// Duration of the closing postamble, in milliseconds.
pub const POSTAMBLE_MS: u64 = 1600;

/// One flourish is inserted after this many symbols.
pub const FLOURISH_INTERVAL: u64 = 64;

/// Fixed-point scale of one unit of estimated signal-to-noise ratio.
pub const SNR_SCALE: i64 = 256;

/// Floor applied to a copy's vote weight: a tenth of a unit, so even
/// a copy with a hopeless quality estimate keeps a small say.
pub const MIN_VOTE_WEIGHT: i64 = 26;

/// Largest accepted quality estimate.
pub const SNR_BOUND: i64 = 0x100_0000_0000;

/// Most copies the combiners accept in one call.
pub const MAX_COPIES: usize = 1024;

/// Largest message the scheduler accepts, in bytes.
pub const MAX_MESSAGE_BYTES: usize = 0x1000_0000;

/// Most repetitions the scheduler accepts.
pub const MAX_REPETITIONS: usize = 0x10_0000;

/// Longest accepted listening gap, in milliseconds.
pub const MAX_GAP_MS: u64 = 0xFF_FFFF_FFFF;

/// Largest log-likelihood magnitude the soft combiner accepts.
pub const COMBINE_LLR_BOUND: i64 = 0x8000_0000;

/// Largest combining weight the soft combiner accepts.
pub const COMBINE_WEIGHT_BOUND: i64 = 0x10_0000;

/// Number of payload symbols for a message: its bits padded up to a
/// sixteen-bit block boundary, plus one sixteen-bit reference block.
pub open spec fn padded_symbols(message_bytes: nat) -> nat {
    ((message_bytes * 8 + 15) / 16) * 16 + 16
}

/// Transmission duration in milliseconds: preamble, data symbols,
/// periodic flourishes, postamble.
pub open spec fn transmission_ms(message_bytes: nat) -> int {
    PREAMBLE_MS + padded_symbols(message_bytes) * SYMBOL_MS + (padded_symbols(message_bytes)
        / (FLOURISH_INTERVAL as nat)) * FLOURISH_MS + POSTAMBLE_MS
}

/// Scheduling for repeated transmissions of one message.
pub struct TimeSlotConfig {
    /// Duration of one complete transmission, in milliseconds.
    pub transmission_duration: u64,
    /// Listening gap between transmissions, in milliseconds.
    pub listening_gap: u64,
    /// Total number of repetitions.
    pub num_repetitions: usize,
    /// Start time of each slot, in milliseconds from the beginning.
    pub slot_starts: Vec<u64>,
}

impl TimeSlotConfig {
    /// Slot `i` starts after `i` full transmissions and gaps.
    pub open spec fn wf(self) -> bool {
        &&& self.slot_starts@.len() == self.num_repetitions as nat
        &&& self.num_repetitions <= MAX_REPETITIONS
        &&& self.transmission_duration as int + self.listening_gap as int <= 0x600_0000_0000
        &&& forall|i: int|
            0 <= i < self.slot_starts@.len() ==> #[trigger] self.slot_starts@[i] as int == i * (
            self.transmission_duration as int + self.listening_gap as int)
    }

    /// Computes the schedule for a message of the given length:
    /// the transmission duration from the padded symbol count and
    /// the fixed framing times, and one start time per repetition.
    pub fn new(message_bytes: usize, num_repetitions: usize, listening_gap: u64) -> (config:
        TimeSlotConfig)
        requires
            message_bytes <= MAX_MESSAGE_BYTES,
            num_repetitions <= MAX_REPETITIONS,
            listening_gap <= MAX_GAP_MS,
        ensures
            config.wf(),
            config.num_repetitions == num_repetitions,
            config.listening_gap == listening_gap,
            config.transmission_duration as int == transmission_ms(message_bytes as nat),
    {
        let total_bits: usize = ((message_bytes * 8 + 15) / 16) * 16 + 16;
        let num_symbols: u64 = total_bits as u64;
        let num_flourishes: u64 = num_symbols / FLOURISH_INTERVAL;
        let transmission_duration: u64 = PREAMBLE_MS + num_symbols * SYMBOL_MS + num_flourishes
            * FLOURISH_MS + POSTAMBLE_MS;
        let step: u64 = transmission_duration + listening_gap;
        let mut slot_starts: Vec<u64> = Vec::new();
        let mut current_time: u64 = 0;
        let mut i: usize = 0;
        while i < num_repetitions
            invariant
                i <= num_repetitions,
                num_repetitions <= MAX_REPETITIONS,
                step == transmission_duration + listening_gap,
                step <= 0x600_0000_0000,
                current_time as int == i * (step as int),
                slot_starts@.len() == i,
                forall|t: int|
                    0 <= t < i ==> #[trigger] slot_starts@[t] as int == t * (step as int),
            decreases num_repetitions - i,
        {
            slot_starts.push(current_time);
            proof {
                assert((i as int) * (step as int) + step as int == (i as int + 1) * (step as int))
                    by (nonlinear_arith);
                assert((i as int + 1) * (step as int) <= (MAX_REPETITIONS as int) * 0x600_0000_0000)
                    by (nonlinear_arith)
                    requires
                        0 <= i as int + 1 <= MAX_REPETITIONS as int,
                        0 <= step as int <= 0x600_0000_0000,
                ;
            }
            current_time = current_time + step;
            i += 1;
        }
        TimeSlotConfig { transmission_duration, listening_gap, num_repetitions, slot_starts }
    }

    /// Total duration of the whole schedule: the last slot's start
    /// plus one transmission; zero without repetitions.
    pub fn total_duration(&self) -> (total: u64)
        requires
            self.wf(),
        ensures
            total as int == if self.num_repetitions == 0 {
                0int
            } else {
                (self.num_repetitions - 1) * (self.transmission_duration as int
                    + self.listening_gap as int) + self.transmission_duration as int
            },
    {
        if self.num_repetitions == 0 {
            return 0;
        }
        let last: u64 = self.slot_starts[self.num_repetitions - 1];
        proof {
            assert((self.num_repetitions - 1) * (self.transmission_duration as int
                + self.listening_gap as int) <= (MAX_REPETITIONS as int) * 0x600_0000_0000)
                by (nonlinear_arith)
                requires
                    0 <= self.num_repetitions - 1 <= MAX_REPETITIONS as int,
                    0 <= self.transmission_duration as int + self.listening_gap as int
                        <= 0x600_0000_0000,
            ;
            assert((self.num_repetitions - 1) * (self.transmission_duration as int
                + self.listening_gap as int) >= 0) by (nonlinear_arith)
                requires
                    0 <= self.num_repetitions - 1,
                    0 <= self.transmission_duration as int + self.listening_gap as int,
            ;
        }
        last + self.transmission_duration
    }
}

/// Consecutive slots are spaced by exactly one transmission duration
/// plus one listening gap.
pub proof fn lemma_schedule_spacing(config: TimeSlotConfig, i: int)
    requires
        config.wf(),
        0 <= i,
        i + 1 < config.slot_starts@.len(),
    ensures
        config.slot_starts@[i + 1] - config.slot_starts@[i] == config.transmission_duration
            + config.listening_gap,
{
    let step = config.transmission_duration as int + config.listening_gap as int;
    assert((i + 1) * step == i * step + step) by (nonlinear_arith);
}

/// The schedule is a function of its arguments alone: two
/// well-formed configurations with the same duration, gap and
/// repetition count have identical slot start times.
pub proof fn lemma_schedule_deterministic(c1: TimeSlotConfig, c2: TimeSlotConfig)
    requires
        c1.wf(),
        c2.wf(),
        c1.transmission_duration == c2.transmission_duration,
        c1.listening_gap == c2.listening_gap,
        c1.num_repetitions == c2.num_repetitions,
    ensures
        c1.slot_starts@ == c2.slot_starts@,
{
    assert forall|i: int| 0 <= i < c1.slot_starts@.len() implies c1.slot_starts@[i]
        == c2.slot_starts@[i] by {
        assert(c1.slot_starts@[i] as int == i * (c1.transmission_duration as int
            + c1.listening_gap as int));
        assert(c2.slot_starts@[i] as int == i * (c2.transmission_duration as int
            + c2.listening_gap as int));
    }
    assert(c1.slot_starts@ =~= c2.slot_starts@);
}

/// Multi-copy combining strategies.
#[derive(Clone, Copy, Debug)]
pub enum CombiningStrategy {
    /// Select the best single copy (highest quality estimate).
    SelectBest,
    /// Non-coherent combining (add magnitudes).
    NonCoherent,
    /// Coherent combining (add with phase alignment).
    Coherent,
    /// Maximum-ratio combining (weight by quality estimate).
    MaxRatio,
}

/// One decoded repetition with its quality metrics.
pub struct DecodedCopy {
    /// Repetition index.
    pub repetition: usize,
    /// Decoded bytes.
    pub data: Vec<u8>,
    /// Estimated signal-to-noise ratio, scaled by `SNR_SCALE`.
    pub snr_estimate: i64,
    /// Preamble correlation strength, fixed point.
    pub correlation: i64,
    /// Number of symbols extracted.
    pub num_symbols: usize,
}

/// Weighted sum over the first `t` copies of entry `j`, the
/// maximum-ratio combining rule in the log-likelihood domain.
pub open spec fn weighted_sum(copies: Seq<Seq<i64>>, weights: Seq<i64>, j: int, t: int) -> int
    decreases t,
{
    if t <= 0 {
        0
    } else {
        weighted_sum(copies, weights, j, t - 1) + weights[t - 1] * copies[t - 1][j]
    }
}

/// Plain sum over the first `t` copies of entry `j`.
pub open spec fn copy_sum(copies: Seq<Seq<i64>>, j: int, t: int) -> int
    decreases t,
{
    if t <= 0 {
        0
    } else {
        copy_sum(copies, j, t - 1) + copies[t - 1][j]
    }
}

/// The element views of a vector of vectors.
pub open spec fn copy_views(v: Seq<Vec<i64>>) -> Seq<Seq<i64>> {
    Seq::new(v.len(), |i: int| v[i]@)
}

/// Merges repeated soft observations of the same bits into one
/// vector: entry `j` of the result is the weighted sum of entry `j`
/// of every copy.  Weights proportional to each copy's estimated
/// quality make this maximum-ratio combining; equal weights degrade
/// to plain summation.
pub fn combine_llrs(llr_copies: &Vec<Vec<i64>>, weights: &Vec<i64>) -> (combined: Vec<i64>)
    requires
        llr_copies@.len() == weights@.len(),
        llr_copies@.len() <= MAX_COPIES,
        llr_copies@.len() >= 1,
        forall|t: int, j: int|
            0 <= t < llr_copies@.len() && 0 <= j < llr_copies@[t]@.len()
                ==> -COMBINE_LLR_BOUND <= #[trigger] llr_copies@[t]@[j] <= COMBINE_LLR_BOUND,
        forall|t: int|
            0 <= t < llr_copies@.len() ==> #[trigger] llr_copies@[t]@.len()
                == llr_copies@[0]@.len(),
        forall|t: int|
            0 <= t < weights@.len() ==> 0 <= #[trigger] weights@[t] <= COMBINE_WEIGHT_BOUND,
    ensures
        combined@.len() == llr_copies@[0]@.len(),
        forall|j: int|
            0 <= j < combined@.len() ==> #[trigger] combined@[j] as int == weighted_sum(
                copy_views(llr_copies@),
                weights@,
                j,
                llr_copies@.len() as int,
            ),
{
    let reps: usize = llr_copies.len();
    let num_bits: usize = llr_copies[0].len();
    let mut combined: Vec<i64> = Vec::new();
    let mut j: usize = 0;
    while j < num_bits
        invariant
            j <= num_bits,
            reps == llr_copies@.len(),
            1 <= reps <= MAX_COPIES,
            reps == weights@.len(),
            num_bits == llr_copies@[0]@.len(),
            forall|t: int, jj: int|
                0 <= t < llr_copies@.len() && 0 <= jj < llr_copies@[t]@.len()
                    ==> -COMBINE_LLR_BOUND <= #[trigger] llr_copies@[t]@[jj] <= COMBINE_LLR_BOUND,
            forall|t: int|
                0 <= t < llr_copies@.len() ==> #[trigger] llr_copies@[t]@.len() == num_bits,
            forall|t: int|
                0 <= t < weights@.len() ==> 0 <= #[trigger] weights@[t] <= COMBINE_WEIGHT_BOUND,
            combined@.len() == j,
            forall|jj: int|
                0 <= jj < j ==> #[trigger] combined@[jj] as int == weighted_sum(
                    copy_views(llr_copies@),
                    weights@,
                    jj,
                    reps as int,
                ),
        decreases num_bits - j,
    {
        let mut acc: i64 = 0;
        let mut t: usize = 0;
        while t < reps
            invariant
                t <= reps,
                j < num_bits,
                reps == llr_copies@.len(),
                1 <= reps <= MAX_COPIES,
                reps == weights@.len(),
                forall|tt: int, jj: int|
                    0 <= tt < llr_copies@.len() && 0 <= jj < llr_copies@[tt]@.len()
                        ==> -COMBINE_LLR_BOUND <= #[trigger] llr_copies@[tt]@[jj]
                        <= COMBINE_LLR_BOUND,
                forall|tt: int|
                    0 <= tt < llr_copies@.len() ==> #[trigger] llr_copies@[tt]@.len() == num_bits,
                forall|tt: int|
                    0 <= tt < weights@.len() ==> 0 <= #[trigger] weights@[tt]
                        <= COMBINE_WEIGHT_BOUND,
                acc as int == weighted_sum(copy_views(llr_copies@), weights@, j as int, t as int),
                -((t as int) * ((COMBINE_WEIGHT_BOUND as int) * (COMBINE_LLR_BOUND as int)))
                    <= acc as int <= (t as int) * ((COMBINE_WEIGHT_BOUND as int) * (
                COMBINE_LLR_BOUND as int)),
            decreases reps - t,
        {
            let w: i64 = weights[t];
            let x: i64 = llr_copies[t][j];
            proof {
                assert(copy_views(llr_copies@)[t as int] == llr_copies@[t as int]@);
                assert(-((COMBINE_WEIGHT_BOUND as int) * (COMBINE_LLR_BOUND as int)) <= w as int
                    * x as int <= (COMBINE_WEIGHT_BOUND as int) * (COMBINE_LLR_BOUND as int))
                    by (nonlinear_arith)
                    requires
                        0 <= w <= COMBINE_WEIGHT_BOUND,
                        -COMBINE_LLR_BOUND <= x <= COMBINE_LLR_BOUND,
                ;
                assert((t as int) * ((COMBINE_WEIGHT_BOUND as int) * (COMBINE_LLR_BOUND as int))
                    + (COMBINE_WEIGHT_BOUND as int) * (COMBINE_LLR_BOUND as int) == (t as int + 1)
                    * ((COMBINE_WEIGHT_BOUND as int) * (COMBINE_LLR_BOUND as int)))
                    by (nonlinear_arith);
                assert((t as int + 1) * ((COMBINE_WEIGHT_BOUND as int) * (COMBINE_LLR_BOUND as int))
                    <= (MAX_COPIES as int) * ((COMBINE_WEIGHT_BOUND as int) * (
                COMBINE_LLR_BOUND as int))) by (nonlinear_arith)
                    requires
                        0 <= t as int + 1 <= MAX_COPIES as int,
                ;
            }
            acc = acc + w * x;
            t += 1;
        }
        combined.push(acc);
        j += 1;
    }
    combined
}

/// With unit weights, maximum-ratio combining is the elementwise sum
/// of the copies.
pub proof fn lemma_equal_weight_combining(copies: Seq<Seq<i64>>, weights: Seq<i64>, j: int, t: int)
    requires
        forall|w: int| 0 <= w < weights.len() ==> #[trigger] weights[w] == 1i64,
        t <= weights.len(),
    ensures
        weighted_sum(copies, weights, j, t) == copy_sum(copies, j, t),
    decreases t,
{
    if t > 0 {
        lemma_equal_weight_combining(copies, weights, j, t - 1);
        assert(weights[t - 1] == 1i64);
        assert(1i64 * copies[t - 1][j] == copies[t - 1][j]) by (nonlinear_arith);
    }
}

/// The vote weight of a copy: its quality estimate, floored at a
/// small positive minimum.
pub open spec fn vote_weight(snr: i64) -> int {
    if snr < MIN_VOTE_WEIGHT {
        MIN_VOTE_WEIGHT as int
    } else {
        snr as int
    }
}

/// Accumulated vote for byte value `v` at position `p` over the
/// first `t` copies: each copy long enough to have a byte there adds
/// its vote weight when that byte equals `v`.
pub open spec fn byte_vote(copies: Seq<DecodedCopy>, p: int, v: u8, t: int) -> int
    decreases t,
{
    if t <= 0 {
        0
    } else {
        byte_vote(copies, p, v, t - 1) + if p < copies[t - 1].data@.len() && copies[t
            - 1].data@[p] == v {
            vote_weight(copies[t - 1].snr_estimate)
        } else {
            0
        }
    }
}

/// Value `v` gathers the most votes at position `p`, and every
/// smaller value gathers strictly fewer: the lowest byte value wins
/// ties, a fixed deterministic tie-break.
pub open spec fn is_best_vote(copies: Seq<DecodedCopy>, p: int, v: u8) -> bool {
    &&& forall|u: u8| byte_vote(copies, p, u, copies.len() as int) <= byte_vote(
        copies,
        p,
        v,
        copies.len() as int,
    )
    &&& forall|u: u8|
        u < v ==> byte_vote(copies, p, u, copies.len() as int) < byte_vote(
            copies,
            p,
            v,
            copies.len() as int,
        )
}

/// Length of the longest decoded copy among the first `t`.
pub open spec fn max_data_len(copies: Seq<DecodedCopy>, t: int) -> int
    decreases t,
{
    if t <= 0 {
        0
    } else {
        let rest = max_data_len(copies, t - 1);
        if copies[t - 1].data@.len() > rest {
            copies[t - 1].data@.len() as int
        } else {
            rest
        }
    }
}

/// Hard-decision fallback combiner: at every byte position, each
/// copy votes for the byte it decoded there with a weight given by
/// its quality estimate, and the value with the highest accumulated
/// weight wins (lowest value on a tie).
pub fn combine_decoded_copies(copies: &Vec<DecodedCopy>) -> (combined: Vec<u8>)
    requires
        copies@.len() <= MAX_COPIES,
        forall|t: int|
            0 <= t < copies@.len() ==> (#[trigger] copies@[t].snr_estimate) <= SNR_BOUND,
    ensures
        combined@.len() == max_data_len(copies@, copies@.len() as int),
        forall|p: int|
            0 <= p < combined@.len() ==> is_best_vote(copies@, p, #[trigger] combined@[p]),
{
    let nc: usize = copies.len();
    if nc == 0 {
        return Vec::new();
    }
    // Longest copy sets the output length.
    let mut max_len: usize = 0;
    let mut t: usize = 0;
    while t < nc
        invariant
            t <= nc,
            nc == copies@.len(),
            max_len as int == max_data_len(copies@, t as int),
        decreases nc - t,
    {
        let dl: usize = copies[t].data.len();
        if dl > max_len {
            max_len = dl;
        }
        t += 1;
    }
    let mut combined: Vec<u8> = Vec::new();
    let mut p: usize = 0;
    while p < max_len
        invariant
            p <= max_len,
            nc == copies@.len(),
            1 <= nc <= MAX_COPIES,
            forall|tt: int|
                0 <= tt < copies@.len() ==> (#[trigger] copies@[tt].snr_estimate) <= SNR_BOUND,
            max_len as int == max_data_len(copies@, nc as int),
            combined@.len() == p,
            forall|pp: int|
                0 <= pp < p ==> is_best_vote(copies@, pp, #[trigger] combined@[pp]),
        decreases max_len - p,
    {
        let mut best_byte: u8 = 0;
        let mut best_vote: i64 = byte_vote_exec(copies, p, 0);
        let mut v: usize = 1;
        while v < 256
            invariant
                1 <= v <= 256,
                p < max_len,
                nc == copies@.len(),
                1 <= nc <= MAX_COPIES,
                forall|tt: int|
                    0 <= tt < copies@.len() ==> (#[trigger] copies@[tt].snr_estimate) <= SNR_BOUND,
                best_byte < v,
                best_vote as int == byte_vote(copies@, p as int, best_byte, nc as int),
                forall|u: u8|
                    u < v ==> byte_vote(copies@, p as int, u, nc as int) <= best_vote as int,
                forall|u: u8|
                    u < best_byte ==> byte_vote(copies@, p as int, u, nc as int)
                        < best_vote as int,
            decreases 256 - v,
        {
            let cand: i64 = byte_vote_exec(copies, p, v as u8);
            if cand > best_vote {
                best_byte = v as u8;
                best_vote = cand;
            }
            v += 1;
        }
        combined.push(best_byte);
        p += 1;
    }
    combined
}

/// Accumulates the vote weight for one byte value at one position.
fn byte_vote_exec(copies: &Vec<DecodedCopy>, p: usize, v: u8) -> (vote: i64)
    requires
        copies@.len() <= MAX_COPIES,
        forall|t: int|
            0 <= t < copies@.len() ==> (#[trigger] copies@[t].snr_estimate) <= SNR_BOUND,
    ensures
        vote as int == byte_vote(copies@, p as int, v, copies@.len() as int),
{
    let nc: usize = copies.len();
    let mut vote: i64 = 0;
    let mut t: usize = 0;
    while t < nc
        invariant
            t <= nc,
            nc == copies@.len(),
            nc <= MAX_COPIES,
            forall|tt: int|
                0 <= tt < copies@.len() ==> (#[trigger] copies@[tt].snr_estimate) <= SNR_BOUND,
            vote as int == byte_vote(copies@, p as int, v, t as int),
            0 <= vote as int <= (t as int) * (SNR_BOUND as int),
        decreases nc - t,
    {
        proof {
            assert((t as int) * (SNR_BOUND as int) + SNR_BOUND == (t as int + 1) * (
            SNR_BOUND as int)) by (nonlinear_arith);
            assert((t as int + 1) * (SNR_BOUND as int) <= (MAX_COPIES as int) * (SNR_BOUND as int))
                by (nonlinear_arith)
                requires
                    0 <= t as int + 1 <= MAX_COPIES as int,
            ;
        }
        if p < copies[t].data.len() && copies[t].data[p] == v {
            let snr: i64 = copies[t].snr_estimate;
            let w: i64 = if snr < MIN_VOTE_WEIGHT {
                MIN_VOTE_WEIGHT
            } else {
                snr
            };
            vote = vote + w;
        }
        t += 1;
    }
    vote
}

} // verus!
