//! The frequency-hopping melody: the fixed pattern of tone indices
//! that data symbols cycle through, chosen as musical intervals
//! rather than a linear sweep.

use vstd::prelude::*;

verus! {

/// The tone index used at step `i` of the hopping pattern, a fixed
/// permutation of the sixteen tones repeated cyclically.
pub open spec fn hop_index(i: int) -> usize {
    let r = i % 16;
    if r == 0 {
        0usize
    } else if r == 1 {
        7usize
    } else if r == 2 {
        4usize
    } else if r == 3 {
        12usize
    } else if r == 4 {
        2usize
    } else if r == 5 {
        9usize
    } else if r == 6 {
        5usize
    } else if r == 7 {
        14usize
    } else if r == 8 {
        1usize
    } else if r == 9 {
        8usize
    } else if r == 10 {
        3usize
    } else if r == 11 {
        11usize
    } else if r == 12 {
        6usize
    } else if r == 13 {
        13usize
    } else if r == 14 {
        10usize
    } else {
        15usize
    }
}

/// Generates the melody hopping sequence for a number of symbols:
/// symbol `i` uses tone `hop_index(i)`.
pub fn get_melody_indices(num_symbols: usize) -> (indices: Vec<usize>)
    ensures
        indices@.len() == num_symbols,
        forall|i: int| 0 <= i < num_symbols ==> #[trigger] indices@[i] == hop_index(i),
{
    let mut indices: Vec<usize> = Vec::new();
    let mut i: usize = 0;
    while i < num_symbols
        invariant
            i <= num_symbols,
            indices@.len() == i,
            forall|t: int| 0 <= t < i ==> #[trigger] indices@[t] == hop_index(t),
        decreases num_symbols - i,
    {
        let r: usize = i % 16;
        let tone: usize = if r == 0 {
            0
        } else if r == 1 {
            7
        } else if r == 2 {
            4
        } else if r == 3 {
            12
        } else if r == 4 {
            2
        } else if r == 5 {
            9
        } else if r == 6 {
            5
        } else if r == 7 {
            14
        } else if r == 8 {
            1
        } else if r == 9 {
            8
        } else if r == 10 {
            3
        } else if r == 11 {
            11
        } else if r == 12 {
            6
        } else if r == 13 {
            13
        } else if r == 14 {
            10
        } else {
            15
        };
        indices.push(tone);
        i += 1;
    }
    indices
}

} // verus!
