//! Forward-error-correction core for a weak-signal acoustic modem.
//!
//! The crate covers the digital half of the physical layer: payload
//! bit expansion, block interleaving, a polar code with
//! successive-cancellation-list decoding, a belief-propagation decoder
//! over the same butterfly factor graph, a RAKE multipath combiner, a
//! repetition combiner and a time-slot scheduler, together with a
//! CRC-8 integrity check.  Soft bit confidences (log-likelihood
//! ratios) and signal samples are carried as fixed-point integers so
//! that every combining and decoding rule has exact arithmetic
//! semantics; waveform synthesis, audio I/O and channel simulation
//! live outside this crate and exchange plain integer vectors with it.

pub mod bits;
pub mod crc;
pub mod interleaver;
pub mod polar;
pub mod polar_bp;
pub mod rake;
pub mod repetition;
pub mod melody;
