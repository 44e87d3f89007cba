use bachmodem::repetition::combine_decoded_copies;
use bachmodem::repetition::combine_llrs;
use bachmodem::repetition::CombiningStrategy;
use bachmodem::repetition::DecodedCopy;
use bachmodem::repetition::TimeSlotConfig;
use bachmodem::repetition::SNR_SCALE;

#[test]
fn test_time_slot_config() {
    let config = TimeSlotConfig::new(13, 5, 10_000);

    assert_eq!(config.num_repetitions, 5);
    assert_eq!(config.listening_gap, 10_000);
    assert!(config.transmission_duration > 0);
    assert_eq!(config.slot_starts.len(), 5);

    println!("Time slot config: {:?}", config.slot_starts);
}

#[test]
fn test_transmission_duration_formula() {
    // 13 bytes = 104 bits, padded to 112, plus a 16-bit reference
    // block: 128 symbols of 100 ms, two flourishes of 1600 ms, a
    // 3200 ms preamble and a 1600 ms postamble.
    let config = TimeSlotConfig::new(13, 5, 10_000);
    assert_eq!(config.transmission_duration, 3200 + 128 * 100 + 2 * 1600 + 1600);
}

#[test]
fn test_schedule_is_deterministic_and_evenly_spaced() {
    let a = TimeSlotConfig::new(13, 5, 10_000);
    let b = TimeSlotConfig::new(13, 5, 10_000);
    assert_eq!(a.slot_starts, b.slot_starts);
    let step = a.transmission_duration + a.listening_gap;
    for i in 0..4 {
        assert_eq!(a.slot_starts[i + 1] - a.slot_starts[i], step);
    }
    assert_eq!(a.slot_starts[0], 0);
    assert_eq!(a.total_duration(), a.slot_starts[4] + a.transmission_duration);
}

#[test]
fn test_empty_schedule() {
    let config = TimeSlotConfig::new(13, 0, 10_000);
    assert_eq!(config.slot_starts.len(), 0);
    assert_eq!(config.total_duration(), 0);
}

#[test]
fn test_combine_llrs_equal_weights_sum() {
    let copies: Vec<Vec<i64>> = vec![vec![5, -5, 5], vec![5, -5, 5], vec![5, -5, 5]];
    let weights: Vec<i64> = vec![1, 1, 1];
    assert_eq!(combine_llrs(&copies, &weights), vec![15, -15, 15]);
}

#[test]
fn test_combine_llrs_weighted() {
    let copies: Vec<Vec<i64>> = vec![vec![10, -10], vec![-4, 4]];
    let weights: Vec<i64> = vec![3, 2];
    assert_eq!(combine_llrs(&copies, &weights), vec![30 - 8, -30 + 8]);
}

#[test]
fn test_combine_decoded_copies() {
    let copies = vec![
        DecodedCopy {
            repetition: 0,
            data: b"Hello".to_vec(),
            snr_estimate: 10 * SNR_SCALE,
            correlation: 8 * SNR_SCALE / 10,
            num_symbols: 50,
        },
        DecodedCopy {
            repetition: 1,
            data: b"Hallo".to_vec(), // One error
            snr_estimate: 5 * SNR_SCALE,
            correlation: 6 * SNR_SCALE / 10,
            num_symbols: 50,
        },
        DecodedCopy {
            repetition: 2,
            data: b"Hello".to_vec(),
            snr_estimate: 8 * SNR_SCALE,
            correlation: 7 * SNR_SCALE / 10,
            num_symbols: 50,
        },
    ];

    let combined = combine_decoded_copies(&copies);

    // Should vote for "Hello" (2 high-SNR votes vs 1 low-SNR vote)
    assert_eq!(combined, b"Hello");

    println!("Combined result: {:?}", String::from_utf8_lossy(&combined));
}

#[test]
fn test_combine_decoded_copies_empty() {
    let copies: Vec<DecodedCopy> = Vec::new();
    assert_eq!(combine_decoded_copies(&copies), Vec::<u8>::new());
}

#[test]
fn test_combine_decoded_copies_ragged_lengths() {
    let copies = vec![
        DecodedCopy {
            repetition: 0,
            data: vec![1, 2],
            snr_estimate: SNR_SCALE,
            correlation: 0,
            num_symbols: 16,
        },
        DecodedCopy {
            repetition: 1,
            data: vec![9, 2, 3],
            snr_estimate: 2 * SNR_SCALE,
            correlation: 0,
            num_symbols: 24,
        },
    ];
    // Position 0: value 9 outweighs value 1; position 2 only the
    // longer copy votes.
    assert_eq!(combine_decoded_copies(&copies), vec![9, 2, 3]);
}

#[test]
fn test_vote_floor_keeps_weak_copies_counted() {
    let copies = vec![
        DecodedCopy {
            repetition: 0,
            data: vec![7],
            snr_estimate: -100,
            correlation: 0,
            num_symbols: 8,
        },
    ];
    assert_eq!(combine_decoded_copies(&copies), vec![7]);
}

#[test]
fn test_combining_strategy_is_copyable() {
    let s = CombiningStrategy::MaxRatio;
    let t = s;
    assert!(matches!(t, CombiningStrategy::MaxRatio));
    assert!(matches!(s, CombiningStrategy::MaxRatio));
}
