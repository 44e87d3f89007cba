use bachmodem::polar_bp::PolarCodeBP;
use bachmodem::polar_bp::BP_CAP;
use bachmodem::polar_bp::FROZEN_PRIOR;

#[test]
fn test_frozen_mask_small() {
    let code = PolarCodeBP::new(4, 2);
    assert_eq!(code.n, 4);
    assert_eq!(code.k, 2);
    assert_eq!(code.frozen_mask, vec![true, false, true, false]);
}

#[test]
fn test_zero_iterations_passthrough_plus_priors() {
    // Without propagation the decoder returns the channel values
    // with the frozen priors added on top.
    let code = PolarCodeBP::new(4, 2);
    let llrs: Vec<i64> = vec![100, 200, -300, 400];
    let out = code.decode_bp(&llrs, 0);
    assert_eq!(out, vec![100 + FROZEN_PRIOR, 200, -300 + FROZEN_PRIOR, 400]);
}

#[test]
fn test_zero_iterations_single_stage() {
    let info_only = PolarCodeBP::new(1, 1);
    assert_eq!(info_only.frozen_mask, vec![false]);
    assert_eq!(info_only.decode_bp(&vec![500], 0), vec![500]);

    let frozen_only = PolarCodeBP::new(1, 0);
    assert_eq!(frozen_only.frozen_mask, vec![true]);
    assert_eq!(frozen_only.decode_bp(&vec![500], 0), vec![500 + FROZEN_PRIOR]);
}

#[test]
fn test_one_iteration_two_positions() {
    // n = 2: position 0 frozen, position 1 information.
    let code = PolarCodeBP::new(2, 1);
    assert_eq!(code.frozen_mask, vec![true, false]);
    let out = code.decode_bp(&vec![100, -200], 1);
    // Forward: L1 = [min_sum(100, -200), min_sum(100, prior) - 200]
    //            = [-100, -100].
    // Output adds the priors [FROZEN_PRIOR, 0] back on top.
    assert_eq!(out, vec![FROZEN_PRIOR - 100, -100]);
}

#[test]
fn test_decoder_is_deterministic() {
    let code = PolarCodeBP::new(8, 4);
    let llrs: Vec<i64> = vec![500, -1200, 333, -1, 0, 250000, -250000, 7];
    let a = code.decode_bp(&llrs, 25);
    let b = code.decode_bp(&llrs, 25);
    assert_eq!(a, b);
}

#[test]
fn test_outputs_stay_bounded() {
    let code = PolarCodeBP::new(8, 4);
    let llrs: Vec<i64> = vec![
        BP_CAP,
        -BP_CAP,
        BP_CAP,
        -BP_CAP,
        BP_CAP / 2,
        -BP_CAP / 2,
        12345,
        -54321,
    ];
    for &iterations in &[0usize, 1, 5, 40] {
        let out = code.decode_bp(&llrs, iterations);
        assert_eq!(out.len(), 8);
        for &v in &out {
            assert!(-BP_CAP <= v && v <= BP_CAP);
        }
    }
}

#[test]
fn test_clean_input_keeps_signs_after_iterations() {
    // A strongly biased channel: every position votes for bit zero.
    let code = PolarCodeBP::new(4, 2);
    let llrs: Vec<i64> = vec![2560, 2560, 2560, 2560];
    let out = code.decode_bp(&llrs, 20);
    for &v in &out {
        assert!(v > 0);
    }
}
