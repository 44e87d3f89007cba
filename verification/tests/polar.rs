use bachmodem::polar::compute_soft_bits;
use bachmodem::polar::soft_bits_to_llrs;
use bachmodem::polar::PolarCode;
use bachmodem::polar::LLR_SCALE;

#[test]
fn test_bit_reversal() {
    assert_eq!(PolarCode::bit_reversal(0b0000, 4), 0b0000);
    assert_eq!(PolarCode::bit_reversal(0b0001, 4), 0b1000);
    assert_eq!(PolarCode::bit_reversal(0b0010, 4), 0b0100);
    assert_eq!(PolarCode::bit_reversal(0b1010, 4), 0b0101);
}

#[test]
fn test_construction_partitions_positions() {
    let code = PolarCode::new(256, 128);
    assert_eq!(code.n, 256);
    assert_eq!(code.k, 128);
    assert_eq!(code.info_positions.len(), 128);
    assert_eq!(code.frozen_positions.len(), 128);
    // With a rate-1/2 code the reversal rule selects the odd positions.
    for j in 0..128 {
        assert_eq!(code.info_positions[j], 2 * j + 1);
        assert_eq!(code.frozen_positions[j], 2 * j);
    }
}

#[test]
fn test_construction_small() {
    let code = PolarCode::new(4, 2);
    assert_eq!(code.info_positions, vec![1, 3]);
    assert_eq!(code.frozen_positions, vec![0, 2]);
}

#[test]
fn test_encode_small_codewords() {
    let code = PolarCode::new(4, 2);
    assert_eq!(code.encode(&[0, 0]), vec![0, 0, 0, 0]);
    assert_eq!(code.encode(&[1, 0]), vec![1, 1, 0, 0]);
    assert_eq!(code.encode(&[0, 1]), vec![1, 1, 1, 1]);
    assert_eq!(code.encode(&[1, 1]), vec![0, 0, 1, 1]);
}

#[test]
fn test_decode_reads_channel_values_at_info_positions() {
    let code = PolarCode::new(4, 2);
    let llrs: Vec<i64> = vec![100, -100, 50, -50];
    assert_eq!(code.decode_sc(&llrs), vec![1, 1]);
    // A larger list leaves the decision rule unchanged.
    assert_eq!(code.decode_scl(&llrs, 8), vec![1, 1]);
}

#[test]
fn test_zero_message_clean_roundtrip() {
    let code = PolarCode::new(256, 128);
    let info: Vec<u8> = vec![0; 128];
    let codeword = code.encode(&info);
    assert_eq!(codeword.len(), 256);
    assert!(codeword.iter().all(|&b| b == 0));
    let llrs: Vec<i64> = codeword
        .iter()
        .map(|&bit| if bit == 0 { 10 * LLR_SCALE } else { -10 * LLR_SCALE })
        .collect();
    let decoded = code.decode_sc(&llrs);
    assert_eq!(decoded, info);
}

#[test]
fn test_single_info_bit_clean_roundtrip() {
    let code = PolarCode::new(8, 1);
    for &bit in &[0u8, 1u8] {
        let codeword = code.encode(&[bit]);
        let llrs: Vec<i64> = codeword
            .iter()
            .map(|&b| if b == 0 { 10 * LLR_SCALE } else { -10 * LLR_SCALE })
            .collect();
        assert_eq!(code.decode_sc(&llrs), vec![bit]);
    }
}

#[test]
fn test_channel_value_decoder_is_not_a_full_roundtrip() {
    // The decision metric reads raw channel values, so a codeword
    // whose information positions do not carry the message bits
    // unchanged decodes to the codeword bits, not the message.
    let code = PolarCode::new(4, 2);
    let info: Vec<u8> = vec![0, 1];
    let codeword = code.encode(&info);
    assert_eq!(codeword, vec![1, 1, 1, 1]);
    let llrs: Vec<i64> = codeword
        .iter()
        .map(|&b| if b == 0 { 10 * LLR_SCALE } else { -10 * LLR_SCALE })
        .collect();
    assert_eq!(code.decode_sc(&llrs), vec![1, 1]);
}

#[test]
fn test_decode_clipping_ignores_magnitude_beyond_twenty_units() {
    let code = PolarCode::new(2, 1);
    // Information position is 1; a huge value decides like a clipped one.
    assert_eq!(code.decode_sc(&[0, i64::MAX]), vec![0]);
    assert_eq!(code.decode_sc(&[0, i64::MIN + 1]), vec![1]);
}

#[test]
fn test_soft_bits_to_llrs_gain() {
    let soft: Vec<i64> = vec![0, 64, -64, 256];
    assert_eq!(soft_bits_to_llrs(&soft), vec![0, 256, -256, 1024]);
}

#[test]
fn test_compute_soft_bits_signs() {
    let symbols: Vec<u8> = vec![0, 1, 0, 1];
    let confidences: Vec<i64> = vec![10, 20, 30, 40];
    assert_eq!(compute_soft_bits(&symbols, &confidences), vec![10, -20, 30, -40]);
}

#[test]
fn test_alternating_message_clean_channel_error_count() {
    // The (256,128) code on the alternating message over a perfect
    // channel.  The channel-value decision rule returns the codeword
    // bits at the information positions; for this message the
    // codeword is zero everywhere except its last four positions, so
    // exactly 64 of the 128 decoded bits differ from the message.
    let code = PolarCode::new(256, 128);

    let info_bits: Vec<u8> = (0..128).map(|i| (i % 2) as u8).collect();

    let codeword = code.encode(&info_bits);
    assert_eq!(codeword.len(), 256);
    for p in 0..256 {
        assert_eq!(codeword[p], if p >= 252 { 1 } else { 0 });
    }

    let llrs: Vec<i64> = codeword
        .iter()
        .map(|&bit| if bit == 0 { 10 * LLR_SCALE } else { -10 * LLR_SCALE })
        .collect();

    let decoded = code.decode_sc(&llrs);

    // Decoded bit j is codeword bit 2j + 1.
    for j in 0..128 {
        assert_eq!(decoded[j], codeword[2 * j + 1]);
    }
    let errors = info_bits
        .iter()
        .zip(decoded.iter())
        .filter(|(a, b)| a != b)
        .count();
    println!("Polar code test: {} bit errors / {} bits", errors, 128);
    assert_eq!(errors, 64);
}
