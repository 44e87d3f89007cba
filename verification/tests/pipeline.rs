use bachmodem::bits::encode_bits;
use bachmodem::bits::pack_bits;
use bachmodem::interleaver::deinterleave_llrs;
use bachmodem::interleaver::interleave;
use bachmodem::polar::PolarCode;
use bachmodem::polar::LLR_SCALE;
use bachmodem::repetition::combine_llrs;

#[test]
fn test_zero_payload_through_the_whole_pipeline() {
    // Sixteen zero bytes expand to the 128 information bits of the
    // rate-1/2 code used throughout the examples.
    let payload: Vec<u8> = vec![0; 16];
    let info_bits = encode_bits(&payload);
    assert_eq!(info_bits.len(), 128);

    let code = PolarCode::new(256, 128);
    let codeword = code.encode(&info_bits);
    let tx_bits = interleave(&codeword, 16);

    // A noiseless channel hands back one strong observation per bit;
    // three repetitions are merged in the soft domain before the
    // deinterleaver and the decoder.
    let one_copy: Vec<i64> = tx_bits
        .iter()
        .map(|&b| if b == 0 { 10 * LLR_SCALE } else { -10 * LLR_SCALE })
        .collect();
    let copies: Vec<Vec<i64>> = vec![one_copy.clone(), one_copy.clone(), one_copy];
    let combined = combine_llrs(&copies, &vec![1, 1, 1]);
    let llrs = deinterleave_llrs(&combined, 16);

    let decoded_bits = code.decode_scl(&llrs, 8);
    assert_eq!(decoded_bits, info_bits);
    assert_eq!(pack_bits(&decoded_bits), payload);
}
