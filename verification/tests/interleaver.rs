use bachmodem::interleaver::deinterleave;
use bachmodem::interleaver::deinterleave_llrs;
use bachmodem::interleaver::interleave;
use bachmodem::interleaver::interleave_llrs;

#[test]
fn test_interleave_deinterleave() {
    let original: Vec<u8> = (0..16).collect();
    let num_columns = 4;

    let interleaved = interleave(&original, num_columns);
    let deinterleaved = deinterleave(&interleaved, num_columns);

    assert_eq!(original, deinterleaved);

    println!("Original:     {:?}", original);
    println!("Interleaved:  {:?}", interleaved);
    println!("Deinterleaved: {:?}", deinterleaved);
}

#[test]
fn test_burst_error_spreading() {
    let bits: Vec<u8> = (0..16).collect();
    let interleaved = interleave(&bits, 4);

    // Expected: [0,4,8,12,1,5,9,13,2,6,10,14,3,7,11,15]
    assert_eq!(interleaved[0], 0);
    assert_eq!(interleaved[1], 4);
    assert_eq!(interleaved[2], 8);
    assert_eq!(interleaved[3], 12);
}

#[test]
fn test_interleave_full_permutation() {
    let bits: Vec<u8> = (0..16).collect();
    let interleaved = interleave(&bits, 4);
    assert_eq!(
        interleaved,
        vec![0, 4, 8, 12, 1, 5, 9, 13, 2, 6, 10, 14, 3, 7, 11, 15]
    );
}

#[test]
fn test_interleave_zero_columns_is_identity() {
    let bits: Vec<u8> = vec![1, 0, 1, 1, 0];
    assert_eq!(interleave(&bits, 0), bits);
    assert_eq!(deinterleave(&bits, 0), bits);
}

#[test]
fn test_interleave_empty_is_identity() {
    let bits: Vec<u8> = Vec::new();
    assert_eq!(interleave(&bits, 7), bits);
    assert_eq!(deinterleave(&bits, 7), bits);
}

#[test]
fn test_interleave_roundtrip_many_lengths() {
    for columns in 1..9usize {
        for rows in 1..9usize {
            let n = columns * rows;
            let original: Vec<u8> = (0..n).map(|i| (i % 251) as u8).collect();
            let roundtrip = deinterleave(&interleave(&original, columns), columns);
            assert_eq!(original, roundtrip);
        }
    }
}

#[test]
fn test_interleave_llrs_roundtrip() {
    let original: Vec<i64> = (0..32).map(|i| (i as i64) * 17 - 200).collect();
    let interleaved = interleave_llrs(&original, 16);
    let deinterleaved = deinterleave_llrs(&interleaved, 16);
    assert_eq!(original, deinterleaved);
}

#[test]
fn test_interleave_llrs_matches_bit_permutation() {
    let bits: Vec<u8> = (0..16).collect();
    let soft: Vec<i64> = (0..16).collect();
    let hard = interleave(&bits, 4);
    let softed = interleave_llrs(&soft, 4);
    for i in 0..16 {
        assert_eq!(hard[i] as i64, softed[i]);
    }
}
