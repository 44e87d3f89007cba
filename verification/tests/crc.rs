use bachmodem::bits::encode_bits;
use bachmodem::crc::crc8;
use bachmodem::crc::encode_with_crc;
use bachmodem::crc::verify_crc;

#[test]
fn test_crc8_known_values() {
    assert_eq!(crc8(&[]), 0);
    // The standard check value of the 0x07-polynomial checksum.
    assert_eq!(crc8(b"123456789"), 0xF4);
    assert_eq!(crc8(&[0x00]), 0x00);
    assert_eq!(crc8(&[0x01]), 0x07);
}

#[test]
fn test_encode_with_crc_layout() {
    let data = b"AB";
    let encoded = encode_with_crc(data);
    assert_eq!(encoded.len(), 2 * 8 + 8);
    assert_eq!(&encoded[0..16], encode_bits(data).as_slice());
    let crc = crc8(data);
    for i in 0..8 {
        assert_eq!(encoded[16 + i], (crc >> (7 - i)) & 1);
    }
}

#[test]
fn test_crc_roundtrip() {
    let cases: Vec<Vec<u8>> = vec![
        vec![],
        vec![0x00],
        vec![0xFF],
        b"Hello".to_vec(),
        (0..=255u8).collect(),
    ];
    for data in cases {
        let encoded = encode_with_crc(&data);
        assert!(verify_crc(&encoded));
    }
}

#[test]
fn test_crc_detects_every_single_bit_flip() {
    let data = b"polar";
    let encoded = encode_with_crc(data);
    for i in 0..encoded.len() {
        let mut corrupted = encoded.clone();
        corrupted[i] ^= 1;
        assert!(!verify_crc(&corrupted), "flip at {} went undetected", i);
    }
}

#[test]
fn test_verify_crc_rejects_short_input() {
    assert!(!verify_crc(&[]));
    assert!(!verify_crc(&[1, 0, 1, 0, 1, 0, 1]));
}
