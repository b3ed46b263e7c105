use miniredis::codec::encode;
use miniredis::codec::process_record;
use miniredis::DecodeOutcome;

fn roundtrip(key: &[u8], value: &[u8]) {
    let bytes = encode(key, value).unwrap();
    assert_eq!(bytes.len(), 12 + key.len() + value.len());
    match process_record(&bytes, 0) {
        DecodeOutcome::Record { kv, next } => {
            assert_eq!(kv.key, key.to_vec());
            assert_eq!(kv.value, value.to_vec());
            assert_eq!(next, bytes.len());
        }
        _ => panic!("expected a record"),
    }
}

#[test]
fn round_trip_basic() {
    roundtrip(b"name", b"alice");
    roundtrip(b"k", b"v");
}

#[test]
fn round_trip_empty_key_and_value() {
    roundtrip(b"", b"");
    roundtrip(b"", b"value");
    roundtrip(b"key", b"");
}

#[test]
fn round_trip_every_byte_value() {
    let all: Vec<u8> = (0u8..=255u8).collect();
    roundtrip(&all, &all);
    roundtrip(&all, b"");
    roundtrip(b"\x00", b"\x00\xff\x00");
}

#[test]
fn checksum_is_crc32_cksum() {
    // The CRC-32/CKSUM check value: the digest of "123456789" is 0x765e7680.
    let bytes = encode(b"", b"123456789").unwrap();
    assert_eq!(&bytes[0..4], &0x765e7680u32.to_le_bytes());
}

#[test]
fn header_lengths_are_little_endian() {
    let bytes = encode(b"ab", b"xyz").unwrap();
    assert_eq!(&bytes[4..8], &2u32.to_le_bytes());
    assert_eq!(&bytes[8..12], &3u32.to_le_bytes());
    assert_eq!(&bytes[12..14], b"ab");
    assert_eq!(&bytes[14..17], b"xyz");
}

#[test]
fn flipping_any_payload_bit_is_reported_as_corruption() {
    let bytes = encode(b"name", b"alice").unwrap();
    for i in 12..bytes.len() {
        for bit in 0..8 {
            let mut corrupt = bytes.clone();
            corrupt[i] ^= 1u8 << bit;
            match process_record(&corrupt, 0) {
                DecodeOutcome::Corrupt { stored, computed } => {
                    assert_ne!(stored, computed);
                }
                _ => panic!("a flipped payload bit must be reported as corruption"),
            }
        }
    }
}

#[test]
fn flipping_a_stored_checksum_bit_is_reported_as_corruption() {
    let bytes = encode(b"k", b"v").unwrap();
    for i in 0..4 {
        for bit in 0..8 {
            let mut corrupt = bytes.clone();
            corrupt[i] ^= 1u8 << bit;
            assert!(matches!(
                process_record(&corrupt, 0),
                DecodeOutcome::Corrupt { .. }
            ));
        }
    }
}

#[test]
fn short_header_is_clean_end_of_data() {
    assert!(matches!(
        process_record(&Vec::new(), 0),
        DecodeOutcome::EndOfData
    ));
    let bytes = encode(b"k", b"v").unwrap();
    for cut in 1..12 {
        let partial = bytes[..cut].to_vec();
        assert!(matches!(
            process_record(&partial, 0),
            DecodeOutcome::EndOfData
        ));
    }
}

#[test]
fn short_payload_is_truncation() {
    let bytes = encode(b"key", b"value").unwrap();
    for cut in 12..bytes.len() {
        let partial = bytes[..cut].to_vec();
        assert!(matches!(
            process_record(&partial, 0),
            DecodeOutcome::Truncated
        ));
    }
}

#[test]
fn decode_at_record_boundary_within_a_longer_log() {
    let mut log = encode(b"a", b"1").unwrap();
    let second = encode(b"b", b"22").unwrap();
    let off = log.len();
    log.extend_from_slice(&second);
    match process_record(&log, off) {
        DecodeOutcome::Record { kv, next } => {
            assert_eq!(kv.key, b"b".to_vec());
            assert_eq!(kv.value, b"22".to_vec());
            assert_eq!(next, log.len());
        }
        _ => panic!("expected a record"),
    }
}
