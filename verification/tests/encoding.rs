use state_sketch::encode::{decode_header, encode_header};
use state_sketch::types::BlockHeader;

fn sample_header() -> BlockHeader {
    BlockHeader {
        number: 0x0102030405060708,
        timestamp: 42,
        parent_hash: (0u8..32).collect(),
        state_root: (32u8..64).collect(),
    }
}

#[test]
fn header_round_trip() {
    let h = sample_header();
    let bytes = encode_header(&h);
    assert_eq!(bytes.len(), 80);
    // number is written in little-endian order
    assert_eq!(&bytes[0..8], &[8, 7, 6, 5, 4, 3, 2, 1]);
    let back = decode_header(&bytes).unwrap();
    assert_eq!(back.number, h.number);
    assert_eq!(back.timestamp, h.timestamp);
    assert_eq!(back.parent_hash, h.parent_hash);
    assert_eq!(back.state_root, h.state_root);
}

#[test]
fn header_decode_rejects_wrong_length() {
    let h = sample_header();
    let mut bytes = encode_header(&h);
    bytes.push(0);
    assert!(decode_header(&bytes).is_none());
    bytes.truncate(79);
    assert!(decode_header(&bytes).is_none());
}
