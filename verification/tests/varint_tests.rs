use avrobench::varint::{decode_long_at, decode_varint_at, encode_long, encode_varint};

fn enc_long(n: i64) -> Vec<u8> {
    let mut out = Vec::new();
    encode_long(&mut out, n);
    out
}

#[test]
fn zigzag_small_values() {
    assert_eq!(enc_long(0), vec![0]);
    assert_eq!(enc_long(-1), vec![1]);
    assert_eq!(enc_long(1), vec![2]);
    assert_eq!(enc_long(-2), vec![3]);
    assert_eq!(enc_long(2), vec![4]);
    assert_eq!(enc_long(63), vec![126]);
    assert_eq!(enc_long(-64), vec![127]);
    assert_eq!(enc_long(64), vec![0x80, 0x01]);
}

#[test]
fn round_trip_extremes() {
    for n in [0, 1, -1, 127, 128, -128, i64::MAX, i64::MIN, 1 << 40] {
        let bytes = enc_long(n);
        let (m, c) = decode_long_at(&bytes, 0).expect("own encoding decodes");
        assert_eq!(m, n);
        assert_eq!(c, bytes.len());
    }
}

#[test]
fn varint_unsigned_round_trip() {
    for u in [0u64, 127, 128, 300, u64::MAX] {
        let mut bytes = Vec::new();
        encode_varint(&mut bytes, u);
        let (v, c) = decode_varint_at(&bytes, 0).expect("own encoding decodes");
        assert_eq!(v, u);
        assert_eq!(c, bytes.len());
    }
}

#[test]
fn non_canonical_zero_is_accepted() {
    let (v, c) = decode_varint_at(&[0x80, 0x00], 0).expect("padded zero decodes");
    assert_eq!(v, 0);
    assert_eq!(c, 2);
}

#[test]
fn overflowing_varint_is_rejected() {
    // eleven bytes of continuation spell a value past 64 bits
    let bytes = [0xffu8, 0xff, 0xff, 0xff, 0xff, 0xff, 0xff, 0xff, 0xff, 0xff, 0x01];
    assert!(decode_varint_at(&bytes, 0).is_none());
    // a stream that ends inside a varint is rejected
    assert!(decode_varint_at(&[0x80], 0).is_none());
    assert!(decode_varint_at(&[], 0).is_none());
}
