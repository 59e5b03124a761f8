use net_mc::{PacketError, VarInt};

#[test]
fn encode_zero() {
    assert_eq!(VarInt(0).encode(), vec![0x00]);
}

#[test]
fn encode_three_hundred() {
    assert_eq!(VarInt(300).encode(), vec![0xAC, 0x02]);
}

#[test]
fn encode_minus_one() {
    assert_eq!(VarInt(-1).encode(), vec![0xFF, 0xFF, 0xFF, 0xFF, 0x0F]);
}

#[test]
fn encode_boundaries() {
    assert_eq!(VarInt(127).encode(), vec![0x7F]);
    assert_eq!(VarInt(128).encode(), vec![0x80, 0x01]);
    assert_eq!(VarInt(2097151).encode(), vec![0xFF, 0xFF, 0x7F]);
    assert_eq!(VarInt(i32::MAX).encode(), vec![0xFF, 0xFF, 0xFF, 0xFF, 0x07]);
    assert_eq!(VarInt(i32::MIN).encode(), vec![0x80, 0x80, 0x80, 0x80, 0x08]);
}

#[test]
fn round_trip_many() {
    let samples = [
        0,
        1,
        -1,
        127,
        128,
        255,
        300,
        25565,
        2097151,
        2097152,
        -2147483648,
        2147483647,
        -12345678,
    ];
    for &v in samples.iter() {
        let enc = VarInt(v).encode();
        assert!(1 <= enc.len() && enc.len() <= 5);
        let (decoded, used) = VarInt::decode(&enc, 0).expect("decode failed");
        assert_eq!(decoded.0, v);
        assert_eq!(used, enc.len());
    }
}

#[test]
fn minimal_length() {
    // no value ever legally encodes with a superfluous trailing zero
    // continuation byte
    for &v in [0, 5, 127, 128, 300, 16383, 16384, -1, i32::MAX, i32::MIN].iter() {
        let enc = VarInt(v).encode();
        if enc.len() > 1 {
            assert_ne!(*enc.last().unwrap(), 0);
        }
        assert!(*enc.last().unwrap() < 0x80);
    }
}

#[test]
fn decode_at_offset() {
    let bytes = vec![0xAA, 0xAC, 0x02, 0x07];
    let (v, used) = VarInt::decode(&bytes, 1).unwrap();
    assert_eq!(v.0, 300);
    assert_eq!(used, 2);
}

#[test]
fn decode_non_minimal_accepted() {
    // a redundant continuation group still decodes, up to the hard cap
    let (v, used) = VarInt::decode(&vec![0x80, 0x00], 0).unwrap();
    assert_eq!(v.0, 0);
    assert_eq!(used, 2);
}

#[test]
fn decode_too_large() {
    let bytes = vec![0x80, 0x80, 0x80, 0x80, 0x80, 0x01];
    assert_eq!(VarInt::decode(&bytes, 0), Err(PacketError::VarIntTooLarge));
}

#[test]
fn decode_truncated() {
    assert_eq!(VarInt::decode(&vec![], 0), Err(PacketError::UnexpectedEnd));
    assert_eq!(VarInt::decode(&vec![0x80, 0x80], 0), Err(PacketError::UnexpectedEnd));
}
