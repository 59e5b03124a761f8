use std::io::Read;
use net_mc::{PacketError, RawPacket, VarInt};

fn deflate(data: &[u8]) -> Vec<u8> {
    let mut enc = flate2::bufread::ZlibEncoder::new(data, flate2::Compression::default());
    let mut out = Vec::new();
    enc.read_to_end(&mut out).unwrap();
    out
}

#[test]
fn empty_message_no_compression() {
    // id 0, empty payload, threshold -1: outer length 1, body VarInt(0)
    let msg = RawPacket { id: VarInt(0), data: vec![] };
    assert_eq!(msg.pack(-1).unwrap(), vec![0x01, 0x00]);
}

#[test]
fn pack_layout_no_compression() {
    let msg = RawPacket { id: VarInt(300), data: vec![1, 2, 3] };
    assert_eq!(msg.pack(-1).unwrap(), vec![0x05, 0xAC, 0x02, 1, 2, 3]);
}

#[test]
fn pack_layout_below_threshold() {
    // compression on but the body is small: zero marker, body sent plain
    let msg = RawPacket { id: VarInt(1), data: vec![9, 9] };
    assert_eq!(msg.pack(100).unwrap(), vec![0x04, 0x00, 0x01, 9, 9]);
}

#[test]
fn round_trip_no_compression() {
    let msg = RawPacket { id: VarInt(-7), data: vec![0, 1, 2, 250, 255] };
    let bytes = msg.pack(-1).unwrap();
    let back = RawPacket::unpack(&bytes, -1).unwrap();
    assert_eq!(back.id, VarInt(-7));
    assert_eq!(back.data, vec![0, 1, 2, 250, 255]);
}

#[test]
fn round_trip_below_threshold() {
    let msg = RawPacket { id: VarInt(42), data: vec![5; 10] };
    let bytes = msg.pack(1000).unwrap();
    let back = RawPacket::unpack(&bytes, 1000).unwrap();
    assert_eq!(back.id, VarInt(42));
    assert_eq!(back.data, vec![5; 10]);
}

#[test]
fn round_trip_compressed() {
    // threshold 0 deflates every frame
    let msg = RawPacket { id: VarInt(300), data: vec![7; 4096] };
    let bytes = msg.pack(0).unwrap();
    assert!(bytes.len() < 4096);
    let back = RawPacket::unpack(&bytes, 0).unwrap();
    assert_eq!(back.id, VarInt(300));
    assert_eq!(back.data, vec![7; 4096]);
}

#[test]
fn round_trip_at_threshold_boundary() {
    // body length equals the threshold exactly: the compressed shape is used
    let msg = RawPacket { id: VarInt(1), data: vec![3; 9] };
    // body = 1 id byte + 9 payload bytes = 10
    let bytes = msg.pack(10).unwrap();
    let back = RawPacket::unpack(&bytes, 10).unwrap();
    assert_eq!(back.id, VarInt(1));
    assert_eq!(back.data, vec![3; 9]);
}

#[test]
fn threshold_switch_is_immediate() {
    // the same message framed under a new threshold takes the new shape
    let msg = RawPacket { id: VarInt(1), data: vec![8; 32] };
    let plain = msg.pack(-1).unwrap();
    let marked = msg.pack(1000).unwrap();
    let deflated = msg.pack(0).unwrap();
    assert_ne!(plain, marked);
    assert_ne!(marked, deflated);
    assert_eq!(RawPacket::unpack(&plain, -1).unwrap().data, vec![8; 32]);
    assert_eq!(RawPacket::unpack(&marked, 1000).unwrap().data, vec![8; 32]);
    assert_eq!(RawPacket::unpack(&deflated, 0).unwrap().data, vec![8; 32]);
}

fn compressed_frame(declared: i32, zlib_body: &[u8]) -> Vec<u8> {
    let mut body = VarInt(declared).encode();
    body.extend_from_slice(zlib_body);
    let mut frame = VarInt(body.len() as i32).encode();
    frame.extend_from_slice(&body);
    frame
}

#[test]
fn reject_declared_below_threshold() {
    let inner = vec![0x00, 1, 2, 3, 4];
    let frame = compressed_frame(5, &deflate(&inner));
    assert_eq!(RawPacket::unpack(&frame, 100), Err(PacketError::BelowThreshold));
}

#[test]
fn reject_declared_above_ceiling() {
    let inner = vec![0x00, 1, 2, 3, 4];
    let frame = compressed_frame(2_097_153, &deflate(&inner));
    assert_eq!(RawPacket::unpack(&frame, 0), Err(PacketError::AboveCeiling));
}

#[test]
fn ceiling_itself_is_allowed() {
    let mut inner = vec![0x00];
    inner.resize(2_097_152, 6);
    let frame = compressed_frame(2_097_152, &deflate(&inner));
    let back = RawPacket::unpack(&frame, 0).unwrap();
    assert_eq!(back.id, VarInt(0));
    assert_eq!(back.data.len(), 2_097_151);
}

#[test]
fn reject_inflated_length_mismatch() {
    let inner = vec![0x00, 1, 2, 3, 4];
    // declares 64 uncompressed bytes but the stream inflates to 5
    let frame = compressed_frame(64, &deflate(&inner));
    assert_eq!(RawPacket::unpack(&frame, 0), Err(PacketError::InflatedLengthMismatch));
}

#[test]
fn reject_invalid_zlib_stream() {
    let frame = compressed_frame(64, &[0x12, 0x34, 0x56]);
    assert_eq!(RawPacket::unpack(&frame, 0), Err(PacketError::InflateFailed));
}

#[test]
fn reject_truncated_frame() {
    let msg = RawPacket { id: VarInt(5), data: vec![1, 2, 3, 4] };
    let mut bytes = msg.pack(-1).unwrap();
    bytes.pop();
    assert_eq!(RawPacket::unpack(&bytes, -1), Err(PacketError::UnexpectedEnd));
}

#[test]
fn reject_frame_shorter_than_header() {
    // declared frame length 0 cannot even cover the id encoding
    let bytes = vec![0x00, 0x05];
    assert_eq!(RawPacket::unpack(&bytes, -1), Err(PacketError::NegativeLength));
}

#[test]
fn trailing_bytes_are_ignored() {
    let msg = RawPacket { id: VarInt(2), data: vec![10, 11] };
    let mut bytes = msg.pack(-1).unwrap();
    bytes.push(0xEE);
    let back = RawPacket::unpack(&bytes, -1).unwrap();
    assert_eq!(back.data, vec![10, 11]);
}

#[test]
fn pack_without_compression_public_path() {
    let msg = RawPacket { id: VarInt(0), data: vec![] };
    assert_eq!(msg.pack_without_compression().unwrap(), vec![0x01, 0x00]);
}

#[test]
fn marked_frame_concrete_layout() {
    // frame length 2, zero marker, id 5, empty payload
    let bytes = vec![0x02, 0x00, 0x05];
    let back = RawPacket::unpack(&bytes, 100).unwrap();
    assert_eq!(back.id, VarInt(5));
    assert_eq!(back.data, Vec::<u8>::new());
}

#[test]
fn marked_frame_shorter_than_header() {
    // frame length 1 cannot cover the marker and the id
    let bytes = vec![0x01, 0x00, 0x05];
    assert_eq!(RawPacket::unpack(&bytes, 100), Err(PacketError::NegativeLength));
}

#[test]
fn marked_frame_truncated_id() {
    let bytes = vec![0x01, 0x00];
    assert_eq!(RawPacket::unpack(&bytes, 100), Err(PacketError::UnexpectedEnd));
}

#[test]
fn unpack_helpers_agree_with_unpack() {
    let msg = RawPacket { id: VarInt(11), data: vec![1, 2, 3] };
    let plain = msg.pack(-1).unwrap();
    assert_eq!(RawPacket::unpack_without_compression(&plain).unwrap(), msg);
    let framed = msg.pack_with_compression(0).unwrap();
    assert_eq!(RawPacket::unpack_with_compression(&framed, 0).unwrap(), msg);
}
