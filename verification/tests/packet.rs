use net_mc::{Decoder, Encoder, VarInt};

#[test]
fn varint_through_encoder_trait() {
    let mut out: Vec<u8> = Vec::new();
    VarInt(300).write_to(&mut out).unwrap();
    VarInt(0).write_to(&mut out).unwrap();
    assert_eq!(out, vec![0xAC, 0x02, 0x00]);
}

#[test]
fn varint_through_decoder_trait() {
    let bytes = vec![0xAC, 0x02, 0x00];
    let (v, end) = <VarInt as Decoder>::read_from(&bytes, 0).unwrap();
    assert_eq!(v, VarInt(300));
    assert_eq!(end, 2);
    let (v2, end2) = <VarInt as Decoder>::read_from(&bytes, end).unwrap();
    assert_eq!(v2, VarInt(0));
    assert_eq!(end2, 3);
}
