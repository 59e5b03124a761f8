use vstd::prelude::*;
use crate::error::PacketError;
use crate::frame::RawPacket;
use crate::varint::VarInt;
use crate::varint::varint_decoded;
use crate::varint::varint_encoding;

verus! {

/// A value that knows its wire representation and can append it to a
/// buffer.
pub trait Encoder: Sized {
    /// The bytes this value puts on the wire.
    spec fn wire_bytes(&self) -> Seq<u8>;

    /// Appends this value's wire bytes to `out`.
    fn write_to(&self, out: &mut Vec<u8>) -> (r: Result<(), PacketError>)
        ensures
            r is Ok ==> final(out)@ == old(out)@ + self.wire_bytes(),
    ;
}

/// A value that can be read back off a byte buffer.
pub trait Decoder: Sized {
    /// Reads one value starting at `pos`, returning it with the position
    /// just past its wire bytes.
    fn read_from(s: &[u8], pos: usize) -> (r: Result<(Self, usize), PacketError>)
        requires
            pos <= s@.len(),
        ensures
            r matches Ok(p) ==> pos <= p.1 <= s@.len(),
    ;
}

/// A strongly typed message bound to one constant numeric id.
pub trait Packet: Encoder + Decoder {
    /// The constant message id of this packet type.
    spec fn spec_id() -> i32;

    /// The constant message id of this packet type.
    fn id() -> (r: VarInt)
        ensures
            r.0 == Self::spec_id(),
    ;

    /// Encodes this packet into an undecoded message carrying its id.
    fn encode(&self) -> (r: Result<RawPacket, PacketError>)
        ensures
            r matches Ok(rp) ==> rp.id.0 == Self::spec_id() && rp.data@ == self.wire_bytes(),
    {
        let mut buf: Vec<u8> = Vec::new();
        match self.write_to(&mut buf) {
            Ok(()) => Ok(RawPacket { id: Self::id(), data: buf }),
            Err(e) => Err(e),
        }
    }

    /// Decodes a packet of this type from a message's payload.
    fn decode(raw: &RawPacket) -> (r: Result<Self, PacketError>) {
        match Self::read_from(raw.data.as_slice(), 0) {
            Ok((v, _)) => Ok(v),
            Err(e) => Err(e),
        }
    }
}

impl<'a, T: Encoder> Encoder for &'a T {
    open spec fn wire_bytes(&self) -> Seq<u8> {
        T::wire_bytes(*self)
    }

    fn write_to(&self, out: &mut Vec<u8>) -> (r: Result<(), PacketError>) {
        T::write_to(*self, out)
    }
}

impl Encoder for VarInt {
    open spec fn wire_bytes(&self) -> Seq<u8> {
        varint_encoding(self.0)
    }

    fn write_to(&self, out: &mut Vec<u8>) -> (r: Result<(), PacketError>) {
        self.encode_into(out);
        Ok(())
    }
}

impl Decoder for VarInt {
    fn read_from(s: &[u8], pos: usize) -> (r: Result<(VarInt, usize), PacketError>)
        ensures
            r matches Ok(p) ==> varint_decoded(s@.skip(pos as int)) == Ok::<
                (i32, nat),
                PacketError,
            >((p.0.0, (p.1 - pos) as nat)),
    {
        let slen: usize = s.len();
        match VarInt::decode(s, pos) {
            Ok((v, k)) => {
                proof {
                    assert(pos + k <= slen);
                }
                Ok((v, pos + k))
            },
            Err(e) => Err(e),
        }
    }
}

} // verus!
