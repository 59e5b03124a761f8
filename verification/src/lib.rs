//! A binary packet transport layer for a length-prefixed, optionally
//! zlib-compressed wire protocol: a variable-length integer codec, a frame
//! codec gated by a per-connection compression threshold, and a declarative
//! schema facility that drives encode/decode for record-shaped packets and
//! tagged unions.

mod error;
mod schema;
mod varint;
mod zlib;
mod frame;
mod packet;

pub use error::PacketError;
pub use error::WireFault;
pub use frame::RawPacket;
pub use packet::Decoder;
pub use packet::Encoder;
pub use packet::Packet;
pub use schema::FieldDef;
pub use schema::FieldValue;
pub use schema::RecordSchema;
pub use schema::UnionSchema;
pub use schema::UnionValue;
pub use schema::VariantDef;
pub use schema::WireType;
pub use schema::decode_record;
pub use schema::decode_union;
pub use schema::encode_record;
pub use schema::encode_union;
pub use varint::VarInt;
