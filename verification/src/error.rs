use vstd::prelude::*;
use crate::schema::FieldValue;

verus! {

/// How reading a single schema field off the wire can fail.
#[derive(Clone, Copy, Debug, PartialEq, Eq, Structural)]
pub enum WireFault {
    /// The payload ended before the field was complete.
    UnexpectedEnd,
    /// A variable-length integer ran past its five-byte cap.
    VarIntTooLarge,
    /// A length prefix was negative.
    NegativeLength,
}

/// Every failure the transport layer can report.  No operation retries;
/// each error is terminal for the call that produced it.
#[derive(Clone, Debug, PartialEq)]
pub enum PacketError {
    /// A read ran past the end of the available bytes.
    UnexpectedEnd,
    /// A variable-length integer needed a sixth byte.
    VarIntTooLarge,
    /// A frame or field is too long for its length prefix.
    FrameTooLarge,
    /// A declared length is shorter than the header fields it must cover.
    NegativeLength,
    /// A compressed frame declared an uncompressed length below the
    /// connection's compression threshold: a protocol violation.
    BelowThreshold,
    /// A compressed frame declared an uncompressed length above the
    /// 2 MiB anti-amplification ceiling: a protocol violation.
    AboveCeiling,
    /// The frame body is not a valid zlib stream.
    InflateFailed,
    /// The inflated body's length differs from the declared length.
    InflatedLengthMismatch,
    /// The compression backend reported an error while deflating.
    CompressFailed,
    /// The supplied field values do not have the shapes the schema declares.
    SchemaMismatch,
    /// A field value is too long for its wire representation.
    FieldTooLong,
    /// Reading one field of a record or union variant failed.
    FieldFault { packet: String, field: String, fault: WireFault },
    /// Reading a tagged union's discriminant failed.
    DiscriminantFault { union_name: String, fault: WireFault },
    /// A tagged union's discriminant matched no registered variant.
    UnknownDiscriminant { union_name: String, value: FieldValue },
}

} // verus!
