use vstd::prelude::*;
use vstd::arithmetic::div_mod::lemma_fundamental_div_mod;
use crate::error::PacketError;
use crate::error::WireFault;
use crate::frame::append_bytes;
use crate::frame::copy_range;
use crate::varint::VarInt;
use crate::varint::lemma_varint_round_trip;
use crate::varint::u32_of_i32;
use crate::varint::varint_decoded;
use crate::varint::varint_encoding;

verus! {

/// The wire representations a schema field may use.
#[derive(Clone, Copy, Debug, PartialEq, Eq, Structural)]
pub enum WireType {
    /// A signed 32-bit value in 7-bit groups.
    VarInt,
    /// A byte sequence prefixed by its length as a variable-length integer.
    VarIntPrefixedBytes,
    /// A byte sequence prefixed by its length as a big-endian 16-bit count.
    ShortPrefixedBytes,
    /// A byte sequence with no prefix, running to the end of the payload.
    LengthInferredBytes,
}

/// One decoded field value, tagged with its wire representation.
#[derive(Clone, Debug, PartialEq)]
pub enum FieldValue {
    VarInt(i32),
    VarIntPrefixedBytes(Vec<u8>),
    ShortPrefixedBytes(Vec<u8>),
    LengthInferredBytes(Vec<u8>),
}

/// The mathematical shape of a field value: bytes as sequences.
pub enum FieldVal {
    VarInt(i32),
    VarIntPrefixedBytes(Seq<u8>),
    ShortPrefixedBytes(Seq<u8>),
    LengthInferredBytes(Seq<u8>),
}

impl View for FieldValue {
    type V = FieldVal;

    open spec fn view(&self) -> FieldVal {
        match self {
            FieldValue::VarInt(v) => FieldVal::VarInt(*v),
            FieldValue::VarIntPrefixedBytes(b) => FieldVal::VarIntPrefixedBytes(b@),
            FieldValue::ShortPrefixedBytes(b) => FieldVal::ShortPrefixedBytes(b@),
            FieldValue::LengthInferredBytes(b) => FieldVal::LengthInferredBytes(b@),
        }
    }
}

/// One declared field: its name, for error context, and its wire
/// representation.  Declaration order is the wire order.
#[derive(Debug)]
pub struct FieldDef {
    pub name: String,
    pub wire: WireType,
}

/// The declarative description of a record-shaped packet: a packet name and
/// an ordered field list.
#[derive(Debug)]
pub struct RecordSchema {
    pub name: String,
    pub fields: Vec<FieldDef>,
}

/// One registered variant of a tagged union: the discriminant literal that
/// selects it and its inline field list.
#[derive(Debug)]
pub struct VariantDef {
    pub name: String,
    pub literal: FieldValue,
    pub fields: Vec<FieldDef>,
}

/// The declarative description of a tagged union: the wire representation
/// of the discriminant and the registered variants.
#[derive(Debug)]
pub struct UnionSchema {
    pub name: String,
    pub disc_wire: WireType,
    pub variants: Vec<VariantDef>,
}

/// A decoded union value: the index of the active variant in its schema and
/// the variant's field values in declaration order.
#[derive(Debug, PartialEq)]
pub struct UnionValue {
    pub variant: usize,
    pub values: Vec<FieldValue>,
}

/// The wire representation a value actually carries.
pub open spec fn wire_of(v: FieldVal) -> WireType {
    match v {
        FieldVal::VarInt(_) => WireType::VarInt,
        FieldVal::VarIntPrefixedBytes(_) => WireType::VarIntPrefixedBytes,
        FieldVal::ShortPrefixedBytes(_) => WireType::ShortPrefixedBytes,
        FieldVal::LengthInferredBytes(_) => WireType::LengthInferredBytes,
    }
}

/// Whether a value is short enough for its length prefix.
pub open spec fn field_fits(v: FieldVal) -> bool {
    match v {
        FieldVal::VarInt(_) => true,
        FieldVal::VarIntPrefixedBytes(b) => b.len() <= 0x7fff_ffff,
        FieldVal::ShortPrefixedBytes(b) => b.len() <= 0xffff,
        FieldVal::LengthInferredBytes(_) => true,
    }
}

/// The bytes one field value puts on the wire.
pub open spec fn enc_field(v: FieldVal) -> Seq<u8> {
    match v {
        FieldVal::VarInt(x) => varint_encoding(x),
        FieldVal::VarIntPrefixedBytes(b) => varint_encoding(b.len() as i32) + b,
        FieldVal::ShortPrefixedBytes(b) => seq![(b.len() / 256) as u8, (b.len() % 256) as u8] + b,
        FieldVal::LengthInferredBytes(b) => b,
    }
}

/// The bytes a field list puts on the wire: each field in declaration
/// order.
pub open spec fn enc_fields(vs: Seq<FieldVal>) -> Seq<u8>
    decreases vs.len(),
{
    if vs.len() == 0 {
        Seq::empty()
    } else {
        enc_field(vs[0]) + enc_fields(vs.skip(1))
    }
}

/// The wire representations a field list declares, in order.
pub open spec fn wires_of(fields: Seq<FieldDef>) -> Seq<WireType> {
    fields.map(|i: int, f: FieldDef| f.wire)
}

/// The mathematical shapes of a value list.
pub open spec fn vals_of(vs: Seq<FieldValue>) -> Seq<FieldVal> {
    vs.map(|i: int, v: FieldValue| v@)
}

/// Whether a value list has exactly the declared shapes, in order.
pub open spec fn values_match(vs: Seq<FieldVal>, ws: Seq<WireType>) -> bool {
    vs.len() == ws.len() && (forall|i: int| 0 <= i < vs.len() ==> wire_of(vs[i]) == ws[i])
}

/// Whether every value is short enough for its length prefix.
pub open spec fn values_fit(vs: Seq<FieldVal>) -> bool {
    forall|i: int| 0 <= i < vs.len() ==> field_fits(vs[i])
}

/// A length-inferred field swallows the rest of the payload, so it may only
/// stand last.
pub open spec fn wires_wf(ws: Seq<WireType>) -> bool {
    forall|i: int| 0 <= i < ws.len() - 1 ==> ws[i] != WireType::LengthInferredBytes
}

/// The fault a failed variable-length integer read reports.
pub open spec fn fault_of(e: PacketError) -> WireFault {
    if e == PacketError::VarIntTooLarge {
        WireFault::VarIntTooLarge
    } else {
        WireFault::UnexpectedEnd
    }
}

/// What reading one field of the given wire representation off the front of
/// `s` yields: the value and the bytes consumed.
pub open spec fn dec_field(s: Seq<u8>, w: WireType) -> Result<(FieldVal, nat), WireFault> {
    match w {
        WireType::VarInt => match varint_decoded(s) {
            Ok((v, k)) => Ok((FieldVal::VarInt(v), k)),
            Err(e) => Err(fault_of(e)),
        },
        WireType::VarIntPrefixedBytes => match varint_decoded(s) {
            Ok((n, k)) => if n < 0 {
                Err(WireFault::NegativeLength)
            } else if s.len() - k < n {
                Err(WireFault::UnexpectedEnd)
            } else {
                Ok((FieldVal::VarIntPrefixedBytes(s.subrange(k as int, k + n)), (k + n) as nat))
            },
            Err(e) => Err(fault_of(e)),
        },
        WireType::ShortPrefixedBytes => if s.len() < 2 {
            Err(WireFault::UnexpectedEnd)
        } else {
            let n = 256 * (s[0] as int) + (s[1] as int);
            if s.len() - 2 < n {
                Err(WireFault::UnexpectedEnd)
            } else {
                Ok((FieldVal::ShortPrefixedBytes(s.subrange(2, 2 + n)), (2 + n) as nat))
            }
        },
        WireType::LengthInferredBytes => Ok((FieldVal::LengthInferredBytes(s), s.len())),
    }
}

/// What reading a whole field list off the front of `s` yields: the values
/// and the bytes consumed, or the index of the field that failed and its
/// fault.
pub open spec fn dec_fields(s: Seq<u8>, ws: Seq<WireType>) -> Result<
    (Seq<FieldVal>, nat),
    (nat, WireFault),
>
    decreases ws.len(),
{
    if ws.len() == 0 {
        Ok((Seq::empty(), 0nat))
    } else {
        match dec_field(s, ws[0]) {
            Err(f) => Err((0nat, f)),
            Ok((v, k)) => match dec_fields(s.skip(k as int), ws.skip(1)) {
                Err((j, f)) => Err(((j + 1) as nat, f)),
                Ok((vs, m)) => Ok((seq![v] + vs, (k + m) as nat)),
            },
        }
    }
}

/// The least registered variant whose literal equals the read discriminant.
pub open spec fn find_variant(vs: Seq<VariantDef>, d: FieldVal) -> Option<int>
    decreases vs.len(),
{
    if vs.len() == 0 {
        None
    } else if vs[0].literal@ == d {
        Some(0int)
    } else {
        match find_variant(vs.skip(1), d) {
            Some(i) => Some(i + 1),
            None => None,
        }
    }
}

/// Whether a union value names a registered variant, with a literal of the
/// declared discriminant shape and values of the variant's shapes.
pub open spec fn union_value_matches(schema: UnionSchema, v: UnionValue) -> bool {
    &&& v.variant < schema.variants@.len()
    &&& wire_of(schema.variants@[v.variant as int].literal@) == schema.disc_wire
    &&& values_match(vals_of(v.values@), wires_of(schema.variants@[v.variant as int].fields@))
}

/// Whether a union value's literal and field values all fit their prefixes.
pub open spec fn union_value_fits(schema: UnionSchema, v: UnionValue) -> bool {
    &&& field_fits(schema.variants@[v.variant as int].literal@)
    &&& values_fit(vals_of(v.values@))
}

/// The wire representation a value actually carries.
fn wire_type_of(v: &FieldValue) -> (w: WireType)
    ensures
        w == wire_of(v@),
{
    match v {
        FieldValue::VarInt(_) => WireType::VarInt,
        FieldValue::VarIntPrefixedBytes(_) => WireType::VarIntPrefixedBytes,
        FieldValue::ShortPrefixedBytes(_) => WireType::ShortPrefixedBytes,
        FieldValue::LengthInferredBytes(_) => WireType::LengthInferredBytes,
    }
}

/// Whether a value is short enough for its length prefix.
fn field_fits_exec(v: &FieldValue) -> (b: bool)
    ensures
        b == field_fits(v@),
{
    match v {
        FieldValue::VarInt(_) => true,
        FieldValue::VarIntPrefixedBytes(b) => b.len() <= 0x7fff_ffff,
        FieldValue::ShortPrefixedBytes(b) => b.len() <= 0xffff,
        FieldValue::LengthInferredBytes(_) => true,
    }
}

/// Whether two byte buffers hold the same bytes.
fn bytes_eq(a: &Vec<u8>, b: &Vec<u8>) -> (r: bool)
    ensures
        r == (a@ == b@),
{
    if a.len() != b.len() {
        return false;
    }
    let mut i: usize = 0;
    while i < a.len()
        invariant
            i <= a@.len(),
            a@.len() == b@.len(),
            forall|j: int| 0 <= j < i ==> a@[j] == b@[j],
        decreases a@.len() - i,
    {
        if a[i] != b[i] {
            return false;
        }
        i = i + 1;
    }
    proof {
        assert(a@ =~= b@);
    }
    true
}

/// Whether two field values are the same value in the same representation.
fn field_value_eq(a: &FieldValue, b: &FieldValue) -> (r: bool)
    ensures
        r == (a@ == b@),
{
    match (a, b) {
        (FieldValue::VarInt(x), FieldValue::VarInt(y)) => x == y,
        (FieldValue::VarIntPrefixedBytes(x), FieldValue::VarIntPrefixedBytes(y)) => bytes_eq(x, y),
        (FieldValue::ShortPrefixedBytes(x), FieldValue::ShortPrefixedBytes(y)) => bytes_eq(x, y),
        (FieldValue::LengthInferredBytes(x), FieldValue::LengthInferredBytes(y)) => bytes_eq(x, y),
        _ => false,
    }
}

/// Whether the values have exactly the declared shapes, in order.
fn kinds_match(fields: &Vec<FieldDef>, values: &Vec<FieldValue>) -> (b: bool)
    ensures
        b == values_match(vals_of(values@), wires_of(fields@)),
{
    if values.len() != fields.len() {
        return false;
    }
    let mut i: usize = 0;
    while i < values.len()
        invariant
            i <= values@.len(),
            values@.len() == fields@.len(),
            forall|j: int|
                0 <= j < i ==> wire_of(vals_of(values@)[j]) == wires_of(fields@)[j],
        decreases values@.len() - i,
    {
        let w = wire_type_of(&values[i]);
        proof {
            assert(vals_of(values@)[i as int] == values@[i as int]@);
            assert(wires_of(fields@)[i as int] == fields@[i as int].wire);
        }
        if !(w == fields[i].wire) {
            return false;
        }
        i = i + 1;
    }
    true
}

/// Whether every value fits its length prefix.
fn all_fit(values: &Vec<FieldValue>) -> (b: bool)
    ensures
        b == values_fit(vals_of(values@)),
{
    let mut i: usize = 0;
    while i < values.len()
        invariant
            i <= values@.len(),
            forall|j: int| 0 <= j < i ==> field_fits(vals_of(values@)[j]),
        decreases values@.len() - i,
    {
        proof {
            assert(vals_of(values@)[i as int] == values@[i as int]@);
        }
        if !field_fits_exec(&values[i]) {
            return false;
        }
        i = i + 1;
    }
    true
}

/// Appends one field value's wire bytes to `out`.
fn encode_field(v: &FieldValue, out: &mut Vec<u8>)
    requires
        field_fits(v@),
    ensures
        final(out)@ == old(out)@ + enc_field(v@),
{
    match v {
        FieldValue::VarInt(x) => VarInt(*x).encode_into(out),
        FieldValue::VarIntPrefixedBytes(b) => {
            VarInt(b.len() as i32).encode_into(out);
            append_bytes(out, b);
        },
        FieldValue::ShortPrefixedBytes(b) => {
            let ghost pre = out@;
            out.push((b.len() / 256) as u8);
            out.push((b.len() % 256) as u8);
            append_bytes(out, b);
            proof {
                assert(out@ =~= pre + enc_field(v@));
            }
        },
        FieldValue::LengthInferredBytes(b) => append_bytes(out, b),
    }
}

/// Encoding field by field from the left agrees with the declared order.
proof fn lemma_enc_fields_take_snoc(vs: Seq<FieldVal>, i: int)
    requires
        0 <= i < vs.len(),
    ensures
        enc_fields(vs.take(i + 1)) == enc_fields(vs.take(i)) + enc_field(vs[i]),
    decreases i,
{
    if i == 0 {
        assert(vs.take(1) =~= seq![vs[0]]);
        assert(seq![vs[0]].skip(1) =~= Seq::<FieldVal>::empty());
        assert(vs.take(0) =~= Seq::<FieldVal>::empty());
        assert(enc_fields(vs.take(1)) =~= enc_fields(vs.take(0)) + enc_field(vs[0]));
    } else {
        let t = vs.skip(1);
        lemma_enc_fields_take_snoc(t, i - 1);
        assert(vs.take(i + 1).skip(1) =~= t.take(i));
        assert(vs.take(i).skip(1) =~= t.take(i - 1));
        assert(vs.take(i + 1)[0] == vs[0]);
        assert(vs.take(i)[0] == vs[0]);
        assert(t[i - 1] == vs[i]);
        assert(enc_fields(vs.take(i + 1)) =~= enc_fields(vs.take(i)) + enc_field(vs[i]));
    }
}

/// Appends every value's wire bytes to `out`, in order.
fn encode_fields_into(values: &Vec<FieldValue>, out: &mut Vec<u8>)
    requires
        values_fit(vals_of(values@)),
    ensures
        final(out)@ == old(out)@ + enc_fields(vals_of(values@)),
{
    let ghost vs = vals_of(values@);
    let mut i: usize = 0;
    proof {
        assert(vs.take(0) =~= Seq::<FieldVal>::empty());
        assert(out@ =~= old(out)@ + enc_fields(vs.take(0)));
    }
    while i < values.len()
        invariant
            i <= values@.len(),
            vs == vals_of(values@),
            values_fit(vs),
            out@ == old(out)@ + enc_fields(vs.take(i as int)),
        decreases values@.len() - i,
    {
        proof {
            assert(vals_of(values@)[i as int] == values@[i as int]@);
        }
        encode_field(&values[i], out);
        proof {
            lemma_enc_fields_take_snoc(vs, i as int);
            assert(out@ =~= old(out)@ + enc_fields(vs.take(i + 1)));
        }
        i = i + 1;
    }
    proof {
        assert(vs.take(values@.len() as int) =~= vs);
    }
}

/// Reads one field of the given wire representation starting at `pos`,
/// returning the value and the position just past it.
fn decode_one(s: &[u8], pos: usize, w: WireType) -> (r: Result<(FieldValue, usize), WireFault>)
    requires
        pos <= s@.len(),
    ensures
        match r {
            Ok(p) => dec_field(s@.skip(pos as int), w) == Ok::<(FieldVal, nat), WireFault>(
                (p.0@, (p.1 - pos) as nat),
            ) && pos <= p.1 <= s@.len(),
            Err(f) => dec_field(s@.skip(pos as int), w) == Err::<(FieldVal, nat), WireFault>(f),
        },
{
    let ghost tail = s@.skip(pos as int);
    let slen: usize = s.len();
    match w {
        WireType::VarInt => match VarInt::decode(s, pos) {
            Ok((v, k)) => Ok((FieldValue::VarInt(v.0), pos + k)),
            Err(e) => Err(
                if matches!(e, PacketError::VarIntTooLarge) {
                    WireFault::VarIntTooLarge
                } else {
                    WireFault::UnexpectedEnd
                },
            ),
        },
        WireType::VarIntPrefixedBytes => match VarInt::decode(s, pos) {
            Ok((n_vi, k)) => {
                if n_vi.0 < 0 {
                    return Err(WireFault::NegativeLength);
                }
                let n = n_vi.0 as usize;
                if slen - (pos + k) < n {
                    return Err(WireFault::UnexpectedEnd);
                }
                let bytes = copy_range(s, pos + k, n);
                proof {
                    assert(bytes@ =~= tail.subrange(k as int, k + n));
                }
                Ok((FieldValue::VarIntPrefixedBytes(bytes), pos + k + n))
            },
            Err(e) => Err(
                if matches!(e, PacketError::VarIntTooLarge) {
                    WireFault::VarIntTooLarge
                } else {
                    WireFault::UnexpectedEnd
                },
            ),
        },
        WireType::ShortPrefixedBytes => {
            if slen - pos < 2 {
                return Err(WireFault::UnexpectedEnd);
            }
            let hi = s[pos];
            let lo = s[pos + 1];
            let n: usize = 256 * (hi as usize) + (lo as usize);
            proof {
                assert(tail[0] == hi);
                assert(tail[1] == lo);
            }
            if slen - (pos + 2) < n {
                return Err(WireFault::UnexpectedEnd);
            }
            let bytes = copy_range(s, pos + 2, n);
            proof {
                assert(bytes@ =~= tail.subrange(2, 2 + n));
            }
            Ok((FieldValue::ShortPrefixedBytes(bytes), pos + 2 + n))
        },
        WireType::LengthInferredBytes => {
            let bytes = copy_range(s, pos, slen - pos);
            proof {
                assert(bytes@ =~= tail);
            }
            Ok((FieldValue::LengthInferredBytes(bytes), slen))
        },
    }
}

/// Reads the declared fields from `fi` on, starting at `pos`.  On failure,
/// reports the absolute index of the field that failed.
fn decode_fields(s: &[u8], pos: usize, fields: &Vec<FieldDef>, fi: usize) -> (r: Result<
    (Vec<FieldValue>, usize),
    (usize, WireFault),
>)
    requires
        pos <= s@.len(),
        fi <= fields@.len(),
    ensures
        match r {
            Ok(p) => dec_fields(s@.skip(pos as int), wires_of(fields@.skip(fi as int))) == Ok::<
                (Seq<FieldVal>, nat),
                (nat, WireFault),
            >((vals_of(p.0@), (p.1 - pos) as nat)) && pos <= p.1 <= s@.len(),
            Err(p) => dec_fields(s@.skip(pos as int), wires_of(fields@.skip(fi as int))) == Err::<
                (Seq<FieldVal>, nat),
                (nat, WireFault),
            >(((p.0 - fi) as nat, p.1)) && fi <= p.0 < fields@.len(),
        },
    decreases fields@.len() - fi,
{
    let ghost ws = wires_of(fields@.skip(fi as int));
    if fi == fields.len() {
        proof {
            assert(ws.len() == 0);
            assert(vals_of(Seq::<FieldValue>::empty()) =~= Seq::<FieldVal>::empty());
        }
        return Ok((Vec::new(), pos));
    }
    proof {
        assert(ws[0] == fields@[fi as int].wire);
    }
    let w = fields[fi].wire;
    match decode_one(s, pos, w) {
        Err(f) => Err((fi, f)),
        Ok((v, newpos)) => {
            match decode_fields(s, newpos, fields, fi + 1) {
                Err(p) => {
                    proof {
                        assert(s@.skip(pos as int).skip((newpos - pos) as int) =~= s@.skip(
                            newpos as int,
                        ));
                        assert(ws.skip(1) =~= wires_of(fields@.skip(fi + 1)));
                    }
                    Err(p)
                },
                Ok((rest_vals, end)) => {
                    let ghost vv = v@;
                    let mut out: Vec<FieldValue> = Vec::new();
                    out.push(v);
                    let mut rest_vals = rest_vals;
                    let ghost rv = rest_vals@;
                    out.append(&mut rest_vals);
                    proof {
                        assert(s@.skip(pos as int).skip((newpos - pos) as int) =~= s@.skip(
                            newpos as int,
                        ));
                        assert(ws.skip(1) =~= wires_of(fields@.skip(fi + 1)));
                        assert(out@ =~= seq![out@[0]] + rv);
                        assert(vals_of(out@) =~= seq![vv] + vals_of(rv));
                    }
                    Ok((out, end))
                },
            }
        },
    }
}

/// Encodes a record's field values in declaration order, after checking
/// them against the schema.
pub fn encode_record(schema: &RecordSchema, values: &Vec<FieldValue>) -> (r: Result<
    Vec<u8>,
    PacketError,
>)
    ensures
        match r {
            Ok(out) => values_match(vals_of(values@), wires_of(schema.fields@)) && values_fit(
                vals_of(values@),
            ) && out@ == enc_fields(vals_of(values@)),
            Err(e) => (e == PacketError::SchemaMismatch && !values_match(
                vals_of(values@),
                wires_of(schema.fields@),
            )) || (e == PacketError::FieldTooLong && values_match(
                vals_of(values@),
                wires_of(schema.fields@),
            ) && !values_fit(vals_of(values@))),
        },
{
    if !kinds_match(&schema.fields, values) {
        return Err(PacketError::SchemaMismatch);
    }
    if !all_fit(values) {
        return Err(PacketError::FieldTooLong);
    }
    let mut out: Vec<u8> = Vec::new();
    encode_fields_into(values, &mut out);
    Ok(out)
}

/// Decodes a record's field values from a payload in declaration order,
/// naming the packet and field on failure.  Bytes past the declared fields
/// are ignored.
pub fn decode_record(schema: &RecordSchema, payload: &Vec<u8>) -> (r: Result<
    Vec<FieldValue>,
    PacketError,
>)
    ensures
        match r {
            Ok(vals) => dec_fields(payload@, wires_of(schema.fields@)) matches Ok(p) && vals_of(
                vals@,
            ) == p.0,
            Err(e) => dec_fields(payload@, wires_of(schema.fields@)) matches Err(p) && e
                == (PacketError::FieldFault {
                packet: schema.name,
                field: schema.fields@[p.0 as int].name,
                fault: p.1,
            }),
        },
{
    proof {
        assert(payload@.skip(0) =~= payload@);
        assert(schema.fields@.skip(0) =~= schema.fields@);
    }
    match decode_fields(payload.as_slice(), 0, &schema.fields, 0) {
        Ok((vals, _end)) => Ok(vals),
        Err((j, f)) => Err(
            PacketError::FieldFault {
                packet: schema.name.clone(),
                field: schema.fields[j].name.clone(),
                fault: f,
            },
        ),
    }
}

/// Encodes a union value: the active variant's discriminant literal, then
/// its field values in declaration order.
pub fn encode_union(schema: &UnionSchema, value: &UnionValue) -> (r: Result<Vec<u8>, PacketError>)
    ensures
        match r {
            Ok(out) => union_value_matches(*schema, *value) && union_value_fits(*schema, *value)
                && out@ == enc_field(schema.variants@[value.variant as int].literal@) + enc_fields(
                vals_of(value.values@),
            ),
            Err(e) => (e == PacketError::SchemaMismatch && !union_value_matches(*schema, *value))
                || (e == PacketError::FieldTooLong && union_value_matches(*schema, *value)
                && !union_value_fits(*schema, *value)),
        },
{
    if value.variant >= schema.variants.len() {
        return Err(PacketError::SchemaMismatch);
    }
    let var = &schema.variants[value.variant];
    let w = wire_type_of(&var.literal);
    if !(w == schema.disc_wire) {
        return Err(PacketError::SchemaMismatch);
    }
    if !kinds_match(&var.fields, &value.values) {
        return Err(PacketError::SchemaMismatch);
    }
    if !field_fits_exec(&var.literal) {
        return Err(PacketError::FieldTooLong);
    }
    if !all_fit(&value.values) {
        return Err(PacketError::FieldTooLong);
    }
    let mut out: Vec<u8> = Vec::new();
    encode_field(&var.literal, &mut out);
    encode_fields_into(&value.values, &mut out);
    Ok(out)
}

/// Decodes a union value: reads the discriminant, selects the variant whose
/// registered literal equals it exactly, and decodes that variant's fields.
/// An unregistered discriminant is reported with the offending value; no
/// variant is ever assumed by default.
pub fn decode_union(schema: &UnionSchema, payload: &Vec<u8>) -> (r: Result<
    UnionValue,
    PacketError,
>)
    ensures
        match r {
            Ok(uv) => match dec_field(payload@, schema.disc_wire) {
                Ok(d) => match find_variant(schema.variants@, d.0) {
                    Some(i) => uv.variant == i && (match dec_fields(
                        payload@.skip(d.1 as int),
                        wires_of(schema.variants@[i].fields@),
                    ) {
                        Ok(p) => vals_of(uv.values@) == p.0,
                        Err(_) => false,
                    }),
                    None => false,
                },
                Err(_) => false,
            },
            Err(e) => match dec_field(payload@, schema.disc_wire) {
                Err(f) => e == (PacketError::DiscriminantFault {
                    union_name: schema.name,
                    fault: f,
                }),
                Ok((d, k)) => match find_variant(schema.variants@, d) {
                    None => e matches PacketError::UnknownDiscriminant { union_name, value }
                        && union_name == schema.name && value@ == d,
                    Some(i) => match dec_fields(
                        payload@.skip(k as int),
                        wires_of(schema.variants@[i].fields@),
                    ) {
                        Err(p) => e == (PacketError::FieldFault {
                            packet: schema.name,
                            field: schema.variants@[i].fields@[p.0 as int].name,
                            fault: p.1,
                        }),
                        Ok(_) => false,
                    },
                },
            },
        },
{
    proof {
        assert(payload@.skip(0) =~= payload@);
    }
    let (d, k) = match decode_one(payload.as_slice(), 0, schema.disc_wire) {
        Ok(p) => p,
        Err(f) => {
            return Err(
                PacketError::DiscriminantFault { union_name: schema.name.clone(), fault: f },
            );
        },
    };
    let mut i: usize = 0;
    while i < schema.variants.len()
        invariant
            i <= schema.variants@.len(),
            k <= payload@.len(),
            dec_field(payload@, schema.disc_wire) == Ok::<(FieldVal, nat), WireFault>(
                (d@, k as nat),
            ),
            forall|j: int| 0 <= j < i ==> schema.variants@[j].literal@ != d@,
        decreases schema.variants@.len() - i,
    {
        if field_value_eq(&schema.variants[i].literal, &d) {
            proof {
                lemma_find_variant_here(schema.variants@, d@, i as int);
            }
            let var = &schema.variants[i];
            match decode_fields(payload.as_slice(), k, &var.fields, 0) {
                Ok((vals, _end)) => {
                    proof {
                        assert(var.fields@.skip(0) =~= var.fields@);
                    }
                    return Ok(UnionValue { variant: i, values: vals });
                },
                Err((j, f)) => {
                    proof {
                        assert(var.fields@.skip(0) =~= var.fields@);
                    }
                    return Err(
                        PacketError::FieldFault {
                            packet: schema.name.clone(),
                            field: var.fields[j].name.clone(),
                            fault: f,
                        },
                    );
                },
            }
        }
        i = i + 1;
    }
    proof {
        lemma_find_variant_none(schema.variants@, d@);
    }
    Err(PacketError::UnknownDiscriminant { union_name: schema.name.clone(), value: d })
}

/// A literal that matches at `i`, with no earlier match, is the one found.
proof fn lemma_find_variant_here(vs: Seq<VariantDef>, d: FieldVal, i: int)
    requires
        0 <= i < vs.len(),
        vs[i].literal@ == d,
        forall|j: int| 0 <= j < i ==> vs[j].literal@ != d,
    ensures
        find_variant(vs, d) == Some(i),
    decreases i,
{
    if i > 0 {
        lemma_find_variant_here(vs.skip(1), d, i - 1);
    }
}

/// A discriminant no registered literal equals is found nowhere.
proof fn lemma_find_variant_none(vs: Seq<VariantDef>, d: FieldVal)
    requires
        forall|j: int| 0 <= j < vs.len() ==> vs[j].literal@ != d,
    ensures
        find_variant(vs, d) is None,
    decreases vs.len(),
{
    if vs.len() > 0 {
        lemma_find_variant_none(vs.skip(1), d);
    }
}

/// Reading one encoded field back yields the field that was encoded,
/// consuming exactly its bytes.  A length-inferred field must stand at the
/// very end.
proof fn lemma_field_round_trip(v: FieldVal, rest: Seq<u8>)
    requires
        field_fits(v),
        wire_of(v) == WireType::LengthInferredBytes ==> rest.len() == 0,
    ensures
        dec_field(enc_field(v) + rest, wire_of(v)) == Ok::<(FieldVal, nat), WireFault>(
            (v, enc_field(v).len()),
        ),
{
    let s = enc_field(v) + rest;
    match v {
        FieldVal::VarInt(x) => {
            lemma_varint_round_trip(x, rest);
        },
        FieldVal::VarIntPrefixedBytes(b) => {
            let l: i32 = b.len() as i32;
            lemma_varint_round_trip(l, b + rest);
            assert(u32_of_i32(l) == b.len());
            let k = varint_encoding(l).len();
            assert(s =~= varint_encoding(l) + (b + rest));
            assert(s.subrange(k as int, k + l) =~= b);
        },
        FieldVal::ShortPrefixedBytes(b) => {
            lemma_fundamental_div_mod(b.len() as int, 256);
            assert(s[0] == (b.len() / 256) as u8);
            assert(s[1] == (b.len() % 256) as u8);
            assert(256 * (s[0] as int) + (s[1] as int) == b.len());
            assert(s.subrange(2, 2 + b.len() as int) =~= b);
        },
        FieldVal::LengthInferredBytes(b) => {
            assert(s =~= b);
        },
    }
}

/// Reading an encoded field list back yields exactly the values that were
/// encoded: the schema round trip, field order preserved.
pub proof fn lemma_record_round_trip(vs: Seq<FieldVal>, ws: Seq<WireType>)
    requires
        values_match(vs, ws),
        values_fit(vs),
        wires_wf(ws),
    ensures
        dec_fields(enc_fields(vs), ws) == Ok::<(Seq<FieldVal>, nat), (nat, WireFault)>(
            (vs, enc_fields(vs).len()),
        ),
    decreases vs.len(),
{
    if vs.len() == 0 {
        assert(enc_fields(vs) =~= Seq::<u8>::empty());
        assert(vs =~= Seq::<FieldVal>::empty());
    } else {
        let s = enc_fields(vs);
        let tail_enc = enc_fields(vs.skip(1));
        if vs.len() == 1 {
            assert(vs.skip(1).len() == 0);
            assert(tail_enc =~= Seq::<u8>::empty());
            lemma_field_round_trip(vs[0], tail_enc);
        } else {
            assert(ws[0] != WireType::LengthInferredBytes);
            lemma_field_round_trip(vs[0], tail_enc);
        }
        let k = enc_field(vs[0]).len();
        assert(wire_of(vs[0]) == ws[0]);
        assert(dec_field(s, ws[0]) == Ok::<(FieldVal, nat), WireFault>((vs[0], k)));
        assert(s.skip(k as int) =~= tail_enc);
        assert(values_match(vs.skip(1), ws.skip(1)));
        assert(values_fit(vs.skip(1)));
        assert(wires_wf(ws.skip(1)));
        lemma_record_round_trip(vs.skip(1), ws.skip(1));
        assert(dec_fields(s.skip(k as int), ws.skip(1)) == Ok::<
            (Seq<FieldVal>, nat),
            (nat, WireFault),
        >((vs.skip(1), tail_enc.len())));
        assert(seq![vs[0]] + vs.skip(1) =~= vs);
        assert(enc_fields(vs).len() == k + tail_enc.len());
        assert(dec_fields(s, ws) == Ok::<(Seq<FieldVal>, nat), (nat, WireFault)>(
            (seq![vs[0]] + vs.skip(1), k + tail_enc.len()),
        ));
    }
}

/// Distinct registered literals make the union round trip: the encoded
/// discriminant selects exactly the variant that was encoded, and its
/// fields read back unchanged.  No unregistered discriminant is ever
/// accepted, and none selects a variant by default.
pub proof fn lemma_union_round_trip(variants: Seq<VariantDef>, disc_wire: WireType, i: int, vs: Seq<FieldVal>)
    requires
        0 <= i < variants.len(),
        wire_of(variants[i].literal@) == disc_wire,
        field_fits(variants[i].literal@),
        disc_wire != WireType::LengthInferredBytes,
        forall|j: int, l: int|
            0 <= j < l < variants.len() ==> variants[j].literal@ != variants[l].literal@,
        values_match(vs, wires_of(variants[i].fields@)),
        values_fit(vs),
        wires_wf(wires_of(variants[i].fields@)),
    ensures
        ({
            let lit = variants[i].literal@;
            let s = enc_field(lit) + enc_fields(vs);
            &&& dec_field(s, disc_wire) == Ok::<(FieldVal, nat), WireFault>(
                (lit, enc_field(lit).len()),
            )
            &&& find_variant(variants, lit) == Some(i)
            &&& dec_fields(s.skip(enc_field(lit).len() as int), wires_of(variants[i].fields@))
                == Ok::<(Seq<FieldVal>, nat), (nat, WireFault)>((vs, enc_fields(vs).len()))
        }),
{
    let lit = variants[i].literal@;
    let s = enc_field(lit) + enc_fields(vs);
    lemma_field_round_trip(lit, enc_fields(vs));
    assert(forall|j: int| 0 <= j < i ==> variants[j].literal@ != lit);
    lemma_find_variant_here(variants, lit, i);
    assert(s.skip(enc_field(lit).len() as int) =~= enc_fields(vs));
    lemma_record_round_trip(vs, wires_of(variants[i].fields@));
}

} // verus!
