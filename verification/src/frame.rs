use vstd::prelude::*;
use crate::error::PacketError;
use crate::varint::VarInt;
use crate::varint::lemma_varint_enc_shape;
use crate::varint::lemma_varint_round_trip;
use crate::varint::u32_of_i32;
use crate::varint::varint_decoded;
use crate::varint::varint_encoding;
use crate::zlib::deflate_of;
use crate::zlib::inflate_of;
use crate::zlib::zlib_compress;
use crate::zlib::zlib_decompress;

verus! {

/// The anti-amplification ceiling: no compressed frame may declare an
/// uncompressed length above two mebibytes.
pub const MAX_DECLARED_LEN: i32 = 2097152;

/// One undecoded protocol message: a numeric id and an opaque payload.
/// The payload excludes the id and the outer length prefix.
#[derive(Debug, Clone, PartialEq)]
pub struct RawPacket {
    pub id: VarInt,
    pub data: Vec<u8>,
}

/// The message id's encoding followed by the payload: the body of an
/// uncompressed frame, and the input to deflation for a compressed one.
pub open spec fn plain_body(id: i32, data: Seq<u8>) -> Seq<u8> {
    varint_encoding(id) + data
}

/// A frame: the body prefixed by its own length.
pub open spec fn with_len_prefix(body: Seq<u8>) -> Seq<u8> {
    varint_encoding(body.len() as i32) + body
}

/// The bytes `pack` emits for a message under a given threshold, provided
/// the frame fits (see `pack_ok`).
pub open spec fn pack_spec(id: i32, data: Seq<u8>, threshold: i32) -> Seq<u8> {
    if threshold < 0 {
        with_len_prefix(plain_body(id, data))
    } else if plain_body(id, data).len() < threshold {
        with_len_prefix(varint_encoding(0) + plain_body(id, data))
    } else {
        with_len_prefix(
            varint_encoding(plain_body(id, data).len() as i32) + deflate_of(plain_body(id, data)),
        )
    }
}

/// Whether the frame for a message fits its length prefixes: every declared
/// length must be a non-negative 32-bit value.
pub open spec fn pack_ok(id: i32, data: Seq<u8>, threshold: i32) -> bool {
    if threshold < 0 {
        plain_body(id, data).len() <= 0x7fff_ffff
    } else if plain_body(id, data).len() < threshold {
        true
    } else {
        plain_body(id, data).len() <= 0x7fff_ffff && varint_encoding(
            plain_body(id, data).len() as i32,
        ).len() + deflate_of(plain_body(id, data)).len() <= 0x7fff_ffff
    }
}

/// What unpacking yields with compression disabled: the frame length, the
/// message id, and exactly the declared remainder as payload.
pub open spec fn unpack_plain_spec(s: Seq<u8>) -> Result<(i32, Seq<u8>), PacketError> {
    match varint_decoded(s) {
        Err(e) => Err(e),
        Ok((flen, k1)) => {
            let rest = s.skip(k1 as int);
            match varint_decoded(rest) {
                Err(e) => Err(e),
                Ok((id, k2)) => {
                    if flen < k2 {
                        Err(PacketError::NegativeLength)
                    } else {
                        let plen = flen - k2;
                        if rest.len() - k2 < plen {
                            Err(PacketError::UnexpectedEnd)
                        } else {
                            Ok((id, rest.subrange(k2 as int, k2 + plen)))
                        }
                    }
                },
            }
        },
    }
}

/// What unpacking yields with compression enabled: after the frame length
/// comes the declared uncompressed length; zero marks an uncompressed body,
/// anything else a deflated one, policed against the threshold and the
/// ceiling.
pub open spec fn unpack_comp_spec(s: Seq<u8>, threshold: i32) -> Result<
    (i32, Seq<u8>),
    PacketError,
> {
    match varint_decoded(s) {
        Err(e) => Err(e),
        Ok((flen, k1)) => {
            let rest = s.skip(k1 as int);
            match varint_decoded(rest) {
                Err(e) => Err(e),
                Ok((dlen, k2)) => {
                    if dlen == 0 {
                        let rest2 = rest.skip(k2 as int);
                        match varint_decoded(rest2) {
                            Err(e) => Err(e),
                            Ok((id, k3)) => {
                                if flen < k2 + k3 {
                                    Err(PacketError::NegativeLength)
                                } else {
                                    let plen = flen - k2 - k3;
                                    if rest2.len() - k3 < plen {
                                        Err(PacketError::UnexpectedEnd)
                                    } else {
                                        Ok((id, rest2.subrange(k3 as int, k3 + plen)))
                                    }
                                }
                            },
                        }
                    } else if dlen < threshold {
                        Err(PacketError::BelowThreshold)
                    } else if dlen > MAX_DECLARED_LEN {
                        Err(PacketError::AboveCeiling)
                    } else if flen < k2 {
                        Err(PacketError::NegativeLength)
                    } else {
                        let clen = flen - k2;
                        if rest.len() - k2 < clen {
                            Err(PacketError::UnexpectedEnd)
                        } else {
                            match inflate_of(rest.subrange(k2 as int, k2 + clen)) {
                                None => Err(PacketError::InflateFailed),
                                Some(inner) => {
                                    if inner.len() != dlen {
                                        Err(PacketError::InflatedLengthMismatch)
                                    } else {
                                        match varint_decoded(inner) {
                                            Err(e) => Err(e),
                                            Ok((id, k3)) => Ok((id, inner.skip(k3 as int))),
                                        }
                                    }
                                },
                            }
                        }
                    }
                },
            }
        },
    }
}

/// What unpacking yields for a frame under a given threshold.
pub open spec fn unpack_spec(s: Seq<u8>, threshold: i32) -> Result<(i32, Seq<u8>), PacketError> {
    if threshold >= 0 {
        unpack_comp_spec(s, threshold)
    } else {
        unpack_plain_spec(s)
    }
}

/// With compression disabled, unpacking a packed frame returns exactly the
/// message that was packed.
pub proof fn lemma_round_trip_plain(id: i32, data: Seq<u8>, threshold: i32)
    requires
        threshold < 0,
        plain_body(id, data).len() <= 0x7fff_ffff,
    ensures
        unpack_spec(pack_spec(id, data, threshold), threshold) == Ok::<
            (i32, Seq<u8>),
            PacketError,
        >((id, data)),
{
    let body = plain_body(id, data);
    let flen: i32 = body.len() as i32;
    let s = pack_spec(id, data, threshold);
    lemma_varint_round_trip(flen, body);
    assert(u32_of_i32(flen) == body.len());
    let k1 = varint_encoding(flen).len();
    assert(s.skip(k1 as int) =~= body);
    lemma_varint_round_trip(id, data);
    let k2 = varint_encoding(id).len();
    assert(body.subrange(k2 as int, k2 + (flen - k2)) =~= data);
}

/// With compression enabled, a message whose body stays below the threshold
/// is framed with the zero marker, and unpacking returns it unchanged.
pub proof fn lemma_round_trip_below_threshold(id: i32, data: Seq<u8>, threshold: i32)
    requires
        0 <= threshold,
        plain_body(id, data).len() < threshold,
    ensures
        unpack_spec(pack_spec(id, data, threshold), threshold) == Ok::<
            (i32, Seq<u8>),
            PacketError,
        >((id, data)),
{
    let plain = plain_body(id, data);
    let body = varint_encoding(0) + plain;
    assert(varint_encoding(0) =~= seq![0u8]);
    let flen: i32 = body.len() as i32;
    let s = pack_spec(id, data, threshold);
    lemma_varint_round_trip(flen, body);
    assert(u32_of_i32(flen) == body.len());
    let k1 = varint_encoding(flen).len();
    assert(s.skip(k1 as int) =~= body);
    lemma_varint_round_trip(0, plain);
    assert(body.skip(1) =~= plain);
    lemma_varint_round_trip(id, data);
    let k3 = varint_encoding(id).len();
    assert(plain.subrange(k3 as int, k3 + (flen - 1 - k3)) =~= data);
}

/// Appends all of `src` to `dst`.
pub(crate) fn append_bytes(dst: &mut Vec<u8>, src: &Vec<u8>)
    ensures
        final(dst)@ == old(dst)@ + src@,
{
    let mut i: usize = 0;
    while i < src.len()
        invariant
            i <= src@.len(),
            dst@ == old(dst)@ + src@.subrange(0, i as int),
        decreases src@.len() - i,
    {
        dst.push(src[i]);
        i = i + 1;
        proof {
            assert(dst@ =~= old(dst)@ + src@.subrange(0, i as int));
        }
    }
    proof {
        assert(src@.subrange(0, src@.len() as int) =~= src@);
    }
}

/// Copies `len` bytes of `s` starting at `start` into a fresh buffer.
pub(crate) fn copy_range(s: &[u8], start: usize, len: usize) -> (r: Vec<u8>)
    requires
        start + len <= s@.len(),
    ensures
        r@ == s@.subrange(start as int, start as int + len as int),
{
    let mut out: Vec<u8> = Vec::new();
    let mut i: usize = 0;
    let slen: usize = s.len();
    while i < len
        invariant
            start + len <= slen == s@.len(),
            i <= len,
            out@ == s@.subrange(start as int, start as int + i as int),
        decreases len - i,
    {
        out.push(s[start + i]);
        i = i + 1;
        proof {
            assert(out@ =~= s@.subrange(start as int, start as int + i as int));
        }
    }
    out
}

impl RawPacket {
    /// Frames this message for the wire under the given threshold.  On
    /// success the bytes are exactly `pack_spec`, and — except for a body
    /// that compression would carry above the declared-length ceiling —
    /// unpacking them under the same threshold returns the message.
    pub fn pack(&self, threshold: i32) -> (r: Result<Vec<u8>, PacketError>)
        ensures
            match r {
                Ok(out) => pack_ok(self.id.0, self.data@, threshold) && out@ == pack_spec(
                    self.id.0,
                    self.data@,
                    threshold,
                ) && ((threshold < 0 || plain_body(self.id.0, self.data@).len() < threshold
                    || plain_body(self.id.0, self.data@).len() <= MAX_DECLARED_LEN)
                    ==> unpack_spec(out@, threshold) == Ok::<(i32, Seq<u8>), PacketError>(
                    (self.id.0, self.data@),
                )),
                Err(e) => (e == PacketError::FrameTooLarge && !pack_ok(
                    self.id.0,
                    self.data@,
                    threshold,
                )) || (e == PacketError::CompressFailed && threshold >= 0 && plain_body(
                    self.id.0,
                    self.data@,
                ).len() >= threshold),
            },
    {
        if threshold >= 0 {
            self.pack_with_compression(threshold)
        } else {
            self.pack_without_compression()
        }
    }

    /// Frames this message without compression: the id's encoding and the
    /// payload, prefixed by their combined length.
    pub fn pack_without_compression(&self) -> (r: Result<Vec<u8>, PacketError>)
        ensures
            match r {
                Ok(out) => plain_body(self.id.0, self.data@).len() <= 0x7fff_ffff && out@
                    == with_len_prefix(plain_body(self.id.0, self.data@)) && unpack_plain_spec(out@)
                    == Ok::<(i32, Seq<u8>), PacketError>((self.id.0, self.data@)),
                Err(e) => e == PacketError::FrameTooLarge && plain_body(
                    self.id.0,
                    self.data@,
                ).len() > 0x7fff_ffff,
            },
    {
        proof {
            lemma_varint_enc_shape(u32_of_i32(self.id.0) as nat);
        }
        let mut body = self.id.encode();
        if self.data.len() > 0x7fff_ffffusize - body.len() {
            return Err(PacketError::FrameTooLarge);
        }
        append_bytes(&mut body, &self.data);
        let mut out: Vec<u8> = Vec::new();
        VarInt(body.len() as i32).encode_into(&mut out);
        append_bytes(&mut out, &body);
        proof {
            lemma_round_trip_plain(self.id.0, self.data@, -1i32);
        }
        Ok(out)
    }

    /// Frames this message with compression enabled: a body below the
    /// threshold is sent plain behind a zero marker; one at or above it is
    /// deflated behind its declared uncompressed length.
    pub fn pack_with_compression(&self, threshold: i32) -> (r: Result<Vec<u8>, PacketError>)
        requires
            threshold >= 0,
        ensures
            match r {
                Ok(out) => pack_ok(self.id.0, self.data@, threshold) && out@ == pack_spec(
                    self.id.0,
                    self.data@,
                    threshold,
                ) && ((plain_body(self.id.0, self.data@).len() < threshold || plain_body(
                    self.id.0,
                    self.data@,
                ).len() <= MAX_DECLARED_LEN) ==> unpack_comp_spec(out@, threshold) == Ok::<
                    (i32, Seq<u8>),
                    PacketError,
                >((self.id.0, self.data@))),
                Err(e) => (e == PacketError::FrameTooLarge && !pack_ok(
                    self.id.0,
                    self.data@,
                    threshold,
                )) || (e == PacketError::CompressFailed && plain_body(
                    self.id.0,
                    self.data@,
                ).len() >= threshold),
            },
    {
        let ghost id = self.id.0;
        let ghost dat = self.data@;
        proof {
            lemma_varint_enc_shape(u32_of_i32(self.id.0) as nat);
        }
        let mut inner = self.id.encode();
        if self.data.len() > 0x7fff_ffffusize - inner.len() {
            return Err(PacketError::FrameTooLarge);
        }
        append_bytes(&mut inner, &self.data);
        if inner.len() < threshold as usize {
            // below the threshold: zero marker, then the plain body
            let mut body: Vec<u8> = Vec::new();
            body.push(0u8);
            append_bytes(&mut body, &inner);
            proof {
                assert(varint_encoding(0) =~= seq![0u8]);
                assert(body@ =~= varint_encoding(0) + plain_body(id, dat));
            }
            let mut out: Vec<u8> = Vec::new();
            VarInt(body.len() as i32).encode_into(&mut out);
            append_bytes(&mut out, &body);
            proof {
                lemma_round_trip_below_threshold(id, dat, threshold);
            }
            Ok(out)
        } else {
            // at or above the threshold: declared length, then the deflated body
            match zlib_compress(&inner) {
                Err(_) => Err(PacketError::CompressFailed),
                Ok(comp) => {
                    let mut body = VarInt(inner.len() as i32).encode();
                    proof {
                        lemma_varint_enc_shape(u32_of_i32(inner.len() as i32) as nat);
                    }
                    if comp.len() > 0x7fff_ffffusize - body.len() {
                        return Err(PacketError::FrameTooLarge);
                    }
                    append_bytes(&mut body, &comp);
                    let mut out: Vec<u8> = Vec::new();
                    VarInt(body.len() as i32).encode_into(&mut out);
                    append_bytes(&mut out, &body);
                    proof {
                        let plain = plain_body(id, dat);
                        let dlen: i32 = plain.len() as i32;
                        let flen: i32 = body@.len() as i32;
                        lemma_varint_round_trip(flen, body@);
                        assert(u32_of_i32(flen) == body@.len());
                        let k1 = varint_encoding(flen).len();
                        assert(out@.skip(k1 as int) =~= body@);
                        lemma_varint_round_trip(dlen, comp@);
                        assert(u32_of_i32(dlen) == plain.len());
                        let k2 = varint_encoding(dlen).len();
                        assert(body@.subrange(k2 as int, k2 + (flen - k2)) =~= comp@);
                        if plain.len() <= MAX_DECLARED_LEN {
                            lemma_varint_round_trip(id, dat);
                            let k3 = varint_encoding(id).len();
                            assert(plain.skip(k3 as int) =~= dat);
                            assert(unpack_comp_spec(out@, threshold) == Ok::<
                                (i32, Seq<u8>),
                                PacketError,
                            >((id, dat)));
                        }
                    }
                    Ok(out)
                },
            }
        }
    }

    /// Reads one message back out of a frame under the given threshold.
    /// The result is exactly `unpack_spec` of the bytes.
    pub fn unpack(s: &[u8], threshold: i32) -> (r: Result<RawPacket, PacketError>)
        ensures
            match r {
                Ok(p) => unpack_spec(s@, threshold) == Ok::<(i32, Seq<u8>), PacketError>(
                    (p.id.0, p.data@),
                ),
                Err(e) => unpack_spec(s@, threshold) == Err::<(i32, Seq<u8>), PacketError>(e),
            },
    {
        if threshold >= 0 {
            Self::unpack_with_compression(s, threshold)
        } else {
            Self::unpack_without_compression(s)
        }
    }

    /// Reads one message out of an uncompressed frame.
    pub fn unpack_without_compression(s: &[u8]) -> (r: Result<RawPacket, PacketError>)
        ensures
            match r {
                Ok(p) => unpack_plain_spec(s@) == Ok::<(i32, Seq<u8>), PacketError>(
                    (p.id.0, p.data@),
                ),
                Err(e) => unpack_plain_spec(s@) == Err::<(i32, Seq<u8>), PacketError>(e),
            },
    {
        proof {
            assert(s@.skip(0) =~= s@);
        }
        let (flen_vi, k1) = match VarInt::decode(s, 0) {
            Ok(p) => p,
            Err(e) => {
                return Err(e);
            },
        };
        let (id, k2) = match VarInt::decode(s, k1) {
            Ok(p) => p,
            Err(e) => {
                return Err(e);
            },
        };
        let flen = flen_vi.0;
        proof {
            assert(s@.skip(k1 as int).skip(k2 as int) =~= s@.skip((k1 + k2) as int));
        }
        if flen < 0 || (flen as usize) < k2 {
            return Err(PacketError::NegativeLength);
        }
        let plen: usize = flen as usize - k2;
        if s.len() - (k1 + k2) < plen {
            return Err(PacketError::UnexpectedEnd);
        }
        let data = copy_range(s, k1 + k2, plen);
        proof {
            assert(s@.subrange((k1 + k2) as int, (k1 + k2) as int + plen as int) =~= s@.skip(
                k1 as int,
            ).subrange(k2 as int, k2 + (flen - k2)));
        }
        Ok(RawPacket { id, data })
    }

    /// Reads one message out of a frame sent with compression enabled,
    /// inflating the body when its declared uncompressed length is not the
    /// zero marker.
    pub fn unpack_with_compression(s: &[u8], threshold: i32) -> (r: Result<RawPacket, PacketError>)
        requires
            threshold >= 0,
        ensures
            match r {
                Ok(p) => unpack_comp_spec(s@, threshold) == Ok::<(i32, Seq<u8>), PacketError>(
                    (p.id.0, p.data@),
                ),
                Err(e) => unpack_comp_spec(s@, threshold) == Err::<(i32, Seq<u8>), PacketError>(e),
            },
    {
        proof {
            assert(s@.skip(0) =~= s@);
        }
        let (flen_vi, k1) = match VarInt::decode(s, 0) {
            Ok(p) => p,
            Err(e) => {
                return Err(e);
            },
        };
        let (dlen_vi, k2) = match VarInt::decode(s, k1) {
            Ok(p) => p,
            Err(e) => {
                return Err(e);
            },
        };
        let flen = flen_vi.0;
        let dlen = dlen_vi.0;
        proof {
            assert(s@.skip(k1 as int).skip(k2 as int) =~= s@.skip((k1 + k2) as int));
        }
        if dlen == 0 {
            let (id, k3) = match VarInt::decode(s, k1 + k2) {
                Ok(p) => p,
                Err(e) => {
                    return Err(e);
                },
            };
            if flen < 0 || (flen as usize) < k2 + k3 {
                return Err(PacketError::NegativeLength);
            }
            let plen: usize = flen as usize - k2 - k3;
            if s.len() - (k1 + k2 + k3) < plen {
                return Err(PacketError::UnexpectedEnd);
            }
            let data = copy_range(s, k1 + k2 + k3, plen);
            proof {
                assert(s@.subrange((k1 + k2 + k3) as int, (k1 + k2 + k3) as int + plen as int)
                    =~= s@.skip((k1 + k2) as int).subrange(k3 as int, k3 + (flen - k2 - k3)));
            }
            Ok(RawPacket { id, data })
        } else {
            if dlen < threshold {
                return Err(PacketError::BelowThreshold);
            }
            if dlen > MAX_DECLARED_LEN {
                return Err(PacketError::AboveCeiling);
            }
            if flen < 0 || (flen as usize) < k2 {
                return Err(PacketError::NegativeLength);
            }
            let clen: usize = flen as usize - k2;
            if s.len() - (k1 + k2) < clen {
                return Err(PacketError::UnexpectedEnd);
            }
            let comp = copy_range(s, k1 + k2, clen);
            proof {
                assert(comp@ =~= s@.skip(k1 as int).subrange(k2 as int, k2 + (flen - k2)));
            }
            let inner = match zlib_decompress(&comp) {
                Some(v) => v,
                None => {
                    return Err(PacketError::InflateFailed);
                },
            };
            if inner.len() != dlen as usize {
                return Err(PacketError::InflatedLengthMismatch);
            }
            let (id, k3) = match VarInt::decode(inner.as_slice(), 0) {
                Ok(p) => p,
                Err(e) => {
                    proof {
                        assert(inner@.skip(0) =~= inner@);
                    }
                    return Err(e);
                },
            };
            proof {
                assert(inner@.skip(0) =~= inner@);
            }
            let data = copy_range(inner.as_slice(), k3, inner.len() - k3);
            proof {
                assert(data@ =~= inner@.skip(k3 as int));
            }
            Ok(RawPacket { id, data })
        }
    }
}

} // verus!
