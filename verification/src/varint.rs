use vstd::prelude::*;
use vstd::arithmetic::power2::lemma2_to64;
use vstd::arithmetic::power2::lemma_pow2_adds;
use vstd::arithmetic::power2::lemma_pow2_strictly_increases;
use vstd::arithmetic::power2::pow2;
use vstd::arithmetic::div_mod::lemma_fundamental_div_mod;
use crate::error::PacketError;

verus! {

/// A signed 32-bit value carried on the wire in one to five bytes of 7-bit
/// groups, least-significant group first, with the high bit of every byte
/// but the last set.
#[derive(Clone, Copy, Debug, PartialEq, Eq, Structural)]
pub struct VarInt(pub i32);

/// The unsigned 32-bit reinterpretation of a signed 32-bit value.
pub open spec fn u32_of_i32(v: i32) -> u32 {
    if v >= 0 {
        v as u32
    } else {
        (v + 0x1_0000_0000) as u32
    }
}

/// The signed 32-bit reinterpretation of an unsigned 32-bit value.
pub open spec fn i32_of_u32(n: u32) -> i32 {
    if n < 0x8000_0000 {
        n as i32
    } else {
        (n - 0x1_0000_0000) as i32
    }
}

/// The bytes of the minimal 7-bit-group encoding of `n`.
pub open spec fn varint_enc(n: nat) -> Seq<u8>
    decreases n,
{
    if n < 128 {
        seq![n as u8]
    } else {
        seq![(128 + n % 128) as u8] + varint_enc(n / 128)
    }
}

/// The wire encoding of a signed 32-bit value: its unsigned reinterpretation
/// in 7-bit groups.
pub open spec fn varint_encoding(v: i32) -> Seq<u8> {
    varint_enc(u32_of_i32(v) as nat)
}

/// Reads 7-bit groups from the front of `s` until a byte with a clear high
/// bit, allowing at most `max` bytes.  Returns the reassembled value (not
/// yet truncated to 32 bits) and the number of bytes consumed.
pub open spec fn varint_parse(s: Seq<u8>, max: nat) -> Result<(nat, nat), PacketError>
    decreases max,
{
    if max == 0 {
        Err(PacketError::VarIntTooLarge)
    } else if s.len() == 0 {
        Err(PacketError::UnexpectedEnd)
    } else if s[0] < 128 {
        Ok(((s[0] as nat), 1nat))
    } else {
        match varint_parse(s.skip(1), (max - 1) as nat) {
            Ok((v, k)) => Ok((((s[0] - 128) as nat) + 128 * v, k + 1)),
            Err(e) => Err(e),
        }
    }
}

/// The value and consumed length of the variable-length integer at the
/// front of `s`: at most five bytes, reassembled, truncated to 32 bits, and
/// reinterpreted as signed.
pub open spec fn varint_decoded(s: Seq<u8>) -> Result<(i32, nat), PacketError> {
    match varint_parse(s, 5) {
        Ok((v, k)) => Ok((i32_of_u32((v % 0x1_0000_0000) as u32), k)),
        Err(e) => Err(e),
    }
}

/// A parsed value is bounded by 128 to the power of the byte allowance, and
/// consumes between one and `max` bytes, never more than are present.
pub proof fn lemma_varint_parse_bound(s: Seq<u8>, max: nat)
    ensures
        varint_parse(s, max) matches Ok(p) ==> p.0 < pow2(7 * max) && 1 <= p.1 <= max && p.1
            <= s.len(),
    decreases max,
{
    if max == 0 || s.len() == 0 {
    } else if s[0] < 128 {
        lemma2_to64();
        if 7 < 7 * max {
            lemma_pow2_strictly_increases(7, 7 * max);
        }
    } else {
        lemma_varint_parse_bound(s.skip(1), (max - 1) as nat);
        match varint_parse(s.skip(1), (max - 1) as nat) {
            Ok((v, k)) => {
                lemma_pow2_adds(7, 7 * (max - 1) as nat);
                lemma2_to64();
                assert(7 * max == 7 + 7 * (max - 1) as nat);
                assert(128 * v <= 128 * (pow2(7 * (max - 1) as nat) - 1)) by (nonlinear_arith)
                    requires
                        v <= pow2(7 * (max - 1) as nat) - 1,
                ;
            },
            Err(_) => {},
        }
    }
}

/// An encoding followed by anything parses back to the value it encodes,
/// consuming exactly the encoding.
pub proof fn lemma_varint_enc_parse(n: nat, rest: Seq<u8>, max: nat)
    requires
        1 <= max,
        n < pow2(7 * max),
    ensures
        varint_parse(varint_enc(n) + rest, max) == Ok::<(nat, nat), PacketError>(
            (n, varint_enc(n).len()),
        ),
    decreases n,
{
    let s = varint_enc(n) + rest;
    if n < 128 {
        assert(s[0] == n as u8);
    } else {
        lemma2_to64();
        if max == 1 {
            assert(pow2(7) == 128);
            assert(false);
        }
        assert(s[0] == (128 + n % 128) as u8);
        lemma_fundamental_div_mod(n as int, 128);
        lemma_pow2_adds(7, 7 * (max - 1) as nat);
        assert(7 * max == 7 + 7 * (max - 1) as nat);
        assert(n / 128 < pow2(7 * (max - 1) as nat)) by {
            if n / 128 >= pow2(7 * (max - 1) as nat) {
                assert(128 * (n / 128) >= 128 * pow2(7 * (max - 1) as nat)) by (nonlinear_arith)
                    requires
                        n / 128 >= pow2(7 * (max - 1) as nat),
                ;
                assert(false);
            }
        }
        lemma_varint_enc_parse(n / 128, rest, (max - 1) as nat);
        assert(s.skip(1) =~= varint_enc(n / 128) + rest);
        assert(((s[0] - 128) as nat) + 128 * (n / 128) == n);
    }
}

/// If an encoding has two or more bytes, its value has at least as many
/// 7-bit groups as bytes.
proof fn lemma_varint_enc_len_lower(n: nat)
    ensures
        varint_enc(n).len() >= 2 ==> n >= 128,
        varint_enc(n).len() >= 3 ==> n >= 0x4000,
        varint_enc(n).len() >= 4 ==> n >= 0x20_0000,
        varint_enc(n).len() >= 5 ==> n >= 0x1000_0000,
        varint_enc(n).len() >= 6 ==> n >= 0x8_0000_0000,
    decreases n,
{
    if n >= 128 {
        lemma_fundamental_div_mod(n as int, 128);
        lemma_varint_enc_len_lower(n / 128);
        if varint_enc(n).len() >= 3 {
            assert(128 * (n / 128) >= 128 * 128) by (nonlinear_arith)
                requires
                    n / 128 >= 128,
            ;
        }
        if varint_enc(n).len() >= 4 {
            assert(128 * (n / 128) >= 128 * 0x4000) by (nonlinear_arith)
                requires
                    n / 128 >= 0x4000,
            ;
        }
        if varint_enc(n).len() >= 5 {
            assert(128 * (n / 128) >= 128 * 0x20_0000) by (nonlinear_arith)
                requires
                    n / 128 >= 0x20_0000,
            ;
        }
        if varint_enc(n).len() >= 6 {
            assert(128 * (n / 128) >= 128 * 0x1000_0000) by (nonlinear_arith)
                requires
                    n / 128 >= 0x1000_0000,
            ;
        }
    }
}

/// The encoding of any 32-bit value is one to five bytes; its final byte
/// has a clear high bit and, past the first byte, is never zero, so no
/// encoding carries a superfluous trailing group.
pub proof fn lemma_varint_enc_shape(n: nat)
    requires
        n < 0x1_0000_0000,
    ensures
        1 <= varint_enc(n).len() <= 5,
        varint_enc(n).last() < 128,
        n >= 128 ==> varint_enc(n).len() >= 2 && varint_enc(n).last() != 0,
        n < 128 ==> varint_enc(n).len() == 1,
    decreases n,
{
    if n >= 128 {
        lemma_fundamental_div_mod(n as int, 128);
        assert(n / 128 < 0x1_0000_0000) by {
            if n / 128 >= 0x1_0000_0000 {
                assert(128 * (n / 128) >= 128 * 0x1_0000_0000) by (nonlinear_arith)
                    requires
                        n / 128 >= 0x1_0000_0000,
                ;
                assert(false);
            }
        }
        lemma_varint_enc_shape(n / 128);
        assert(n / 128 >= 1);
        assert(varint_enc(n).last() == varint_enc(n / 128).last());
        if varint_enc(n / 128).len() >= 5 {
            lemma_varint_enc_len_lower(n / 128);
            assert(128 * (n / 128) >= 128 * 0x1000_0000) by (nonlinear_arith)
                requires
                    n / 128 >= 0x1000_0000,
            ;
            assert(false);
        }
    }
}

/// The encoding of a signed value, followed by anything, decodes back to
/// that value, consuming exactly the encoding; the encoding is one to five
/// bytes and minimal.
pub proof fn lemma_varint_round_trip(v: i32, rest: Seq<u8>)
    ensures
        1 <= varint_encoding(v).len() <= 5,
        varint_encoding(v).len() >= 2 ==> varint_encoding(v).last() != 0,
        varint_decoded(varint_encoding(v) + rest) == Ok::<(i32, nat), PacketError>(
            (v, varint_encoding(v).len()),
        ),
{
    let n = u32_of_i32(v) as nat;
    lemma2_to64();
    vstd::arithmetic::power2::lemma2_to64_rest();
    lemma_varint_enc_shape(n);
    assert(7 * 5 == 35nat);
    assert(n < pow2(35));
    lemma_varint_enc_parse(n, rest, 5);
    assert(n % 0x1_0000_0000 == n);
}

impl VarInt {
    /// The bytes this value carries on the wire.
    pub open spec fn encoding(self) -> Seq<u8> {
        varint_encoding(self.0)
    }

    /// The unsigned reinterpretation of the carried value.
    pub fn to_u32(self) -> (r: u32)
        ensures
            r == u32_of_i32(self.0),
    {
        if self.0 >= 0 {
            self.0 as u32
        } else {
            ((self.0 as i64) + 0x1_0000_0000i64) as u32
        }
    }

    /// The signed reinterpretation of an unsigned 32-bit value.
    pub fn from_u32(n: u32) -> (r: VarInt)
        ensures
            r.0 == i32_of_u32(n),
    {
        if n < 0x8000_0000 {
            VarInt(n as i32)
        } else {
            VarInt(((n as i64) - 0x1_0000_0000i64) as i32)
        }
    }

    /// Appends this value's minimal encoding to `out`.
    pub fn encode_into(self, out: &mut Vec<u8>)
        ensures
            final(out)@ == old(out)@ + self.encoding(),
    {
        let mut n: u32 = self.to_u32();
        let ghost n0: nat = n as nat;
        let ghost pre: Seq<u8> = out@;
        while n >= 128
            invariant
                pre + varint_enc(n0) == out@ + varint_enc(n as nat),
            decreases n,
        {
            let b: u8 = (128 + n % 128) as u8;
            let ghost prev = out@;
            out.push(b);
            proof {
                assert(varint_enc(n as nat) == seq![b] + varint_enc((n as nat) / 128));
                assert(out@ + varint_enc((n as nat) / 128) =~= prev + varint_enc(n as nat));
                assert((n / 128) as nat == (n as nat) / 128);
            }
            n = n / 128;
        }
        let ghost prev = out@;
        out.push(n as u8);
        proof {
            assert(varint_enc(n as nat) == seq![n as u8]);
            assert(out@ =~= prev + varint_enc(n as nat));
            assert(out@ =~= pre + varint_enc(n0));
        }
    }

    /// This value's minimal encoding, standing alone.
    pub fn encode(self) -> (r: Vec<u8>)
        ensures
            r@ == self.encoding(),
    {
        let mut out: Vec<u8> = Vec::new();
        self.encode_into(&mut out);
        out
    }

    /// Reads the variable-length integer starting at `pos`, returning the
    /// value and the number of bytes consumed.
    pub fn decode(s: &[u8], pos: usize) -> (r: Result<(VarInt, usize), PacketError>)
        requires
            pos <= s@.len(),
        ensures
            match r {
                Ok(p) => varint_decoded(s@.skip(pos as int)) == Ok::<(i32, nat), PacketError>(
                    (p.0.0, p.1 as nat),
                ) && 1 <= p.1 <= 5 && pos + p.1 <= s@.len(),
                Err(e) => varint_decoded(s@.skip(pos as int)) == Err::<(i32, nat), PacketError>(e),
            },
    {
        match Self::parse_raw(s, pos, 5) {
            Ok((v, k)) => {
                let t: u32 = (v % 0x1_0000_0000u64) as u32;
                Ok((Self::from_u32(t), k))
            },
            Err(e) => Err(e),
        }
    }

    /// Reads up to `max` 7-bit groups starting at `pos`, returning the raw
    /// reassembled value and the number of bytes consumed.
    fn parse_raw(s: &[u8], pos: usize, max: u32) -> (r: Result<(u64, usize), PacketError>)
        requires
            pos <= s@.len(),
            1 <= max <= 5,
        ensures
            match r {
                Ok(p) => varint_parse(s@.skip(pos as int), max as nat) == Ok::<
                    (nat, nat),
                    PacketError,
                >((p.0 as nat, p.1 as nat)) && 1 <= p.1 <= max && pos + p.1 <= s@.len(),
                Err(e) => varint_parse(s@.skip(pos as int), max as nat) == Err::<
                    (nat, nat),
                    PacketError,
                >(e),
            },
        decreases max,
    {
        let ghost tail = s@.skip(pos as int);
        if pos == s.len() {
            return Err(PacketError::UnexpectedEnd);
        }
        let b: u8 = s[pos];
        proof {
            assert(tail[0] == b);
        }
        if b < 128 {
            Ok((b as u64, 1))
        } else if max == 1 {
            proof {
                assert(varint_parse(tail.skip(1), 0nat) == Err::<(nat, nat), PacketError>(
                    PacketError::VarIntTooLarge,
                ));
            }
            Err(PacketError::VarIntTooLarge)
        } else {
            match Self::parse_raw(s, pos + 1, max - 1) {
                Ok((v, k)) => {
                    proof {
                        assert(s@.skip(pos as int + 1) =~= tail.skip(1));
                        lemma_varint_parse_bound(tail.skip(1), (max - 1) as nat);
                        lemma2_to64();
                        assert(pow2(7 * (max - 1) as nat) <= pow2(28)) by {
                            if (7 * ((max - 1) as nat)) < 28 {
                                lemma_pow2_strictly_increases(7 * ((max - 1) as nat), 28);
                            }
                        }
                        assert(128 * v <= 128 * (pow2(28) - 1)) by (nonlinear_arith)
                            requires
                                v <= pow2(28) - 1,
                        ;
                    }
                    Ok((((b - 128) as u64) + 128 * v, k + 1))
                },
                Err(e) => {
                    proof {
                        assert(s@.skip(pos as int + 1) =~= tail.skip(1));
                    }
                    Err(e)
                },
            }
        }
    }
}

} // verus!
