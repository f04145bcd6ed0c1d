//! The integer layer of the wire format: zig-zag mapping of signed
//! integers and base-128 variable-length encoding, with an exact parser
//! and the round-trip lemmas the codec proofs build on.

use vstd::prelude::*;

verus! {

/// Zig-zag mapping: interleaves the signed integers so that small
/// magnitudes get small codes.
pub open spec fn zigzag(n: int) -> nat {
    if n >= 0 {
        (2 * n) as nat
    } else {
        (-2 * n - 1) as nat
    }
}

/// The inverse of `zigzag`.
pub open spec fn unzigzag(u: nat) -> int {
    if u % 2 == 0 {
        (u / 2) as int
    } else {
        -((u / 2) as int) - 1
    }
}

pub proof fn lemma_zigzag_roundtrip(n: int)
    ensures
        unzigzag(zigzag(n)) == n,
{
}

/// Base-128 little-endian variable-length encoding: seven value bits per
/// byte, the high bit set on every byte but the last.
pub open spec fn varint(u: nat) -> Seq<u8>
    decreases u,
{
    if u < 128 {
        seq![u as u8]
    } else {
        seq![(128 + u % 128) as u8] + varint(u / 128)
    }
}

/// The wire encoding of the signed integer `n` (both the 32-bit and the
/// 64-bit flavours of the format share it).
pub open spec fn enc_long(n: int) -> Seq<u8> {
    varint(zigzag(n))
}

/// Parses a variable-length integer from the front of `s`, returning the
/// value and the number of bytes consumed.
pub open spec fn parse_varint(s: Seq<u8>) -> Option<(nat, int)>
    decreases s.len(),
{
    if s.len() == 0 {
        None
    } else if s[0] < 128 {
        Some((s[0] as nat, 1))
    } else {
        match parse_varint(s.subrange(1, s.len() as int)) {
            Some(r) => Some(((s[0] - 128 + 128 * r.0) as nat, r.1 + 1)),
            None => None,
        }
    }
}

/// `parse_varint` restricted to values that fit in 64 bits, which is what
/// the executable decoder accepts.
pub open spec fn parse_u64(s: Seq<u8>) -> Option<(nat, int)> {
    match parse_varint(s) {
        Some(r) => if r.0 < 0x1_0000_0000_0000_0000 {
            Some(r)
        } else {
            None
        },
        None => None,
    }
}

/// Parses a zig-zag coded signed integer from the front of `s`.
pub open spec fn parse_long(s: Seq<u8>) -> Option<(int, int)> {
    match parse_u64(s) {
        Some(r) => Some((unzigzag(r.0), r.1)),
        None => None,
    }
}

/// A parsed variable-length integer consumes at least one byte and no
/// more than the whole input.
pub proof fn lemma_parse_varint_bounds(s: Seq<u8>)
    ensures
        parse_varint(s) is Some ==> 1 <= parse_varint(s).unwrap().1 <= s.len(),
    decreases s.len(),
{
    if s.len() > 0 && s[0] >= 128 {
        lemma_parse_varint_bounds(s.subrange(1, s.len() as int));
    }
}

/// Parsing an encoded value out of any longer stream recovers the value
/// and consumes exactly the encoding.
pub proof fn lemma_parse_varint_enc(u: nat, rest: Seq<u8>)
    ensures
        parse_varint(varint(u) + rest) == Some((u, varint(u).len() as int)),
    decreases u,
{
    let s = varint(u) + rest;
    if u < 128 {
        assert(s[0] == u as u8);
    } else {
        lemma_parse_varint_enc(u / 128, rest);
        assert(s[0] == (128 + u % 128) as u8);
        assert(s[0] >= 128);
        assert(s.subrange(1, s.len() as int) =~= varint(u / 128) + rest);
        assert(s[0] - 128 + 128 * (u / 128) == u);
    }
}

pub proof fn lemma_parse_long_enc(n: int, rest: Seq<u8>)
    requires
        -0x8000_0000_0000_0000 <= n < 0x8000_0000_0000_0000,
    ensures
        parse_long(enc_long(n) + rest) == Some((n, enc_long(n).len() as int)),
{
    lemma_parse_varint_enc(zigzag(n), rest);
    lemma_zigzag_roundtrip(n);
    assert(zigzag(n) < 0x1_0000_0000_0000_0000);
}

/// Appends the encoding of `u` to `out`.
pub fn encode_varint(out: &mut Vec<u8>, u: u64)
    ensures
        final(out)@ == old(out)@ + varint(u as nat),
    decreases u,
{
    if u < 128 {
        out.push(u as u8);
        proof {
            assert(out@ =~= old(out)@ + varint(u as nat));
        }
    } else {
        let b: u8 = (u % 128) as u8 + 128;
        out.push(b);
        encode_varint(out, u / 128);
        proof {
            assert(out@ =~= old(out)@ + varint(u as nat));
        }
    }
}

/// Appends the wire encoding of the signed integer `n` to `out`.
pub fn encode_long(out: &mut Vec<u8>, n: i64)
    ensures
        final(out)@ == old(out)@ + enc_long(n as int),
{
    let u: u64 = if n >= 0 {
        (n as u64) * 2
    } else {
        ((-(n + 1)) as u64) * 2 + 1
    };
    proof {
        assert(u as nat == zigzag(n as int));
    }
    encode_varint(out, u);
}

/// Decodes a variable-length integer at `pos`, exactly following
/// `parse_u64` on the remaining bytes: the value, and how many bytes it
/// took, or `None` where the stream ends or the value overflows 64 bits.
pub fn decode_varint_at(s: &[u8], pos: usize) -> (r: Option<(u64, usize)>)
    requires
        pos <= s@.len(),
    ensures
        match r {
            Some(p) => parse_u64(s@.subrange(pos as int, s@.len() as int)) == Some(
                (p.0 as nat, p.1 as int),
            ) && 1 <= p.1 <= s@.len() - pos,
            None => parse_u64(s@.subrange(pos as int, s@.len() as int)) is None,
        },
    decreases s@.len() - pos,
{
    let ghost tail = s@.subrange(pos as int, s@.len() as int);
    if pos == s.len() {
        return None;
    }
    let b = s[pos];
    proof {
        assert(tail[0] == b);
    }
    if b < 128 {
        Some((b as u64, 1))
    } else {
        let ghost tail2 = s@.subrange(pos + 1, s@.len() as int);
        proof {
            assert(tail2 =~= tail.subrange(1, tail.len() as int));
        }
        match decode_varint_at(s, pos + 1) {
            None => {
                proof {
                    lemma_parse_varint_bounds(tail2);
                }
                None
            },
            Some((v, c)) => {
                let low: u64 = (b - 128) as u64;
                if v <= (0xffff_ffff_ffff_ffffu64 - low) / 128 {
                    Some((low + 128 * v, c + 1))
                } else {
                    proof {
                        let r2 = parse_varint(tail2).unwrap();
                        assert((tail[0] - 128 + 128 * r2.0) as nat >= 0x1_0000_0000_0000_0000)
                            by (nonlinear_arith)
                            requires
                                r2.0 >= v as nat,
                                v > (0xffff_ffff_ffff_ffffu64 - low) / 128,
                                low == tail[0] - 128,
                                tail[0] >= 128,
                                low < 128,
                        {}
                    }
                    None
                }
            },
        }
    }
}

/// Decodes a zig-zag coded signed integer at `pos`, exactly following
/// `parse_long` on the remaining bytes.
pub fn decode_long_at(s: &[u8], pos: usize) -> (r: Option<(i64, usize)>)
    requires
        pos <= s@.len(),
    ensures
        match r {
            Some(p) => parse_long(s@.subrange(pos as int, s@.len() as int)) == Some(
                (p.0 as int, p.1 as int),
            ) && 1 <= p.1 <= s@.len() - pos,
            None => parse_long(s@.subrange(pos as int, s@.len() as int)) is None,
        },
{
    match decode_varint_at(s, pos) {
        None => None,
        Some((u, c)) => {
            let n: i64 = if u % 2 == 0 {
                (u / 2) as i64
            } else {
                -((u / 2) as i64) - 1
            };
            proof {
                assert(n as int == unzigzag(u as nat));
            }
            Some((n, c))
        },
    }
}

} // verus!
