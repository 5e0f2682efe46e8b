use vstd::prelude::*;

use crate::error::{decoded, within, DecodeError};

verus! {

/// A 32-bit signed integer written in 1 to 5 bytes, seven payload bits per
/// byte, least significant group first, the high bit flagging that another
/// byte follows.
#[derive(Clone, Copy, Debug, PartialEq, Eq, Structural)]
pub struct VarInt(pub i32);

impl View for VarInt {
    type V = i32;

    open spec fn view(&self) -> i32 {
        self.0
    }
}

/// The minimal encoding of the bit pattern `v`.
pub open spec fn varint_bytes(v: u32) -> Seq<u8>
    decreases v,
    via varint_bytes_decreases
{
    if v < 0x80 {
        seq![v as u8]
    } else {
        seq![((v & 0x7f) | 0x80) as u8] + varint_bytes(v >> 7)
    }
}

#[via_fn]
proof fn varint_bytes_decreases(v: u32) {
    if v >= 0x80 {
        assert((v >> 7) < v) by (bit_vector)
            requires
                v >= 0x80,
        ;
    }
}

/// The encoding of a signed value: its two's-complement bit pattern.
pub open spec fn varint_spec(v: i32) -> Seq<u8> {
    varint_bytes(v as u32)
}

/// Reads a VarInt whose first `i` bytes are already folded into `acc`.
pub open spec fn parse_varint_from(s: Seq<u8>, i: nat, acc: u32) -> Result<(i32, int), DecodeError>
    decreases 5 - i,
{
    if i >= 5 {
        Err(DecodeError::MalformedVarInt)
    } else if i >= s.len() {
        Err(DecodeError::TruncatedInput)
    } else {
        let b = s[i as int];
        let acc2 = acc | (((b & 0x7f) as u32) << ((7 * i) as u32));
        if b & 0x80 == 0 {
            Ok((acc2 as i32, i + 1 as int))
        } else {
            parse_varint_from(s, i + 1, acc2)
        }
    }
}

/// What decoding a VarInt at the start of `s` gives: the value and the bytes
/// consumed, or the error.
pub open spec fn parse_varint(s: Seq<u8>) -> Result<(i32, int), DecodeError> {
    parse_varint_from(s, 0, 0)
}

/// The low `k` bits of `v`.
pub open spec fn low_bits(v: u32, k: u32) -> u32 {
    v & (((1u32 << k) as u32 - 1) as u32)
}

proof fn lemma_last_group(v: u32, k: u32, acc: u32, b: u8)
    requires
        k <= 28,
        acc == low_bits(v, k),
        (v >> k) < 0x80,
        b == (v >> k) as u8,
    ensures
        b & 0x80 == 0,
        acc | (((b & 0x7f) as u32) << k) == v,
{
    assert(b & 0x80 == 0 && acc | (((b & 0x7f) as u32) << k) == v) by (bit_vector)
        requires
            k <= 28,
            acc == v & (((1u32 << k) as u32 - 1) as u32),
            (v >> k) < 0x80,
            b == (v >> k) as u8,
    ;
}

proof fn lemma_inner_group(v: u32, k: u32, acc: u32, b: u8)
    requires
        k <= 28,
        acc == low_bits(v, k),
        (v >> k) >= 0x80,
        b == (((v >> k) & 0x7f) | 0x80) as u8,
    ensures
        b & 0x80 != 0,
        k < 25,
{
    assert(k < 25 && b & 0x80 != 0) by (bit_vector)
        requires
            k <= 28,
            (v >> k) >= 0x80,
            b == (((v >> k) & 0x7f) | 0x80) as u8,
    ;
}

proof fn lemma_inner_group_value(v: u32, k: u32, acc: u32, b: u8)
    requires
        k + 7 <= 28,
        acc == low_bits(v, k),
        b == (((v >> k) & 0x7f) | 0x80) as u8,
    ensures
        acc | (((b & 0x7f) as u32) << k) == low_bits(v, (k + 7) as u32),
        (v >> k) >> 7 == v >> ((k + 7) as u32),
{
    assert(acc | (((b & 0x7f) as u32) << k) == v & (((1u32 << ((k + 7) as u32)) as u32 - 1) as u32)
        && (v >> k) >> 7 == v >> ((k + 7) as u32)) by (bit_vector)
        requires
            k + 7 <= 28,
            acc == v & (((1u32 << k) as u32 - 1) as u32),
            b == (((v >> k) & 0x7f) | 0x80) as u8,
    ;
}

proof fn lemma_parse_groups(v: u32, i: int, s: Seq<u8>, acc: u32)
    requires
        0 <= i < 5,
        acc == low_bits(v, (7 * i) as u32),
        i + varint_bytes(v >> ((7 * i) as u32)).len() <= s.len(),
        s.subrange(i as int, i + varint_bytes(v >> ((7 * i) as u32)).len())
            == varint_bytes(v >> ((7 * i) as u32)),
    ensures
        parse_varint_from(s, i as nat, acc) == Ok::<(i32, int), DecodeError>(
            (v as i32, i + varint_bytes(v >> ((7 * i) as u32)).len()),
        ),
    decreases 5 - i,
{
    let k = (7 * i) as u32;
    let w = v >> k;
    let b = s[i];
    assert(b == varint_bytes(w)[0]);
    if w < 0x80 {
        lemma_last_group(v, k, acc, b);
    } else {
        lemma_inner_group(v, k, acc, b);
        lemma_inner_group_value(v, k, acc, b);
        let acc2 = acc | (((b & 0x7f) as u32) << k);
        assert(((7 * (i + 1)) as u32) == (k + 7) as u32);
        let tail = varint_bytes(w >> 7);
        assert(varint_bytes(w) == seq![b] + tail);
        assert(s.subrange(i + 1, i + 1 + tail.len()) == tail) by {
            assert(s.subrange(i + 1, i + 1 + tail.len()) =~= varint_bytes(w).subrange(
                1,
                varint_bytes(w).len() as int,
            ));
        }
        lemma_parse_groups(v, i + 1, s, acc2);
    }
}

/// Decoding the encoding of any value gives that value back and consumes
/// exactly the encoding, whatever bytes follow it.
pub proof fn lemma_varint_round_trip(v: i32, rest: Seq<u8>)
    ensures
        parse_varint(varint_spec(v) + rest) == Ok::<(i32, int), DecodeError>(
            (v, varint_spec(v).len() as int),
        ),
{
    let u = v as u32;
    let s = varint_spec(v) + rest;
    assert(low_bits(u, 0) == 0) by (bit_vector);
    assert(u >> 0u32 == u) by (bit_vector);
    assert((u as i32) == v) by (bit_vector)
        requires
            u == v as u32,
    ;
    assert(s.subrange(0, varint_bytes(u).len() as int) =~= varint_bytes(u));
    lemma_parse_groups(u, 0, s, 0);
}

proof fn lemma_parse_groups_cut(v: u32, i: int, s: Seq<u8>, acc: u32)
    requires
        0 <= i < 5,
        i <= s.len() < i + varint_bytes(v >> ((7 * i) as u32)).len(),
        s.skip(i) == varint_bytes(v >> ((7 * i) as u32)).take(s.len() - i),
    ensures
        parse_varint_from(s, i as nat, acc) == Err::<(i32, int), DecodeError>(DecodeError::TruncatedInput),
    decreases 5 - i,
{
    let k = (7 * i) as u32;
    let w = v >> k;
    if i < s.len() {
        let b = s[i];
        assert(b == s.skip(i)[0]);
        if w < 0x80 {
            assert(varint_bytes(w).len() == 1);
        } else {
            lemma_inner_group(v, k, low_bits(v, k), b);
            lemma_inner_group_value(v, k, low_bits(v, k), b);
            assert(((7 * (i + 1)) as u32) == (k + 7) as u32);
            let tail = varint_bytes(w >> 7);
            assert(varint_bytes(w) == seq![b] + tail);
            assert(s.skip(i + 1) =~= s.skip(i).skip(1));
            assert(varint_bytes(w).take(s.len() - i).skip(1) =~= tail.take(s.len() - (i + 1)));
            lemma_parse_groups_cut(v, i + 1, s, acc | (((b & 0x7f) as u32) << k));
        }
    }
}

/// Every proper prefix of an encoding fails to decode as truncated input.
pub proof fn lemma_varint_cut(v: i32, j: int)
    requires
        0 <= j < varint_spec(v).len(),
    ensures
        parse_varint(varint_spec(v).take(j)) == Err::<(i32, int), DecodeError>(DecodeError::TruncatedInput),
{
    let u = v as u32;
    assert(u >> 0u32 == u) by (bit_vector);
    assert(varint_spec(v).take(j).skip(0) =~= varint_bytes(u).take(j));
    lemma_parse_groups_cut(u, 0, varint_spec(v).take(j), 0);
}

/// Zero is the single byte 0, and no value has a shorter encoding than one
/// byte.
pub proof fn lemma_varint_zero(v: i32)
    ensures
        varint_spec(0) == seq![0u8],
        varint_spec(v).len() >= 1,
{
}

impl VarInt {
    /// Appends the minimal encoding of the value.
    pub fn encode(&self, out: &mut Vec<u8>)
        ensures
            final(out)@ == old(out)@ + varint_spec(self.0),
    {
        let mut v: u32 = self.0 as u32;
        let ghost start = old(out)@;
        let ghost whole = varint_bytes(v);
        while v >= 0x80
            invariant
                out@ + varint_bytes(v) == start + whole,
            decreases v,
        {
            let b: u8 = ((v & 0x7f) | 0x80) as u8;
            proof {
                assert(out@ + varint_bytes(v) == out@.push(b) + varint_bytes(v >> 7));
                assert((v >> 7) < v) by (bit_vector)
                    requires
                        v >= 0x80,
                ;
            }
            out.push(b);
            v = v >> 7;
        }
        out.push(v as u8);
        proof {
            assert(varint_bytes(v) == seq![v as u8]);
        }
    }

    /// Reads a VarInt starting at `pos`; returns it with the position after it.
    pub fn decode(buf: &[u8], pos: usize) -> (r: Result<(VarInt, usize), DecodeError>)
        requires
            pos <= buf@.len(),
        ensures
            within(r, pos, buf@.len()),
            decoded(r, pos) == parse_varint(buf@.skip(pos as int)),
    {
        let ghost s = buf@.skip(pos as int);
        let mut i: usize = 0;
        let mut acc: u32 = 0;
        while i < 5
            invariant
                i <= 5,
                pos <= buf@.len(),
                s == buf@.skip(pos as int),
                parse_varint(s) == parse_varint_from(s, i as nat, acc),
            decreases 5 - i,
        {
            if i >= buf.len() - pos {
                return Err(DecodeError::TruncatedInput);
            }
            let b: u8 = buf[pos + i];
            assert(pos + i < buf@.len());
            assert(b == s[i as int]);
            acc = acc | (((b & 0x7f) as u32) << ((7 * i) as u32));
            i = i + 1;
            if b & 0x80 == 0 {
                return Ok((VarInt(acc as i32), pos + i));
            }
        }
        Err(DecodeError::MalformedVarInt)
    }
}

} // verus!
