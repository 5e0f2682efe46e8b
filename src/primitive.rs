use vstd::prelude::*;
use vstd::utf8::{decode_utf8, encode_utf8, valid_utf8};

use crate::error::{decoded, within, DecodeError};
use crate::varint::{lemma_varint_cut, lemma_varint_round_trip, parse_varint, varint_spec, VarInt};

verus! {

broadcast use vstd::utf8::group_utf8_lib;

/// Longest message string, in bytes, that a decoder accepts.
pub const MAX_STRING_BYTES: usize = 131068;

/// Longest serialized rich text, in bytes, that a decoder accepts.
pub const MAX_TEXT_BYTES: usize = 1048576;

/// Bytes in a chat signature.
pub const SIGNATURE_LEN: usize = 256;

/// A 128-bit identifier, sent as 16 bytes, most significant first.
#[derive(Clone, Copy, Debug, PartialEq, Eq, Structural)]
pub struct Uuid(pub u128);

impl View for Uuid {
    type V = u128;

    open spec fn view(&self) -> u128 {
        self.0
    }
}

/// A rich-text value, carried in its serialized form.
#[derive(Clone, Debug, PartialEq, Eq)]
pub struct Text(pub String);

impl View for Text {
    type V = Seq<char>;

    open spec fn view(&self) -> Seq<char> {
        self.0@
    }
}

/// Big-endian bytes of a 64-bit integer.
#[verifier::opaque]
pub open spec fn u64_spec(v: u64) -> Seq<u8> {
    seq![
        (v >> 56u64) as u8,
        (v >> 48u64) as u8,
        (v >> 40u64) as u8,
        (v >> 32u64) as u8,
        (v >> 24u64) as u8,
        (v >> 16u64) as u8,
        (v >> 8u64) as u8,
        v as u8,
    ]
}

/// The 64-bit integer whose big-endian bytes start `s`.
pub open spec fn u64_of(s: Seq<u8>) -> u64 {
    ((s[0] as u64) << 56u64) | ((s[1] as u64) << 48u64) | ((s[2] as u64) << 40u64) | ((s[3] as u64)
        << 32u64) | ((s[4] as u64) << 24u64) | ((s[5] as u64) << 16u64) | ((s[6] as u64) << 8u64)
        | (s[7] as u64)
}

/// A single byte.
pub open spec fn parse_u8(s: Seq<u8>) -> Result<(u8, int), DecodeError> {
    if s.len() < 1 {
        Err(DecodeError::TruncatedInput)
    } else {
        Ok((s[0], 1))
    }
}

/// A 64-bit integer, big-endian.
pub open spec fn parse_u64(s: Seq<u8>) -> Result<(u64, int), DecodeError> {
    if s.len() < 8 {
        Err(DecodeError::TruncatedInput)
    } else {
        Ok((u64_of(s), 8))
    }
}

/// A UUID is its high half then its low half.
pub open spec fn uuid_spec(v: u128) -> Seq<u8> {
    u64_spec((v >> 64u128) as u64) + u64_spec(v as u64)
}

/// A UUID: 16 bytes, most significant first.
pub open spec fn parse_uuid(s: Seq<u8>) -> Result<(u128, int), DecodeError> {
    if s.len() < 16 {
        Err(DecodeError::TruncatedInput)
    } else {
        Ok((((u64_of(s) as u128) << 64u128) | (u64_of(s.skip(8)) as u128), 16))
    }
}

/// Text: the UTF-8 byte count as a VarInt, then the UTF-8 bytes.
pub open spec fn string_spec(s: Seq<char>) -> Seq<u8> {
    varint_spec(encode_utf8(s).len() as i32) + encode_utf8(s)
}

/// Text whose length prefix is bounded by `max`.
pub open spec fn parse_string(s: Seq<u8>, max: nat) -> Result<(Seq<char>, int), DecodeError> {
    match parse_varint(s) {
        Err(e) => Err(e),
        Ok((n, k)) => if n < 0 || n > max {
            Err(DecodeError::TextTooLong)
        } else if k + n > s.len() {
            Err(DecodeError::TruncatedInput)
        } else if !valid_utf8(s.subrange(k, k + n)) {
            Err(DecodeError::InvalidUtf8)
        } else {
            Ok((decode_utf8(s.subrange(k, k + n)), k + n))
        },
    }
}

/// A signature: exactly 256 bytes.
pub open spec fn parse_signature(s: Seq<u8>) -> Result<(Seq<u8>, int), DecodeError> {
    if s.len() < 256 {
        Err(DecodeError::TruncatedInput)
    } else {
        Ok((s.subrange(0, 256), 256))
    }
}

/// The presence byte of an optional value.
pub open spec fn flag_spec(present: bool) -> Seq<u8> {
    if present {
        seq![1u8]
    } else {
        seq![0u8]
    }
}

/// A presence byte: only 0 and 1 are accepted.
pub open spec fn parse_flag(s: Seq<u8>) -> Result<(bool, int), DecodeError> {
    if s.len() < 1 {
        Err(DecodeError::TruncatedInput)
    } else if s[0] == 0 {
        Ok((false, 1))
    } else if s[0] == 1 {
        Ok((true, 1))
    } else {
        Err(DecodeError::InvalidOptionFlag)
    }
}

/// An optional signature: its presence byte, then the signature if present.
pub open spec fn opt_signature_spec(o: Option<Seq<u8>>) -> Seq<u8> {
    match o {
        None => flag_spec(false),
        Some(sig) => flag_spec(true) + sig,
    }
}

/// An optional signature, decided by its presence byte.
pub open spec fn parse_opt_signature(s: Seq<u8>) -> Result<(Option<Seq<u8>>, int), DecodeError> {
    match parse_flag(s) {
        Err(e) => Err(e),
        Ok((false, k)) => Ok((None, k)),
        Ok((true, k)) => match parse_signature(s.skip(k)) {
            Err(e) => Err(e),
            Ok((sig, n)) => Ok((Some(sig), k + n)),
        },
    }
}

/// An optional text: its presence byte, then the text if present.
pub open spec fn opt_string_spec(o: Option<Seq<char>>) -> Seq<u8> {
    match o {
        None => flag_spec(false),
        Some(t) => flag_spec(true) + string_spec(t),
    }
}

/// An optional text, decided by its presence byte.
pub open spec fn parse_opt_string(s: Seq<u8>, max: nat) -> Result<(Option<Seq<char>>, int), DecodeError> {
    match parse_flag(s) {
        Err(e) => Err(e),
        Ok((false, k)) => Ok((None, k)),
        Ok((true, k)) => match parse_string(s.skip(k), max) {
            Err(e) => Err(e),
            Ok((t, n)) => Ok((Some(t), k + n)),
        },
    }
}

/// Relies on `std::str::from_utf8`: it accepts exactly the UTF-8 byte
/// strings, and then returns a string slice over those same bytes.
#[verifier::external_body]
fn utf8_str(b: &[u8]) -> (r: Option<&str>)
    ensures
        r is Some <==> valid_utf8(b@),
        r matches Some(t) ==> encode_utf8(t@) == b@,
{
    std::str::from_utf8(b).ok()
}

/// Relies on `<&[u8; 256]>::try_from(&[u8])`: it succeeds exactly on slices of
/// 256 bytes and then borrows those same bytes.
#[verifier::external_body]
fn signature_ref(b: &[u8]) -> (r: Option<&[u8; 256]>)
    ensures
        r is Some <==> b@.len() == 256,
        r matches Some(a) ==> a@ == b@,
{
    <&[u8; 256]>::try_from(b).ok()
}

/// Appends every byte of `b`.
pub fn put_bytes(out: &mut Vec<u8>, b: &[u8])
    ensures
        final(out)@ == old(out)@ + b@,
{
    let mut i: usize = 0;
    while i < b.len()
        invariant
            i <= b@.len(),
            out@ == old(out)@ + b@.subrange(0, i as int),
        decreases b@.len() - i,
    {
        out.push(b[i]);
        i = i + 1;
        assert(b@.subrange(0, i as int) == b@.subrange(0, i - 1) + seq![b@[i - 1]]);
    }
    assert(b@.subrange(0, i as int) == b@);
}

/// Appends one byte.
pub fn encode_u8(v: u8, out: &mut Vec<u8>)
    ensures
        final(out)@ == old(out)@ + seq![v],
{
    out.push(v);
}

/// Reads one byte.
pub fn decode_u8(buf: &[u8], pos: usize) -> (r: Result<(u8, usize), DecodeError>)
    requires
        pos <= buf@.len(),
    ensures
        within(r, pos, buf@.len()),
        decoded(r, pos) == parse_u8(buf@.skip(pos as int)),
{
    if pos >= buf.len() {
        Err(DecodeError::TruncatedInput)
    } else {
        Ok((buf[pos], pos + 1))
    }
}

/// Appends a 64-bit integer, big-endian.
pub fn encode_u64(v: u64, out: &mut Vec<u8>)
    ensures
        final(out)@ == old(out)@ + u64_spec(v),
{
    out.push((v >> 56u64) as u8);
    out.push((v >> 48u64) as u8);
    out.push((v >> 40u64) as u8);
    out.push((v >> 32u64) as u8);
    out.push((v >> 24u64) as u8);
    out.push((v >> 16u64) as u8);
    out.push((v >> 8u64) as u8);
    out.push(v as u8);
    reveal(u64_spec);
    assert(final(out)@ == old(out)@ + u64_spec(v));
}

/// Reads a big-endian 64-bit integer.
pub fn decode_u64(buf: &[u8], pos: usize) -> (r: Result<(u64, usize), DecodeError>)
    requires
        pos <= buf@.len(),
    ensures
        within(r, pos, buf@.len()),
        decoded(r, pos) == parse_u64(buf@.skip(pos as int)),
{
    if buf.len() - pos < 8 {
        return Err(DecodeError::TruncatedInput);
    }
    let v: u64 = ((buf[pos] as u64) << 56u64) | ((buf[pos + 1] as u64) << 48u64) | ((buf[pos
        + 2] as u64) << 40u64) | ((buf[pos + 3] as u64) << 32u64) | ((buf[pos + 4] as u64)
        << 24u64) | ((buf[pos + 5] as u64) << 16u64) | ((buf[pos + 6] as u64) << 8u64) | (buf[pos
        + 7] as u64);
    assert(v == u64_of(buf@.skip(pos as int)));
    Ok((v, pos + 8))
}

impl Uuid {
    /// Appends the 16 bytes of the UUID.
    pub fn encode(&self, out: &mut Vec<u8>)
        ensures
            final(out)@ == old(out)@ + uuid_spec(self.0),
    {
        encode_u64((self.0 >> 64u128) as u64, out);
        encode_u64(self.0 as u64, out);
    }

    /// Reads a UUID starting at `pos`.
    pub fn decode(buf: &[u8], pos: usize) -> (r: Result<(Uuid, usize), DecodeError>)
        requires
            pos <= buf@.len(),
        ensures
            within(r, pos, buf@.len()),
            decoded(r, pos) == parse_uuid(buf@.skip(pos as int)),
    {
        if buf.len() - pos < 16 {
            return Err(DecodeError::TruncatedInput);
        }
        let (hi, p) = match decode_u64(buf, pos) {
            Ok(x) => x,
            Err(e) => return Err(e),
        };
        let (lo, p) = match decode_u64(buf, p) {
            Ok(x) => x,
            Err(e) => return Err(e),
        };
        assert(buf@.skip(pos as int).skip(8) == buf@.skip(pos + 8));
        Ok((Uuid(((hi as u128) << 64u128) | (lo as u128)), p))
    }
}

/// Appends a string as a length-prefixed UTF-8 byte string.
pub fn encode_string(s: &str, out: &mut Vec<u8>)
    requires
        encode_utf8(s@).len() <= i32::MAX,
    ensures
        final(out)@ == old(out)@ + string_spec(s@),
{
    let b = s.as_bytes();
    VarInt(b.len() as i32).encode(out);
    put_bytes(out, b);
    assert(final(out)@ == old(out)@ + string_spec(s@));
}

/// Reads a length-prefixed UTF-8 string of at most `max` bytes.
pub fn decode_string(buf: &[u8], pos: usize, max: usize) -> (r: Result<(String, usize), DecodeError>)
    requires
        pos <= buf@.len(),
    ensures
        within(r, pos, buf@.len()),
        decoded(r, pos) == parse_string(buf@.skip(pos as int), max as nat),
{
    let (n, p) = match VarInt::decode(buf, pos) {
        Ok(x) => x,
        Err(e) => return Err(e),
    };
    if n.0 < 0 || n.0 as usize > max {
        return Err(DecodeError::TextTooLong);
    }
    let len: usize = n.0 as usize;
    if len > buf.len() - p {
        return Err(DecodeError::TruncatedInput);
    }
    let bytes = &buf[p..p + len];
    let ghost s = buf@.skip(pos as int);
    let ghost k = p - pos;
    assert(bytes@ == s.subrange(k, k + len));
    match utf8_str(bytes) {
        None => Err(DecodeError::InvalidUtf8),
        Some(t) => {
            let owned = t.to_owned();
            proof {
                vstd::utf8::encode_utf8_decode_utf8(t@);
            }
            Ok((owned, p + len))
        },
    }
}

/// Appends the 256 bytes of a signature.
pub fn encode_signature(sig: &[u8; 256], out: &mut Vec<u8>)
    ensures
        final(out)@ == old(out)@ + sig@,
{
    put_bytes(out, sig.as_slice());
}

/// Borrows 256 signature bytes from the input, without copying them.
pub fn decode_signature<'a>(buf: &'a [u8], pos: usize) -> (r: Result<(&'a [u8; 256], usize), DecodeError>)
    requires
        pos <= buf@.len(),
    ensures
        within(r, pos, buf@.len()),
        decoded(r, pos) == parse_signature(buf@.skip(pos as int)),
{
    if buf.len() - pos < SIGNATURE_LEN {
        return Err(DecodeError::TruncatedInput);
    }
    let bytes = &buf[pos..pos + SIGNATURE_LEN];
    match signature_ref(bytes) {
        None => Err(DecodeError::TruncatedInput),
        Some(a) => {
            assert(a@ == buf@.skip(pos as int).subrange(0, 256));
            Ok((a, pos + SIGNATURE_LEN))
        },
    }
}

/// Appends a presence byte.
pub fn encode_flag(present: bool, out: &mut Vec<u8>)
    ensures
        final(out)@ == old(out)@ + flag_spec(present),
{
    if present {
        out.push(1u8);
    } else {
        out.push(0u8);
    }
}

/// Reads a presence byte, refusing any value but 0 and 1.
pub fn decode_flag(buf: &[u8], pos: usize) -> (r: Result<(bool, usize), DecodeError>)
    requires
        pos <= buf@.len(),
    ensures
        within(r, pos, buf@.len()),
        decoded(r, pos) == parse_flag(buf@.skip(pos as int)),
{
    if pos >= buf.len() {
        Err(DecodeError::TruncatedInput)
    } else if buf[pos] == 0 {
        Ok((false, pos + 1))
    } else if buf[pos] == 1 {
        Ok((true, pos + 1))
    } else {
        Err(DecodeError::InvalidOptionFlag)
    }
}

/// Appends an optional signature: its presence byte, then its bytes.
pub fn encode_opt_signature(o: Option<&[u8; 256]>, out: &mut Vec<u8>)
    ensures
        final(out)@ == old(out)@ + opt_signature_spec(opt_sig_view(o)),
{
    match o {
        None => encode_flag(false, out),
        Some(sig) => {
            encode_flag(true, out);
            encode_signature(sig, out);
            assert(final(out)@ == old(out)@ + opt_signature_spec(opt_sig_view(o)));
        },
    }
}

/// Reads an optional signature, borrowing its bytes from `buf`.
pub fn decode_opt_signature<'a>(buf: &'a [u8], pos: usize) -> (r: Result<(Option<&'a [u8; 256]>, usize), DecodeError>)
    requires
        pos <= buf@.len(),
    ensures
        within(r, pos, buf@.len()),
        opt_decoded(r, pos) == parse_opt_signature(buf@.skip(pos as int)),
{
    let (present, p) = match decode_flag(buf, pos) {
        Ok(x) => x,
        Err(e) => return Err(e),
    };
    if !present {
        return Ok((None, p));
    }
    assert(buf@.skip(pos as int).skip(1) == buf@.skip(p as int));
    match decode_signature(buf, p) {
        Ok((sig, q)) => Ok((Some(sig), q)),
        Err(e) => Err(e),
    }
}

/// Appends an optional text: its presence byte, then the text.
pub fn encode_opt_text(o: &Option<Text>, out: &mut Vec<u8>)
    requires
        o matches Some(t) ==> encode_utf8(t@).len() <= i32::MAX,
    ensures
        final(out)@ == old(out)@ + opt_string_spec(opt_text_view(o)),
{
    match o {
        None => encode_flag(false, out),
        Some(t) => {
            encode_flag(true, out);
            encode_string(t.0.as_str(), out);
            assert(final(out)@ == old(out)@ + opt_string_spec(opt_text_view(o)));
        },
    }
}

/// Reads an optional rich text value.
pub fn decode_opt_text(buf: &[u8], pos: usize) -> (r: Result<(Option<Text>, usize), DecodeError>)
    requires
        pos <= buf@.len(),
    ensures
        within(r, pos, buf@.len()),
        opt_text_decoded(r, pos) == parse_opt_string(buf@.skip(pos as int), MAX_TEXT_BYTES as nat),
{
    let (present, p) = match decode_flag(buf, pos) {
        Ok(x) => x,
        Err(e) => return Err(e),
    };
    if !present {
        return Ok((None, p));
    }
    assert(buf@.skip(pos as int).skip(1) == buf@.skip(p as int));
    match decode_string(buf, p, MAX_TEXT_BYTES) {
        Ok((t, q)) => Ok((Some(Text(t)), q)),
        Err(e) => Err(e),
    }
}

/// Appends a rich text value.
pub fn encode_text(t: &Text, out: &mut Vec<u8>)
    requires
        encode_utf8(t@).len() <= i32::MAX,
    ensures
        final(out)@ == old(out)@ + string_spec(t@),
{
    encode_string(t.0.as_str(), out);
}

/// Reads a rich text value of at most `MAX_TEXT_BYTES` bytes.
pub fn decode_text(buf: &[u8], pos: usize) -> (r: Result<(Text, usize), DecodeError>)
    requires
        pos <= buf@.len(),
    ensures
        within(r, pos, buf@.len()),
        decoded(r, pos) == parse_string(buf@.skip(pos as int), MAX_TEXT_BYTES as nat),
{
    match decode_string(buf, pos, MAX_TEXT_BYTES) {
        Ok((t, q)) => Ok((Text(t), q)),
        Err(e) => Err(e),
    }
}

/// The bytes of an optional signature.
pub open spec fn opt_sig_view(o: Option<&[u8; 256]>) -> Option<Seq<u8>> {
    match o {
        None => None,
        Some(a) => Some(a@),
    }
}

/// The characters of an optional text.
pub open spec fn opt_text_view(o: &Option<Text>) -> Option<Seq<char>> {
    match o {
        None => None,
        Some(t) => Some(t@),
    }
}

/// `decoded` for an optional signature.
pub open spec fn opt_decoded(r: Result<(Option<&[u8; 256]>, usize), DecodeError>, pos: usize) -> Result<
    (Option<Seq<u8>>, int),
    DecodeError,
> {
    match r {
        Ok((v, p)) => Ok((opt_sig_view(v), p - pos)),
        Err(e) => Err(e),
    }
}

/// `decoded` for an optional text.
pub open spec fn opt_text_decoded(r: Result<(Option<Text>, usize), DecodeError>, pos: usize) -> Result<
    (Option<Seq<char>>, int),
    DecodeError,
> {
    match r {
        Ok((v, p)) => Ok((opt_text_view(&v), p - pos)),
        Err(e) => Err(e),
    }
}

/// A 64-bit integer decodes back from its bytes.
pub proof fn lemma_u64_round_trip(v: u64, rest: Seq<u8>)
    ensures
        parse_u64(u64_spec(v) + rest) == Ok::<(u64, int), DecodeError>((v, 8)),
        u64_spec(v).len() == 8,
{
    reveal(u64_spec);
    let s = u64_spec(v) + rest;
    let (b0, b1, b2, b3, b4, b5, b6, b7) = (s[0], s[1], s[2], s[3], s[4], s[5], s[6], s[7]);
    assert(((b0 as u64) << 56u64) | ((b1 as u64) << 48u64) | ((b2 as u64) << 40u64) | ((b3 as u64)
        << 32u64) | ((b4 as u64) << 24u64) | ((b5 as u64) << 16u64) | ((b6 as u64) << 8u64) | (b7 as u64)
        == v) by (bit_vector)
        requires
            b0 == (v >> 56u64) as u8,
            b1 == (v >> 48u64) as u8,
            b2 == (v >> 40u64) as u8,
            b3 == (v >> 32u64) as u8,
            b4 == (v >> 24u64) as u8,
            b5 == (v >> 16u64) as u8,
            b6 == (v >> 8u64) as u8,
            b7 == v as u8,
    ;
}

/// A UUID decodes back from its bytes.
pub proof fn lemma_uuid_round_trip(v: u128, rest: Seq<u8>)
    ensures
        parse_uuid(uuid_spec(v) + rest) == Ok::<(u128, int), DecodeError>((v, 16)),
        uuid_spec(v).len() == 16,
{
    let hi = (v >> 64u128) as u64;
    let lo = v as u64;
    let s = uuid_spec(v) + rest;
    lemma_u64_round_trip(hi, u64_spec(lo) + rest);
    lemma_u64_round_trip(lo, rest);
    assert(s =~= u64_spec(hi) + (u64_spec(lo) + rest));
    assert(s.skip(8) =~= u64_spec(lo) + rest);
    assert((((hi as u128) << 64u128) | (lo as u128)) == v) by (bit_vector)
        requires
            hi == (v >> 64u128) as u64,
            lo == v as u64,
    ;
}

/// A text within the bound decodes back from its encoding.
pub proof fn lemma_string_round_trip(t: Seq<char>, max: nat, rest: Seq<u8>)
    requires
        encode_utf8(t).len() <= max,
        encode_utf8(t).len() <= i32::MAX,
    ensures
        parse_string(string_spec(t) + rest, max) == Ok::<(Seq<char>, int), DecodeError>(
            (t, string_spec(t).len() as int),
        ),
{
    let b = encode_utf8(t);
    let n = b.len() as i32;
    let s = string_spec(t) + rest;
    assert(s == varint_spec(n) + (b + rest));
    lemma_varint_round_trip(n, b + rest);
    let k = varint_spec(n).len() as int;
    assert(s.subrange(k, k + b.len()) == b);
}

/// An optional signature decodes back from its encoding.
pub proof fn lemma_opt_signature_round_trip(o: Option<Seq<u8>>, rest: Seq<u8>)
    requires
        o matches Some(sig) ==> sig.len() == 256,
    ensures
        parse_opt_signature(opt_signature_spec(o) + rest) == Ok::<(Option<Seq<u8>>, int), DecodeError>(
            (o, opt_signature_spec(o).len() as int),
        ),
{
    let s = opt_signature_spec(o) + rest;
    if let Some(sig) = o {
        assert(s.skip(1) == sig + rest);
        assert((sig + rest).subrange(0, 256) == sig);
    }
}

/// An optional text within the bound decodes back from its encoding.
pub proof fn lemma_opt_string_round_trip(o: Option<Seq<char>>, max: nat, rest: Seq<u8>)
    requires
        o matches Some(t) ==> encode_utf8(t).len() <= max && encode_utf8(t).len() <= i32::MAX,
    ensures
        parse_opt_string(opt_string_spec(o) + rest, max) == Ok::<(Option<Seq<char>>, int), DecodeError>(
            (o, opt_string_spec(o).len() as int),
        ),
{
    let s = opt_string_spec(o) + rest;
    if let Some(t) = o {
        assert(s.skip(1) == string_spec(t) + rest);
        lemma_string_round_trip(t, max, rest);
    }
}

/// A proper prefix of a 64-bit integer is truncated input.
pub proof fn lemma_u64_cut(v: u64, j: int)
    requires
        0 <= j < u64_spec(v).len(),
    ensures
        parse_u64(u64_spec(v).take(j)) == Err::<(u64, int), DecodeError>(DecodeError::TruncatedInput),
{
    lemma_u64_round_trip(v, Seq::empty());
}

/// A proper prefix of a UUID is truncated input.
pub proof fn lemma_uuid_cut(v: u128, j: int)
    requires
        0 <= j < uuid_spec(v).len(),
    ensures
        parse_uuid(uuid_spec(v).take(j)) == Err::<(u128, int), DecodeError>(DecodeError::TruncatedInput),
{
    lemma_uuid_round_trip(v, Seq::empty());
}

/// A proper prefix of a text that the decoder accepts is truncated input.
pub proof fn lemma_string_cut(t: Seq<char>, max: nat, j: int)
    requires
        encode_utf8(t).len() <= max,
        encode_utf8(t).len() <= i32::MAX,
        0 <= j < string_spec(t).len(),
    ensures
        parse_string(string_spec(t).take(j), max) == Err::<(Seq<char>, int), DecodeError>(
            DecodeError::TruncatedInput,
        ),
{
    let b = encode_utf8(t);
    let n = b.len() as i32;
    let kv = varint_spec(n).len() as int;
    let c = string_spec(t).take(j);
    if j < kv {
        assert(c =~= varint_spec(n).take(j));
        lemma_varint_cut(n, j);
    } else {
        assert(c =~= varint_spec(n) + b.take(j - kv));
        lemma_varint_round_trip(n, b.take(j - kv));
    }
}

/// A proper prefix of a signature is truncated input.
pub proof fn lemma_signature_cut(sig: Seq<u8>, j: int)
    requires
        sig.len() == 256,
        0 <= j < 256,
    ensures
        parse_signature(sig.take(j)) == Err::<(Seq<u8>, int), DecodeError>(DecodeError::TruncatedInput),
{
}

/// A proper prefix of an optional signature is truncated input.
pub proof fn lemma_opt_signature_cut(o: Option<Seq<u8>>, j: int)
    requires
        o matches Some(sig) ==> sig.len() == 256,
        0 <= j < opt_signature_spec(o).len(),
    ensures
        parse_opt_signature(opt_signature_spec(o).take(j)) == Err::<(Option<Seq<u8>>, int), DecodeError>(
            DecodeError::TruncatedInput,
        ),
{
    let c = opt_signature_spec(o).take(j);
    if j > 0 {
        if let Some(sig) = o {
            assert(c.skip(1) =~= sig.take(j - 1));
        }
    }
}

/// A proper prefix of an optional text that the decoder accepts is truncated
/// input.
pub proof fn lemma_opt_string_cut(o: Option<Seq<char>>, max: nat, j: int)
    requires
        o matches Some(t) ==> encode_utf8(t).len() <= max && encode_utf8(t).len() <= i32::MAX,
        0 <= j < opt_string_spec(o).len(),
    ensures
        parse_opt_string(opt_string_spec(o).take(j), max) == Err::<(Option<Seq<char>>, int), DecodeError>(
            DecodeError::TruncatedInput,
        ),
{
    let c = opt_string_spec(o).take(j);
    if j > 0 {
        if let Some(t) = o {
            assert(c.skip(1) =~= string_spec(t).take(j - 1));
            lemma_string_cut(t, max, j - 1);
        }
    }
}

/// An absent optional value is the single byte 0, whatever it would hold.
pub proof fn lemma_absent_is_one_byte()
    ensures
        opt_string_spec(None) == seq![0u8],
        opt_signature_spec(None) == seq![0u8],
{
}

} // verus!
