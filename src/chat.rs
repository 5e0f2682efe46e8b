use vstd::prelude::*;
use vstd::utf8::encode_utf8;

use crate::error::{decoded, within, DecodeError};
use crate::primitive::{
    decode_opt_signature, decode_opt_text, decode_signature, decode_string, decode_text,
    decode_u64, decode_u8, encode_opt_signature, encode_opt_text, encode_signature, encode_string,
    encode_text, encode_u64, encode_u8, lemma_opt_signature_cut, lemma_opt_signature_round_trip,
    lemma_opt_string_cut, lemma_opt_string_round_trip, lemma_signature_cut, lemma_string_cut,
    lemma_string_round_trip, lemma_u64_cut, lemma_u64_round_trip, lemma_uuid_cut,
    lemma_uuid_round_trip, opt_sig_view, opt_signature_spec, opt_string_spec, opt_text_view,
    parse_opt_signature, parse_opt_string, parse_signature, parse_string, parse_u64, parse_u8,
    parse_uuid, string_spec, u64_spec, uuid_spec, Text, Uuid, MAX_STRING_BYTES, MAX_TEXT_BYTES,
};
use crate::varint::{lemma_varint_cut, lemma_varint_round_trip, parse_varint, varint_spec, VarInt};

verus! {

/// Opcode of `PlayerChatMessage` on the wire.
pub const PLAYER_CHAT_MESSAGE_ID: i32 = 0x31;

/// How the receiver should filter a chat message.
#[derive(Clone, Copy, Debug, PartialEq, Eq, Structural)]
pub enum MessageFilterType {
    PassThrough,
    FullyFiltered,
    PartiallyFiltered,
}

/// A link into recent chat history: a back-reference index into the
/// receiver's ring of recent messages, or, with index -1, an inline signature.
#[derive(Clone, Debug, PartialEq)]
pub struct PreviousMessage<'a> {
    pub message_id: i32,
    pub signature: Option<&'a [u8; 256]>,
}

/// What a previous message holds, with its signature as bytes.
pub struct PreviousMessageView {
    pub message_id: i32,
    pub signature: Option<Seq<u8>>,
}

impl<'a> View for PreviousMessage<'a> {
    type V = PreviousMessageView;

    open spec fn view(&self) -> PreviousMessageView {
        PreviousMessageView { message_id: self.message_id, signature: opt_sig_view(self.signature) }
    }
}

/// A chat message sent by a player, as the server relays it.
#[derive(Clone, Debug, PartialEq)]
pub struct PlayerChatMessage<'a> {
    pub sender: Uuid,
    pub index: VarInt,
    pub message_signature: Option<&'a [u8; 256]>,
    pub message: String,
    pub time_stamp: u64,
    pub salt: u64,
    pub previous_messages: Vec<PreviousMessage<'a>>,
    pub unsigned_content: Option<Text>,
    pub filter_type: MessageFilterType,
    pub filter_type_bits: Option<u8>,
    pub chat_type: VarInt,
    pub network_name: Text,
    pub network_target_name: Option<Text>,
}

/// What a chat message holds, as plain values.
pub struct PlayerChatMessageView {
    pub sender: u128,
    pub index: i32,
    pub message_signature: Option<Seq<u8>>,
    pub message: Seq<char>,
    pub time_stamp: u64,
    pub salt: u64,
    pub previous_messages: Seq<PreviousMessageView>,
    pub unsigned_content: Option<Seq<char>>,
    pub filter_type: MessageFilterType,
    pub filter_type_bits: Option<u8>,
    pub chat_type: i32,
    pub network_name: Seq<char>,
    pub network_target_name: Option<Seq<char>>,
}

/// The views of a list of previous messages.
pub open spec fn prevs_view<'a>(v: Seq<PreviousMessage<'a>>) -> Seq<PreviousMessageView> {
    v.map_values(|p: PreviousMessage<'a>| p@)
}

impl<'a> View for PlayerChatMessage<'a> {
    type V = PlayerChatMessageView;

    open spec fn view(&self) -> PlayerChatMessageView {
        PlayerChatMessageView {
            sender: self.sender@,
            index: self.index@,
            message_signature: opt_sig_view(self.message_signature),
            message: self.message@,
            time_stamp: self.time_stamp,
            salt: self.salt,
            previous_messages: prevs_view(self.previous_messages@),
            unsigned_content: opt_text_view(&self.unsigned_content),
            filter_type: self.filter_type,
            filter_type_bits: self.filter_type_bits,
            chat_type: self.chat_type@,
            network_name: self.network_name@,
            network_target_name: opt_text_view(&self.network_target_name),
        }
    }
}

// ----- Wire model -----

/// A previous message: its index shifted up by one, so that 0 announces an
/// inline signature, then that signature if there is one.
pub open spec fn prev_spec(p: PreviousMessageView) -> Seq<u8> {
    varint_spec(p.message_id.wrapping_add(1)) + if p.message_id == -1 {
        match p.signature {
            None => Seq::empty(),
            Some(sig) => sig,
        }
    } else {
        Seq::empty()
    }
}

/// Can be written: index -1 announces an inline signature, so it needs one.
pub open spec fn prev_encodable(p: PreviousMessageView) -> bool {
    p.message_id == -1 ==> p.signature is Some
}

/// Reads a previous message: a shifted index, and a signature after the
/// wire value 0.
pub open spec fn parse_prev(s: Seq<u8>) -> Result<(PreviousMessageView, int), DecodeError> {
    match parse_varint(s) {
        Err(e) => Err(e),
        Ok((n, k)) => if n == 0 {
            match parse_signature(s.skip(k)) {
                Err(e) => Err(e),
                Ok((sig, m)) => Ok((PreviousMessageView { message_id: -1i32, signature: Some(sig) }, k + m)),
            }
        } else {
            Ok((PreviousMessageView { message_id: n.wrapping_sub(1), signature: None }, k))
        },
    }
}

/// The elements of a sequence, one after another.
pub open spec fn prevs_body(ps: Seq<PreviousMessageView>) -> Seq<u8>
    decreases ps.len(),
{
    if ps.len() == 0 {
        Seq::empty()
    } else {
        prev_spec(ps[0]) + prevs_body(ps.skip(1))
    }
}

/// A sequence: its count as a VarInt, then its elements.
pub open spec fn prevs_spec(ps: Seq<PreviousMessageView>) -> Seq<u8> {
    varint_spec(ps.len() as i32) + prevs_body(ps)
}

/// Reads `n` previous messages one after another.
pub open spec fn parse_prev_items(s: Seq<u8>, n: nat) -> Result<(Seq<PreviousMessageView>, int), DecodeError>
    decreases n,
{
    if n == 0 {
        Ok((Seq::empty(), 0))
    } else {
        match parse_prev(s) {
            Err(e) => Err(e),
            Ok((p, k)) => if 0 <= k <= s.len() {
                match parse_prev_items(s.skip(k), (n - 1) as nat) {
                    Err(e) => Err(e),
                    Ok((ps, m)) => Ok((seq![p] + ps, k + m)),
                }
            } else {
                Err(DecodeError::TruncatedInput)
            },
        }
    }
}

/// A counted sequence of previous messages. A count that is negative, or
/// larger than the bytes left (each element takes at least one), is refused.
pub open spec fn parse_prevs(s: Seq<u8>) -> Result<(Seq<PreviousMessageView>, int), DecodeError> {
    match parse_varint(s) {
        Err(e) => Err(e),
        Ok((n, k)) => if n < 0 || n > s.len() - k {
            Err(DecodeError::SequenceTooLong)
        } else {
            match parse_prev_items(s.skip(k), n as nat) {
                Err(e) => Err(e),
                Ok((ps, m)) => Ok((ps, k + m)),
            }
        },
    }
}

/// The tag of each filter type.
pub open spec fn filter_tag(f: MessageFilterType) -> i32 {
    match f {
        MessageFilterType::PassThrough => 0,
        MessageFilterType::FullyFiltered => 1,
        MessageFilterType::PartiallyFiltered => 2,
    }
}

/// A filter type, as its tag in a VarInt.
pub open spec fn filter_spec(f: MessageFilterType) -> Seq<u8> {
    varint_spec(filter_tag(f))
}

/// A filter type; tags other than 0, 1 and 2 are refused.
pub open spec fn parse_filter(s: Seq<u8>) -> Result<(MessageFilterType, int), DecodeError> {
    match parse_varint(s) {
        Err(e) => Err(e),
        Ok((n, k)) => if n == 0 {
            Ok((MessageFilterType::PassThrough, k))
        } else if n == 1 {
            Ok((MessageFilterType::FullyFiltered, k))
        } else if n == 2 {
            Ok((MessageFilterType::PartiallyFiltered, k))
        } else {
            Err(DecodeError::InvalidEnumTag)
        },
    }
}

/// The bitmask byte: there only for a partially filtered message, and 0 when
/// such a message carries no bitmask.
pub open spec fn bits_spec(f: MessageFilterType, bits: Option<u8>) -> Seq<u8> {
    if f == MessageFilterType::PartiallyFiltered {
        match bits {
            None => seq![0u8],
            Some(b) => seq![b],
        }
    } else {
        Seq::empty()
    }
}

/// The bitmask byte, read only for a partially filtered message.
pub open spec fn parse_bits(s: Seq<u8>, f: MessageFilterType) -> Result<(Option<u8>, int), DecodeError> {
    if f == MessageFilterType::PartiallyFiltered {
        match parse_u8(s) {
            Err(e) => Err(e),
            Ok((b, k)) => Ok((Some(b), k)),
        }
    } else {
        Ok((None, 0))
    }
}

/// The fields of a chat message in their fixed order, with no separators.
pub open spec fn chat_spec(m: PlayerChatMessageView) -> Seq<u8> {
    chat_head_spec(m) + chat_tail_spec(m)
}

/// The fields from the sender to the salt.
pub open spec fn chat_head_spec(m: PlayerChatMessageView) -> Seq<u8> {
    uuid_spec(m.sender) + varint_spec(m.index) + opt_signature_spec(m.message_signature)
        + string_spec(m.message) + u64_spec(m.time_stamp) + u64_spec(m.salt)
}

/// The fields from the previous messages to the network target name.
pub open spec fn chat_tail_spec(m: PlayerChatMessageView) -> Seq<u8> {
    prevs_spec(m.previous_messages) + opt_string_spec(m.unsigned_content) + filter_spec(
        m.filter_type,
    ) + bits_spec(m.filter_type, m.filter_type_bits) + varint_spec(m.chat_type) + string_spec(
        m.network_name,
    ) + opt_string_spec(m.network_target_name)
}

/// Reads the fields of a chat message in order. A field whose decoder fails
/// ends the message with that error.
pub open spec fn parse_chat(s: Seq<u8>) -> Result<(PlayerChatMessageView, int), DecodeError> {
    match parse_uuid(s) {
        Err(e) => Err(e),
        Ok((sender, k1)) => match parse_varint(s.skip(k1)) {
            Err(e) => Err(e),
            Ok((index, k2)) => match parse_opt_signature(s.skip(k1 + k2)) {
                Err(e) => Err(e),
                Ok((message_signature, k3)) => match parse_string(
                    s.skip(k1 + k2 + k3),
                    MAX_STRING_BYTES as nat,
                ) {
                    Err(e) => Err(e),
                    Ok((message, k4)) => match parse_u64(s.skip(k1 + k2 + k3 + k4)) {
                        Err(e) => Err(e),
                        Ok((time_stamp, k5)) => match parse_u64(s.skip(k1 + k2 + k3 + k4 + k5)) {
                            Err(e) => Err(e),
                            Ok((salt, k6)) => parse_chat_tail(
                                s,
                                k1 + k2 + k3 + k4 + k5 + k6,
                                sender,
                                index,
                                message_signature,
                                message,
                                time_stamp,
                                salt,
                            ),
                        },
                    },
                },
            },
        },
    }
}

/// The fields from the previous messages on, read from offset `p`.
#[verifier::opaque]
pub open spec fn parse_chat_tail(
    s: Seq<u8>,
    p: int,
    sender: u128,
    index: i32,
    message_signature: Option<Seq<u8>>,
    message: Seq<char>,
    time_stamp: u64,
    salt: u64,
) -> Result<(PlayerChatMessageView, int), DecodeError> {
    match parse_prevs(s.skip(p)) {
        Err(e) => Err(e),
        Ok((previous_messages, k7)) => match parse_opt_string(s.skip(p + k7), MAX_TEXT_BYTES as nat) {
            Err(e) => Err(e),
            Ok((unsigned_content, k8)) => match parse_filter(s.skip(p + k7 + k8)) {
                Err(e) => Err(e),
                Ok((filter_type, k9)) => match parse_bits(s.skip(p + k7 + k8 + k9), filter_type) {
                    Err(e) => Err(e),
                    Ok((filter_type_bits, k10)) => match parse_varint(
                        s.skip(p + k7 + k8 + k9 + k10),
                    ) {
                        Err(e) => Err(e),
                        Ok((chat_type, k11)) => match parse_string(
                            s.skip(p + k7 + k8 + k9 + k10 + k11),
                            MAX_TEXT_BYTES as nat,
                        ) {
                            Err(e) => Err(e),
                            Ok((network_name, k12)) => match parse_opt_string(
                                s.skip(p + k7 + k8 + k9 + k10 + k11 + k12),
                                MAX_TEXT_BYTES as nat,
                            ) {
                                Err(e) => Err(e),
                                Ok((network_target_name, k13)) => Ok(
                                    (
                                        PlayerChatMessageView {
                                            sender,
                                            index,
                                            message_signature,
                                            message,
                                            time_stamp,
                                            salt,
                                            previous_messages,
                                            unsigned_content,
                                            filter_type,
                                            filter_type_bits,
                                            chat_type,
                                            network_name,
                                            network_target_name,
                                        },
                                        p + k7 + k8 + k9 + k10 + k11 + k12 + k13,
                                    ),
                                ),
                            },
                        },
                    },
                },
            },
        },
    }
}

/// `decoded` for a list of previous messages.
pub open spec fn prevs_decoded<'a>(r: Result<(Vec<PreviousMessage<'a>>, usize), DecodeError>, pos: usize) -> Result<
    (Seq<PreviousMessageView>, int),
    DecodeError,
> {
    match r {
        Ok((v, p)) => Ok((prevs_view(v@), p - pos)),
        Err(e) => Err(e),
    }
}

/// `r` with `pre` put before its elements and `c` added to its length.
pub open spec fn after_prefix(
    pre: Seq<PreviousMessageView>,
    c: int,
    r: Result<(Seq<PreviousMessageView>, int), DecodeError>,
) -> Result<(Seq<PreviousMessageView>, int), DecodeError> {
    match r {
        Ok((ps, m)) => Ok((pre + ps, c + m)),
        Err(e) => Err(e),
    }
}

proof fn lemma_body_push(ps: Seq<PreviousMessageView>, x: PreviousMessageView)
    ensures
        prevs_body(ps.push(x)) == prevs_body(ps) + prev_spec(x),
    decreases ps.len(),
{
    if ps.len() == 0 {
        assert(ps.push(x).skip(1) =~= Seq::<PreviousMessageView>::empty());
        assert(ps.push(x)[0] == x);
        assert(prevs_body(Seq::<PreviousMessageView>::empty()) == Seq::<u8>::empty());
        assert(prevs_body(ps.push(x)) =~= prev_spec(x));
    } else {
        assert(ps.push(x).skip(1) =~= ps.skip(1).push(x));
        lemma_body_push(ps.skip(1), x);
        assert(prevs_body(ps.push(x)) =~= prevs_body(ps) + prev_spec(x));
    }
}

/// Appends a counted sequence of previous messages.
pub fn encode_previous_messages(ps: &Vec<PreviousMessage>, out: &mut Vec<u8>)
    requires
        ps@.len() <= i32::MAX,
        forall|i: int| 0 <= i < ps@.len() ==> prev_encodable(#[trigger] ps@[i]@),
    ensures
        final(out)@ == old(out)@ + prevs_spec(prevs_view(ps@)),
{
    VarInt(ps.len() as i32).encode(out);
    let ghost head = out@;
    let mut i: usize = 0;
    while i < ps.len()
        invariant
            i <= ps@.len(),
            out@ == head + prevs_body(prevs_view(ps@).take(i as int)),
            forall|j: int| 0 <= j < ps@.len() ==> prev_encodable(#[trigger] ps@[j]@),
            head == old(out)@ + varint_spec(ps@.len() as i32),
        decreases ps@.len() - i,
    {
        ps[i].encode(out);
        proof {
            let v = prevs_view(ps@);
            assert(v.take(i + 1) =~= v.take(i as int).push(ps@[i as int]@));
            lemma_body_push(v.take(i as int), ps@[i as int]@);
        }
        i = i + 1;
    }
    assert(prevs_view(ps@).take(i as int) =~= prevs_view(ps@));
}

/// Reads a counted sequence of previous messages, refusing a count that is
/// negative or larger than the bytes left before reading any element.
pub fn decode_previous_messages<'a>(buf: &'a [u8], pos: usize) -> (r: Result<(Vec<PreviousMessage<'a>>, usize), DecodeError>)
    requires
        pos <= buf@.len(),
    ensures
        within(r, pos, buf@.len()),
        prevs_decoded(r, pos) == parse_prevs(buf@.skip(pos as int)),
{
    let first = VarInt::decode(buf, pos);
    let (n, end0) = match first {
        Ok(x) => x,
        Err(e) => return Err(e),
    };
    assert(parse_varint(buf@.skip(pos as int)) == Ok::<(i32, int), DecodeError>((n.0, end0 - pos)));
    if n.0 < 0 || n.0 as usize > buf.len() - end0 {
        return Err(DecodeError::SequenceTooLong);
    }
    let count: usize = n.0 as usize;
    let ghost nv: i32 = n.0;
    let ghost s = buf@.skip(pos as int);
    assert(s.skip(end0 - pos) == buf@.skip(end0 as int));
    let mut items: Vec<PreviousMessage<'a>> = Vec::new();
    let mut q: usize = end0;
    let mut i: usize = 0;
    while i < count
        invariant
            i <= count,
            end0 <= q <= buf@.len(),
            pos <= end0,
            s == buf@.skip(pos as int),
            s.skip(end0 - pos) == buf@.skip(end0 as int),
            parse_varint(s) == Ok::<(i32, int), DecodeError>((nv, end0 - pos)),
            count == nv,
            0 <= count <= s.len() - (end0 - pos),
            parse_prev_items(buf@.skip(end0 as int), count as nat) == after_prefix(
                prevs_view(items@),
                q - end0,
                parse_prev_items(buf@.skip(q as int), (count - i) as nat),
            ),
        decreases count - i,
    {
        let ghost before = items@;
        let (x, q2) = match PreviousMessage::decode(buf, q) {
            Ok(y) => y,
            Err(e) => {
                assert(parse_prev_items(buf@.skip(q as int), (count - i) as nat) == Err::<
                    (Seq<PreviousMessageView>, int),
                    DecodeError,
                >(e));
                return Err(e);
            },
        };
        proof {
            assert(buf@.skip(q as int).skip(q2 - q) == buf@.skip(q2 as int));
        }
        items.push(x);
        proof {
            assert(prevs_view(items@) =~= prevs_view(before) + seq![x@]);
            let rest = parse_prev_items(buf@.skip(q2 as int), (count - i - 1) as nat);
            match rest {
                Ok((ps, m)) => {
                    assert(prevs_view(before) + (seq![x@] + ps) =~= prevs_view(items@) + ps);
                },
                Err(_) => {},
            }
        }
        q = q2;
        i = i + 1;
    }
    assert(prevs_view(items@) + Seq::<PreviousMessageView>::empty() =~= prevs_view(items@));
    Ok((items, q))
}

impl<'a> PreviousMessage<'a> {
    /// Appends the shifted index and, for index -1 only, the inline
    /// signature. The shift wraps, so every index has an encoding.
    pub fn encode(&self, out: &mut Vec<u8>)
        requires
            prev_encodable(self@),
        ensures
            final(out)@ == old(out)@ + prev_spec(self@),
    {
        VarInt(self.message_id.wrapping_add(1)).encode(out);
        if self.message_id == -1 {
            match self.signature {
                None => {},
                Some(sig) => encode_signature(sig, out),
            }
        }
        assert(final(out)@ == old(out)@ + prev_spec(self@));
    }

    /// Reads a previous message; the wire value 0 is followed by a signature.
    pub fn decode(buf: &'a [u8], pos: usize) -> (r: Result<(PreviousMessage<'a>, usize), DecodeError>)
        requires
            pos <= buf@.len(),
        ensures
            within(r, pos, buf@.len()),
            decoded(r, pos) == parse_prev(buf@.skip(pos as int)),
    {
        let (n, p) = match VarInt::decode(buf, pos) {
            Ok(x) => x,
            Err(e) => return Err(e),
        };
        if n.0 == 0 {
            assert(buf@.skip(pos as int).skip(p - pos) == buf@.skip(p as int));
            match decode_signature(buf, p) {
                Ok((sig, q)) => Ok((PreviousMessage { message_id: -1, signature: Some(sig) }, q)),
                Err(e) => Err(e),
            }
        } else {
            Ok((PreviousMessage { message_id: n.0.wrapping_sub(1), signature: None }, p))
        }
    }
}

impl MessageFilterType {
    /// Appends the tag of the filter type.
    pub fn encode(&self, out: &mut Vec<u8>)
        ensures
            final(out)@ == old(out)@ + filter_spec(*self),
    {
        let tag: i32 = match self {
            MessageFilterType::PassThrough => 0,
            MessageFilterType::FullyFiltered => 1,
            MessageFilterType::PartiallyFiltered => 2,
        };
        VarInt(tag).encode(out);
    }

    /// Reads a filter type tag.
    pub fn decode(buf: &[u8], pos: usize) -> (r: Result<(MessageFilterType, usize), DecodeError>)
        requires
            pos <= buf@.len(),
        ensures
            within(r, pos, buf@.len()),
            decoded(r, pos) == parse_filter(buf@.skip(pos as int)),
    {
        let (n, p) = match VarInt::decode(buf, pos) {
            Ok(x) => x,
            Err(e) => return Err(e),
        };
        if n.0 == 0 {
            Ok((MessageFilterType::PassThrough, p))
        } else if n.0 == 1 {
            Ok((MessageFilterType::FullyFiltered, p))
        } else if n.0 == 2 {
            Ok((MessageFilterType::PartiallyFiltered, p))
        } else {
            Err(DecodeError::InvalidEnumTag)
        }
    }
}

/// Within what the wire can count: every byte length and the number of
/// previous messages fit a VarInt.
pub open spec fn chat_encodable(m: PlayerChatMessageView) -> bool {
    &&& encode_utf8(m.message).len() <= i32::MAX
    &&& m.previous_messages.len() <= i32::MAX
    &&& (forall|i: int| 0 <= i < m.previous_messages.len() ==> prev_encodable(#[trigger] m.previous_messages[i]))
    &&& (m.unsigned_content matches Some(t) ==> encode_utf8(t).len() <= i32::MAX)
    &&& encode_utf8(m.network_name).len() <= i32::MAX
    &&& (m.network_target_name matches Some(t) ==> encode_utf8(t).len() <= i32::MAX)
}

proof fn lemma_skip_skip(b: Seq<u8>, pos: int, p: int)
    requires
        0 <= pos <= p <= b.len(),
    ensures
        b.skip(pos).skip(p - pos) == b.skip(p),
{
    assert(b.skip(pos).skip(p - pos) =~= b.skip(p));
}


/// Valid as a previous message: an inline signature is there exactly when
/// the index is -1, and it is 256 bytes long.
pub open spec fn prev_wf(p: PreviousMessageView) -> bool {
    &&& (p.signature is Some <==> p.message_id == -1)
    &&& (p.signature matches Some(sig) ==> sig.len() == 256)
}

/// A chat message that the codec carries: every length fits what the decoder
/// accepts, signatures are 256 bytes, previous messages are valid, and a
/// bitmask is given only to a partially filtered message.
pub open spec fn chat_wf(m: PlayerChatMessageView) -> bool {
    &&& m.previous_messages.len() <= i32::MAX
    &&& encode_utf8(m.message).len() <= MAX_STRING_BYTES
    &&& (m.unsigned_content matches Some(t) ==> encode_utf8(t).len() <= MAX_TEXT_BYTES)
    &&& encode_utf8(m.network_name).len() <= MAX_TEXT_BYTES
    &&& (m.network_target_name matches Some(t) ==> encode_utf8(t).len() <= MAX_TEXT_BYTES)
    &&& (m.message_signature matches Some(sig) ==> sig.len() == 256)
    &&& (forall|i: int| 0 <= i < m.previous_messages.len() ==> prev_wf(#[trigger] m.previous_messages[i]))
    &&& (m.filter_type != MessageFilterType::PartiallyFiltered ==> m.filter_type_bits is None)
}

/// The part of `chat_wf` that concerns the fields from the sender to the
/// salt.
pub open spec fn chat_head_wf(m: PlayerChatMessageView) -> bool {
    &&& encode_utf8(m.message).len() <= MAX_STRING_BYTES
    &&& (m.message_signature matches Some(sig) ==> sig.len() == 256)
}

/// What decoding an encoded message gives: the message itself, except that a
/// partially filtered message without a bitmask comes back with bitmask 0.
pub open spec fn chat_decoded_form(m: PlayerChatMessageView) -> PlayerChatMessageView {
    if m.filter_type == MessageFilterType::PartiallyFiltered && m.filter_type_bits is None {
        PlayerChatMessageView { filter_type_bits: Some(0u8), ..m }
    } else {
        m
    }
}

/// A previous message decodes back from its encoding.
pub proof fn lemma_prev_round_trip(p: PreviousMessageView, rest: Seq<u8>)
    requires
        prev_wf(p),
    ensures
        parse_prev(prev_spec(p) + rest) == Ok::<(PreviousMessageView, int), DecodeError>(
            (p, prev_spec(p).len() as int),
        ),
{
    let n = p.message_id.wrapping_add(1);
    let tail = match p.signature {
        None => Seq::<u8>::empty(),
        Some(sig) => sig,
    };
    assert(prev_spec(p) + rest =~= varint_spec(n) + (tail + rest));
    lemma_varint_round_trip(n, tail + rest);
    let k = varint_spec(n).len() as int;
    assert((prev_spec(p) + rest).skip(k) =~= tail + rest);
    if p.message_id == -1 {
        assert(n == 0);
        assert((tail + rest).subrange(0, 256) =~= tail);
    } else {
        assert(n != 0);
        assert(n.wrapping_sub(1) == p.message_id);
        assert(tail + rest =~= rest);
    }
}

proof fn lemma_body_len(ps: Seq<PreviousMessageView>)
    ensures
        prevs_body(ps).len() >= ps.len(),
    decreases ps.len(),
{
    if ps.len() > 0 {
        lemma_body_len(ps.skip(1));
    }
}

proof fn lemma_prev_items_round_trip(ps: Seq<PreviousMessageView>, rest: Seq<u8>)
    requires
        forall|i: int| 0 <= i < ps.len() ==> prev_wf(#[trigger] ps[i]),
    ensures
        parse_prev_items(prevs_body(ps) + rest, ps.len()) == Ok::<(Seq<PreviousMessageView>, int), DecodeError>(
            (ps, prevs_body(ps).len() as int),
        ),
    decreases ps.len(),
{
    if ps.len() == 0 {
        assert(parse_prev_items(prevs_body(ps) + rest, 0) == Ok::<(Seq<PreviousMessageView>, int), DecodeError>(
            (Seq::empty(), 0)));
        assert(ps =~= Seq::<PreviousMessageView>::empty());
    } else {
        let t = ps.skip(1);
        assert(prev_wf(ps[0]));
        assert forall|i: int| 0 <= i < t.len() implies prev_wf(#[trigger] t[i]) by {
            assert(t[i] == ps[i + 1]);
        }
        assert(prevs_body(ps) + rest =~= prev_spec(ps[0]) + (prevs_body(t) + rest));
        lemma_prev_round_trip(ps[0], prevs_body(t) + rest);
        assert((prevs_body(ps) + rest).skip(prev_spec(ps[0]).len() as int) =~= prevs_body(t) + rest);
        lemma_prev_items_round_trip(t, rest);
        assert(seq![ps[0]] + t =~= ps);
    }
}

/// A counted sequence of valid previous messages decodes back from its
/// encoding.
pub proof fn lemma_prevs_round_trip(ps: Seq<PreviousMessageView>, rest: Seq<u8>)
    requires
        ps.len() <= i32::MAX,
        forall|i: int| 0 <= i < ps.len() ==> prev_wf(#[trigger] ps[i]),
    ensures
        parse_prevs(prevs_spec(ps) + rest) == Ok::<(Seq<PreviousMessageView>, int), DecodeError>(
            (ps, prevs_spec(ps).len() as int),
        ),
{
    let n = ps.len() as i32;
    let s = prevs_spec(ps) + rest;
    assert(s =~= varint_spec(n) + (prevs_body(ps) + rest));
    lemma_varint_round_trip(n, prevs_body(ps) + rest);
    lemma_body_len(ps);
    assert(s.skip(varint_spec(n).len() as int) =~= prevs_body(ps) + rest);
    lemma_prev_items_round_trip(ps, rest);
}

/// A filter type decodes back from its tag.
pub proof fn lemma_filter_round_trip(f: MessageFilterType, rest: Seq<u8>)
    ensures
        parse_filter(filter_spec(f) + rest) == Ok::<(MessageFilterType, int), DecodeError>(
            (f, filter_spec(f).len() as int),
        ),
{
    lemma_varint_round_trip(filter_tag(f), rest);
}

/// The bitmask byte decodes back, with 0 for a partially filtered message
/// that had none.
pub proof fn lemma_bits_round_trip(f: MessageFilterType, bits: Option<u8>, rest: Seq<u8>)
    ensures
        parse_bits(bits_spec(f, bits) + rest, f) == Ok::<(Option<u8>, int), DecodeError>(
            (if f == MessageFilterType::PartiallyFiltered {
                Some(
                    match bits {
                        None => 0u8,
                        Some(b) => b,
                    },
                )
            } else {
                None
            }, bits_spec(f, bits).len() as int),
        ),
{
}

proof fn lemma_add_assoc(x: Seq<u8>, y: Seq<u8>, z: Seq<u8>)
    ensures
        (x + y) + z == x + (y + z),
{
    assert((x + y) + z =~= x + (y + z));
}

proof fn lemma_skip_concat(x: Seq<u8>, y: Seq<u8>, s: Seq<u8>, off: int)
    requires
        0 <= off <= s.len(),
        s.skip(off) == x + y,
    ensures
        s.skip(off + x.len()) == y,
{
    assert(s.skip(off + x.len()) =~= (x + y).skip(x.len() as int));
}

/// The head fields, regrouped so that each field is followed by the rest.
proof fn lemma_head_fields(m: PlayerChatMessageView, x: Seq<u8>)
    ensures
        chat_head_spec(m) + x == uuid_spec(m.sender) + (varint_spec(m.index) + (opt_signature_spec(m.message_signature)
            + (string_spec(m.message) + (u64_spec(m.time_stamp)
            + (u64_spec(m.salt) + x))))),
{
    let a0 = uuid_spec(m.sender);
    let a1 = varint_spec(m.index);
    let a2 = opt_signature_spec(m.message_signature);
    let a3 = string_spec(m.message);
    let a4 = u64_spec(m.time_stamp);
    let a5 = u64_spec(m.salt);
    let f6 = x;
    let f5 = a5 + f6;
    let f4 = a4 + f5;
    let f3 = a3 + f4;
    let f2 = a2 + f3;
    let f1 = a1 + f2;
    let f0 = a0 + f1;
    lemma_add_assoc(a0 + a1 + a2 + a3 + a4, a5, f6);
    lemma_add_assoc(a0 + a1 + a2 + a3, a4, f5);
    lemma_add_assoc(a0 + a1 + a2, a3, f4);
    lemma_add_assoc(a0 + a1, a2, f3);
    lemma_add_assoc(a0, a1, f2);
}

/// The tail fields, regrouped so that each field is followed by the rest.
proof fn lemma_tail_fields(m: PlayerChatMessageView, x: Seq<u8>)
    ensures
        chat_tail_spec(m) + x == prevs_spec(m.previous_messages) + (opt_string_spec(m.unsigned_content) + (filter_spec(m.filter_type)
            + (bits_spec(m.filter_type, m.filter_type_bits) + (varint_spec(m.chat_type)
            + (string_spec(m.network_name) + (opt_string_spec(m.network_target_name)
            + x)))))),
{
    let a0 = prevs_spec(m.previous_messages);
    let a1 = opt_string_spec(m.unsigned_content);
    let a2 = filter_spec(m.filter_type);
    let a3 = bits_spec(m.filter_type, m.filter_type_bits);
    let a4 = varint_spec(m.chat_type);
    let a5 = string_spec(m.network_name);
    let a6 = opt_string_spec(m.network_target_name);
    let f7 = x;
    let f6 = a6 + f7;
    let f5 = a5 + f6;
    let f4 = a4 + f5;
    let f3 = a3 + f4;
    let f2 = a2 + f3;
    let f1 = a1 + f2;
    let f0 = a0 + f1;
    lemma_add_assoc(a0 + a1 + a2 + a3 + a4 + a5, a6, f7);
    lemma_add_assoc(a0 + a1 + a2 + a3 + a4, a5, f6);
    lemma_add_assoc(a0 + a1 + a2 + a3, a4, f5);
    lemma_add_assoc(a0 + a1 + a2, a3, f4);
    lemma_add_assoc(a0 + a1, a2, f3);
    lemma_add_assoc(a0, a1, f2);
}

#[verifier::spinoff_prover]
#[verifier::rlimit(80)]
proof fn lemma_chat_head_round_trip(m: PlayerChatMessageView, x: Seq<u8>)
    requires
        chat_head_wf(m),
    ensures
        parse_chat(chat_head_spec(m) + x) == parse_chat_tail(
            chat_head_spec(m) + x,
            chat_head_spec(m).len() as int,
            m.sender,
            m.index,
            m.message_signature,
            m.message,
            m.time_stamp,
            m.salt,
        ),
{
    let s = chat_head_spec(m) + x;
    lemma_head_fields(m, x);
    let a0 = uuid_spec(m.sender);
    let a1 = varint_spec(m.index);
    let a2 = opt_signature_spec(m.message_signature);
    let a3 = string_spec(m.message);
    let a4 = u64_spec(m.time_stamp);
    let a5 = u64_spec(m.salt);
    let f6 = x;
    let f5 = a5 + f6;
    let f4 = a4 + f5;
    let f3 = a3 + f4;
    let f2 = a2 + f3;
    let f1 = a1 + f2;
    let f0 = a0 + f1;
    assert(s.skip(0) =~= s);
    lemma_skip_concat(a0, f1, s, 0int);
    lemma_uuid_round_trip(m.sender, f1);
    lemma_skip_concat(a1, f2, s, 0int + a0.len());
    lemma_varint_round_trip(m.index, f2);
    lemma_skip_concat(a2, f3, s, 0int + a0.len() + a1.len());
    lemma_opt_signature_round_trip(m.message_signature, f3);
    lemma_skip_concat(a3, f4, s, 0int + a0.len() + a1.len() + a2.len());
    lemma_string_round_trip(m.message, MAX_STRING_BYTES as nat, f4);
    lemma_skip_concat(a4, f5, s, 0int + a0.len() + a1.len() + a2.len() + a3.len());
    lemma_u64_round_trip(m.time_stamp, f5);
    lemma_skip_concat(a5, f6, s, 0int + a0.len() + a1.len() + a2.len() + a3.len() + a4.len());
    lemma_u64_round_trip(m.salt, f6);
}

#[verifier::spinoff_prover]
#[verifier::rlimit(80)]
proof fn lemma_chat_tail_round_trip(m: PlayerChatMessageView, s: Seq<u8>, p: int, rest: Seq<u8>)
    requires
        chat_wf(m),
        0 <= p <= s.len(),
        s.skip(p) == chat_tail_spec(m) + rest,
    ensures
        parse_chat_tail(s, p, m.sender, m.index, m.message_signature, m.message, m.time_stamp, m.salt)
            == Ok::<(PlayerChatMessageView, int), DecodeError>(
            (chat_decoded_form(m), p + chat_tail_spec(m).len()),
        ),
{
    reveal(parse_chat_tail);
    lemma_tail_fields(m, rest);
    let a0 = prevs_spec(m.previous_messages);
    let a1 = opt_string_spec(m.unsigned_content);
    let a2 = filter_spec(m.filter_type);
    let a3 = bits_spec(m.filter_type, m.filter_type_bits);
    let a4 = varint_spec(m.chat_type);
    let a5 = string_spec(m.network_name);
    let a6 = opt_string_spec(m.network_target_name);
    let f7 = rest;
    let f6 = a6 + f7;
    let f5 = a5 + f6;
    let f4 = a4 + f5;
    let f3 = a3 + f4;
    let f2 = a2 + f3;
    let f1 = a1 + f2;
    let f0 = a0 + f1;
    lemma_skip_concat(a0, f1, s, p);
    lemma_prevs_round_trip(m.previous_messages, f1);
    lemma_skip_concat(a1, f2, s, p + a0.len());
    lemma_opt_string_round_trip(m.unsigned_content, MAX_TEXT_BYTES as nat, f2);
    lemma_skip_concat(a2, f3, s, p + a0.len() + a1.len());
    lemma_filter_round_trip(m.filter_type, f3);
    lemma_skip_concat(a3, f4, s, p + a0.len() + a1.len() + a2.len());
    lemma_bits_round_trip(m.filter_type, m.filter_type_bits, f4);
    lemma_skip_concat(a4, f5, s, p + a0.len() + a1.len() + a2.len() + a3.len());
    lemma_varint_round_trip(m.chat_type, f5);
    lemma_skip_concat(a5, f6, s, p + a0.len() + a1.len() + a2.len() + a3.len() + a4.len());
    lemma_string_round_trip(m.network_name, MAX_TEXT_BYTES as nat, f6);
    lemma_skip_concat(a6, f7, s, p + a0.len() + a1.len() + a2.len() + a3.len() + a4.len() + a5.len());
    lemma_opt_string_round_trip(m.network_target_name, MAX_TEXT_BYTES as nat, f7);
}

/// Decoding the encoding of a valid message gives the message back and
/// consumes exactly its encoding; the one difference is that a partially
/// filtered message encoded without a bitmask decodes with bitmask 0.
pub proof fn lemma_chat_round_trip(m: PlayerChatMessageView, rest: Seq<u8>)
    requires
        chat_wf(m),
    ensures
        parse_chat(chat_spec(m) + rest) == Ok::<(PlayerChatMessageView, int), DecodeError>(
            (chat_decoded_form(m), chat_spec(m).len() as int),
        ),
{
    let s = chat_spec(m) + rest;
    lemma_add_assoc(chat_head_spec(m), chat_tail_spec(m), rest);
    lemma_chat_head_round_trip(m, chat_tail_spec(m) + rest);
    assert(s.skip(0) =~= s);
    lemma_skip_concat(chat_head_spec(m), chat_tail_spec(m) + rest, s, 0);
    lemma_chat_tail_round_trip(m, s, chat_head_spec(m).len() as int, rest);
}

/// `(a + f).take(q)` keeps part of `a`, or all of `a` and part of `f`.
proof fn lemma_take_concat(a: Seq<u8>, f: Seq<u8>, q: int)
    requires
        0 <= q <= a.len() + f.len(),
    ensures
        q < a.len() ==> (a + f).take(q) == a.take(q),
        q >= a.len() ==> (a + f).take(q) == a + f.take(q - a.len()),
{
    if q < a.len() {
        assert((a + f).take(q) =~= a.take(q));
    } else {
        assert((a + f).take(q) =~= a + f.take(q - a.len()));
    }
}

proof fn lemma_prev_cut(p: PreviousMessageView, j: int)
    requires
        prev_wf(p),
        0 <= j < prev_spec(p).len(),
    ensures
        parse_prev(prev_spec(p).take(j)) == Err::<(PreviousMessageView, int), DecodeError>(
            DecodeError::TruncatedInput,
        ),
{
    let n = p.message_id.wrapping_add(1);
    let tail = match p.signature {
        None => Seq::<u8>::empty(),
        Some(sig) => sig,
    };
    lemma_take_concat(varint_spec(n), tail, j);
    let kv = varint_spec(n).len() as int;
    if j < kv {
        lemma_varint_cut(n, j);
    } else {
        lemma_varint_round_trip(n, tail.take(j - kv));
        assert((varint_spec(n) + tail.take(j - kv)).skip(kv) =~= tail.take(j - kv));
        if p.message_id == -1 {
            assert(n == 0);
            lemma_signature_cut(tail, j - kv);
        } else {
            assert(n != 0);
        }
    }
}

proof fn lemma_prev_items_cut(ps: Seq<PreviousMessageView>, j: int)
    requires
        forall|i: int| 0 <= i < ps.len() ==> prev_wf(#[trigger] ps[i]),
        0 <= j < prevs_body(ps).len(),
    ensures
        parse_prev_items(prevs_body(ps).take(j), ps.len()) == Err::<(Seq<PreviousMessageView>, int), DecodeError>(
            DecodeError::TruncatedInput,
        ),
    decreases ps.len(),
{
    let t = ps.skip(1);
    assert(prev_wf(ps[0]));
    assert forall|i: int| 0 <= i < t.len() implies prev_wf(#[trigger] t[i]) by {
        assert(t[i] == ps[i + 1]);
    }
    let e = prev_spec(ps[0]);
    lemma_take_concat(e, prevs_body(t), j);
    if j < e.len() {
        lemma_prev_cut(ps[0], j);
    } else {
        lemma_prev_round_trip(ps[0], prevs_body(t).take(j - e.len()));
        assert((e + prevs_body(t).take(j - e.len())).skip(e.len() as int) =~= prevs_body(t).take(
            j - e.len(),
        ));
        lemma_prev_items_cut(t, j - e.len());
    }
}

/// Where a cut of a counted sequence leaves fewer bytes after the count than
/// the count itself: the decoder then reports the count, not the cut.
pub open spec fn in_count_window(n: nat, j: int) -> bool {
    let kv = varint_spec(n as i32).len() as int;
    kv <= j < kv + n
}

proof fn lemma_prevs_cut(ps: Seq<PreviousMessageView>, j: int)
    requires
        ps.len() <= i32::MAX,
        forall|i: int| 0 <= i < ps.len() ==> prev_wf(#[trigger] ps[i]),
        0 <= j < prevs_spec(ps).len(),
        !in_count_window(ps.len(), j),
    ensures
        parse_prevs(prevs_spec(ps).take(j)) == Err::<(Seq<PreviousMessageView>, int), DecodeError>(
            DecodeError::TruncatedInput,
        ),
{
    let n = ps.len() as i32;
    let kv = varint_spec(n).len() as int;
    lemma_take_concat(varint_spec(n), prevs_body(ps), j);
    if j < kv {
        lemma_varint_cut(n, j);
    } else {
        lemma_varint_round_trip(n, prevs_body(ps).take(j - kv));
        assert((varint_spec(n) + prevs_body(ps).take(j - kv)).skip(kv) =~= prevs_body(ps).take(j - kv));
        lemma_prev_items_cut(ps, j - kv);
    }
}

proof fn lemma_filter_cut(f: MessageFilterType, j: int)
    requires
        0 <= j < filter_spec(f).len(),
    ensures
        parse_filter(filter_spec(f).take(j)) == Err::<(MessageFilterType, int), DecodeError>(
            DecodeError::TruncatedInput,
        ),
{
    lemma_varint_cut(filter_tag(f), j);
}

proof fn lemma_bits_cut(f: MessageFilterType, bits: Option<u8>, j: int)
    requires
        0 <= j < bits_spec(f, bits).len(),
    ensures
        parse_bits(bits_spec(f, bits).take(j), f) == Err::<(Option<u8>, int), DecodeError>(
            DecodeError::TruncatedInput,
        ),
{
}

#[verifier::spinoff_prover]
#[verifier::rlimit(80)]
proof fn lemma_chat_head_cut(m: PlayerChatMessageView, k: int)
    requires
        chat_head_wf(m),
        0 <= k < chat_head_spec(m).len(),
    ensures
        parse_chat(chat_head_spec(m).take(k)) == Err::<(PlayerChatMessageView, int), DecodeError>(
            DecodeError::TruncatedInput,
        ),
{
    let e = Seq::<u8>::empty();
    let c = chat_head_spec(m).take(k);
    assert(chat_head_spec(m) + e =~= chat_head_spec(m));
    lemma_head_fields(m, e);
    let a0 = uuid_spec(m.sender);
    let a1 = varint_spec(m.index);
    let a2 = opt_signature_spec(m.message_signature);
    let a3 = string_spec(m.message);
    let a4 = u64_spec(m.time_stamp);
    let a5 = u64_spec(m.salt);
    let f6 = e;
    let f5 = a5 + f6;
    let f4 = a4 + f5;
    let f3 = a3 + f4;
    let f2 = a2 + f3;
    let f1 = a1 + f2;
    let f0 = a0 + f1;
    assert(c.skip(0) =~= c);
    let r0: int = 0;
    lemma_take_concat(a0, f1, k - r0);
    if k - r0 < a0.len() {
        lemma_uuid_cut(m.sender, k - r0);
    } else {
        let g = f1.take(k - r0 - a0.len());
        lemma_uuid_round_trip(m.sender, g);
        lemma_skip_concat(a0, g, c, 0int + r0);
        let r1: int = r0 + a0.len();
        lemma_take_concat(a1, f2, k - r1);
        if k - r1 < a1.len() {
            lemma_varint_cut(m.index, k - r1);
        } else {
            let g = f2.take(k - r1 - a1.len());
            lemma_varint_round_trip(m.index, g);
            lemma_skip_concat(a1, g, c, 0int + r1);
            let r2: int = r1 + a1.len();
            lemma_take_concat(a2, f3, k - r2);
            if k - r2 < a2.len() {
                lemma_opt_signature_cut(m.message_signature, k - r2);
            } else {
                let g = f3.take(k - r2 - a2.len());
                lemma_opt_signature_round_trip(m.message_signature, g);
                lemma_skip_concat(a2, g, c, 0int + r2);
                let r3: int = r2 + a2.len();
                lemma_take_concat(a3, f4, k - r3);
                if k - r3 < a3.len() {
                    lemma_string_cut(m.message, MAX_STRING_BYTES as nat, k - r3);
                } else {
                    let g = f4.take(k - r3 - a3.len());
                    lemma_string_round_trip(m.message, MAX_STRING_BYTES as nat, g);
                    lemma_skip_concat(a3, g, c, 0int + r3);
                    let r4: int = r3 + a3.len();
                    lemma_take_concat(a4, f5, k - r4);
                    if k - r4 < a4.len() {
                        lemma_u64_cut(m.time_stamp, k - r4);
                    } else {
                        let g = f5.take(k - r4 - a4.len());
                        lemma_u64_round_trip(m.time_stamp, g);
                        lemma_skip_concat(a4, g, c, 0int + r4);
                        let r5: int = r4 + a4.len();
                        lemma_take_concat(a5, f6, k - r5);
                        lemma_u64_cut(m.salt, k - r5);
                    }
                }
            }
        }
    }
}

#[verifier::spinoff_prover]
#[verifier::rlimit(80)]
proof fn lemma_chat_tail_cut(m: PlayerChatMessageView, s: Seq<u8>, p: int, q: int)
    requires
        chat_wf(m),
        0 <= p <= s.len(),
        0 <= q < chat_tail_spec(m).len(),
        s.skip(p) == chat_tail_spec(m).take(q),
        !in_count_window(m.previous_messages.len(), q),
    ensures
        parse_chat_tail(s, p, m.sender, m.index, m.message_signature, m.message, m.time_stamp, m.salt)
            == Err::<(PlayerChatMessageView, int), DecodeError>(DecodeError::TruncatedInput),
{
    reveal(parse_chat_tail);
    let e = Seq::<u8>::empty();
    assert(chat_tail_spec(m) + e =~= chat_tail_spec(m));
    lemma_tail_fields(m, e);
    let a0 = prevs_spec(m.previous_messages);
    let a1 = opt_string_spec(m.unsigned_content);
    let a2 = filter_spec(m.filter_type);
    let a3 = bits_spec(m.filter_type, m.filter_type_bits);
    let a4 = varint_spec(m.chat_type);
    let a5 = string_spec(m.network_name);
    let a6 = opt_string_spec(m.network_target_name);
    let f7 = e;
    let f6 = a6 + f7;
    let f5 = a5 + f6;
    let f4 = a4 + f5;
    let f3 = a3 + f4;
    let f2 = a2 + f3;
    let f1 = a1 + f2;
    let f0 = a0 + f1;
    let r0: int = 0;
    lemma_take_concat(a0, f1, q - r0);
    if q - r0 < a0.len() {
        lemma_prevs_cut(m.previous_messages, q - r0);
    } else {
        let g = f1.take(q - r0 - a0.len());
        lemma_prevs_round_trip(m.previous_messages, g);
        lemma_skip_concat(a0, g, s, p + r0);
        let r1: int = r0 + a0.len();
        lemma_take_concat(a1, f2, q - r1);
        if q - r1 < a1.len() {
            lemma_opt_string_cut(m.unsigned_content, MAX_TEXT_BYTES as nat, q - r1);
        } else {
            let g = f2.take(q - r1 - a1.len());
            lemma_opt_string_round_trip(m.unsigned_content, MAX_TEXT_BYTES as nat, g);
            lemma_skip_concat(a1, g, s, p + r1);
            let r2: int = r1 + a1.len();
            lemma_take_concat(a2, f3, q - r2);
            if q - r2 < a2.len() {
                lemma_filter_cut(m.filter_type, q - r2);
            } else {
                let g = f3.take(q - r2 - a2.len());
                lemma_filter_round_trip(m.filter_type, g);
                lemma_skip_concat(a2, g, s, p + r2);
                let r3: int = r2 + a2.len();
                lemma_take_concat(a3, f4, q - r3);
                if q - r3 < a3.len() {
                    lemma_bits_cut(m.filter_type, m.filter_type_bits, q - r3);
                } else {
                    let g = f4.take(q - r3 - a3.len());
                    lemma_bits_round_trip(m.filter_type, m.filter_type_bits, g);
                    lemma_skip_concat(a3, g, s, p + r3);
                    let r4: int = r3 + a3.len();
                    lemma_take_concat(a4, f5, q - r4);
                    if q - r4 < a4.len() {
                        lemma_varint_cut(m.chat_type, q - r4);
                    } else {
                        let g = f5.take(q - r4 - a4.len());
                        lemma_varint_round_trip(m.chat_type, g);
                        lemma_skip_concat(a4, g, s, p + r4);
                        let r5: int = r4 + a4.len();
                        lemma_take_concat(a5, f6, q - r5);
                        if q - r5 < a5.len() {
                            lemma_string_cut(m.network_name, MAX_TEXT_BYTES as nat, q - r5);
                        } else {
                            let g = f6.take(q - r5 - a5.len());
                            lemma_string_round_trip(m.network_name, MAX_TEXT_BYTES as nat, g);
                            lemma_skip_concat(a5, g, s, p + r5);
                            let r6: int = r5 + a5.len();
                            lemma_take_concat(a6, f7, q - r6);
                            lemma_opt_string_cut(m.network_target_name, MAX_TEXT_BYTES as nat, q - r6);
                        }
                    }
                }
            }
        }
    }
}

/// Every proper prefix of the encoding of a valid message fails to decode as
/// truncated input. The one exception is a cut inside the list of previous
/// messages that leaves fewer bytes after its count than the count itself:
/// the decoder refuses such a count before reading the elements.
pub proof fn lemma_chat_cut(m: PlayerChatMessageView, k: int)
    requires
        chat_wf(m),
        0 <= k < chat_spec(m).len(),
        !in_count_window(m.previous_messages.len(), k - chat_head_spec(m).len()),
    ensures
        parse_chat(chat_spec(m).take(k)) == Err::<(PlayerChatMessageView, int), DecodeError>(
            DecodeError::TruncatedInput,
        ),
{
    let h = chat_head_spec(m);
    let t = chat_tail_spec(m);
    lemma_take_concat(h, t, k);
    if k < h.len() {
        lemma_chat_head_cut(m, k);
    } else {
        let x = t.take(k - h.len());
        let c = chat_spec(m).take(k);
        lemma_chat_head_round_trip(m, x);
        assert(c.skip(0) =~= c);
        lemma_skip_concat(h, x, c, 0);
        lemma_chat_tail_cut(m, c, h.len() as int, k - h.len());
    }
}

/// Only a partially filtered message carries a bitmask byte: for any other
/// filter type nothing is written, and the decoder reads nothing and gives no
/// bitmask, so the next field starts where the filter tag ended.
pub proof fn lemma_filter_gating(f: MessageFilterType, bits: Option<u8>, s: Seq<u8>)
    requires
        f != MessageFilterType::PartiallyFiltered,
    ensures
        bits_spec(f, bits) == Seq::<u8>::empty(),
        parse_bits(s, f) == Ok::<(Option<u8>, int), DecodeError>((None, 0)),
{
}

/// An empty sequence of previous messages is the single byte 0, and decoding
/// that byte gives an empty sequence and consumes nothing more.
pub proof fn lemma_empty_sequence(rest: Seq<u8>)
    ensures
        prevs_spec(Seq::empty()) == seq![0u8],
        parse_prevs(seq![0u8] + rest) == Ok::<(Seq<PreviousMessageView>, int), DecodeError>(
            (Seq::empty(), 1),
        ),
{
    crate::varint::lemma_varint_zero(0);
    assert(prevs_spec(Seq::empty()) =~= seq![0u8]);
    lemma_prevs_round_trip(Seq::empty(), rest);
}

impl<'a> PlayerChatMessage<'a> {
    /// Appends the message's fields in wire order. A partially filtered
    /// message without a bitmask gets the filler byte 0.
    pub fn encode(&self, out: &mut Vec<u8>)
        requires
            chat_encodable(self@),
        ensures
            final(out)@ == old(out)@ + chat_spec(self@),
    {
        self.encode_head(out);
        self.encode_tail(out);
        assert(final(out)@ =~= old(out)@ + chat_spec(self@));
    }

    /// Appends the fields from the sender to the salt.
    fn encode_head(&self, out: &mut Vec<u8>)
        requires
            chat_encodable(self@),
        ensures
            final(out)@ == old(out)@ + chat_head_spec(self@),
    {
        self.sender.encode(out);
        self.index.encode(out);
        encode_opt_signature(self.message_signature, out);
        encode_string(self.message.as_str(), out);
        encode_u64(self.time_stamp, out);
        encode_u64(self.salt, out);
        assert(final(out)@ =~= old(out)@ + chat_head_spec(self@));
    }

    /// Appends the fields from the previous messages to the end.
    fn encode_tail(&self, out: &mut Vec<u8>)
        requires
            chat_encodable(self@),
        ensures
            final(out)@ == old(out)@ + chat_tail_spec(self@),
    {
        proof {
            let v = self.previous_messages@;
            assert(prevs_view(v).len() == v.len());
            assert forall|i: int| 0 <= i < v.len() implies prev_encodable(#[trigger] v[i]@) by {
                assert(prevs_view(v)[i] == v[i]@);
            }
        }
        encode_previous_messages(&self.previous_messages, out);
        encode_opt_text(&self.unsigned_content, out);
        self.filter_type.encode(out);
        if self.filter_type == MessageFilterType::PartiallyFiltered {
            match self.filter_type_bits {
                None => encode_u8(0u8, out),
                Some(bits) => encode_u8(bits, out),
            }
        }
        self.chat_type.encode(out);
        encode_text(&self.network_name, out);
        encode_opt_text(&self.network_target_name, out);
        assert(final(out)@ =~= old(out)@ + chat_tail_spec(self@));
    }

    /// Appends the packet: its opcode as a VarInt, then the message.
    pub fn encode_packet(&self, out: &mut Vec<u8>)
        requires
            chat_encodable(self@),
        ensures
            final(out)@ == old(out)@ + varint_spec(PLAYER_CHAT_MESSAGE_ID) + chat_spec(self@),
    {
        VarInt(PLAYER_CHAT_MESSAGE_ID).encode(out);
        self.encode(out);
    }

    /// Reads a message whose fields start at `pos`. Signatures are borrowed
    /// from `buf`, not copied.
    #[verifier::rlimit(60)]
    pub fn decode(buf: &'a [u8], pos: usize) -> (r: Result<(PlayerChatMessage<'a>, usize), DecodeError>)
        requires
            pos <= buf@.len(),
        ensures
            within(r, pos, buf@.len()),
            decoded(r, pos) == parse_chat(buf@.skip(pos as int)),
    {
        reveal(parse_chat_tail);
        let ghost b = buf@;
        let (sender, end1) = match Uuid::decode(buf, pos) {
            Ok(x) => x,
            Err(e) => return Err(e),
        };
        proof {
            lemma_skip_skip(b, pos as int, end1 as int);
        }
        let (index, end2) = match VarInt::decode(buf, end1) {
            Ok(x) => x,
            Err(e) => return Err(e),
        };
        proof {
            lemma_skip_skip(b, pos as int, end2 as int);
        }
        let (message_signature, end3) = match decode_opt_signature(buf, end2) {
            Ok(x) => x,
            Err(e) => return Err(e),
        };
        proof {
            lemma_skip_skip(b, pos as int, end3 as int);
        }
        let (message, end4) = match decode_string(buf, end3, MAX_STRING_BYTES) {
            Ok(x) => x,
            Err(e) => return Err(e),
        };
        proof {
            lemma_skip_skip(b, pos as int, end4 as int);
        }
        let (time_stamp, end5) = match decode_u64(buf, end4) {
            Ok(x) => x,
            Err(e) => return Err(e),
        };
        proof {
            lemma_skip_skip(b, pos as int, end5 as int);
        }
        let (salt, end6) = match decode_u64(buf, end5) {
            Ok(x) => x,
            Err(e) => return Err(e),
        };
        proof {
            lemma_skip_skip(b, pos as int, end6 as int);
        }
        let (previous_messages, end7) = match decode_previous_messages(buf, end6) {
            Ok(x) => x,
            Err(e) => return Err(e),
        };
        proof {
            lemma_skip_skip(b, pos as int, end7 as int);
        }
        let (unsigned_content, end8) = match decode_opt_text(buf, end7) {
            Ok(x) => x,
            Err(e) => return Err(e),
        };
        proof {
            lemma_skip_skip(b, pos as int, end8 as int);
        }
        let (filter_type, end9) = match MessageFilterType::decode(buf, end8) {
            Ok(x) => x,
            Err(e) => return Err(e),
        };
        proof {
            lemma_skip_skip(b, pos as int, end9 as int);
        }
        let (filter_type_bits, end10) = if filter_type == MessageFilterType::PartiallyFiltered {
            match decode_u8(buf, end9) {
                Ok((bits, q)) => (Some(bits), q),
                Err(e) => return Err(e),
            }
        } else {
            (None, end9)
        };
        proof {
            lemma_skip_skip(b, pos as int, end10 as int);
        }
        let (chat_type, end11) = match VarInt::decode(buf, end10) {
            Ok(x) => x,
            Err(e) => return Err(e),
        };
        proof {
            lemma_skip_skip(b, pos as int, end11 as int);
        }
        let (network_name, end12) = match decode_text(buf, end11) {
            Ok(x) => x,
            Err(e) => return Err(e),
        };
        proof {
            lemma_skip_skip(b, pos as int, end12 as int);
        }
        let (network_target_name, end13) = match decode_opt_text(buf, end12) {
            Ok(x) => x,
            Err(e) => return Err(e),
        };
        Ok(
            (
                PlayerChatMessage {
                    sender,
                    index,
                    message_signature,
                    message,
                    time_stamp,
                    salt,
                    previous_messages,
                    unsigned_content,
                    filter_type,
                    filter_type_bits,
                    chat_type,
                    network_name,
                    network_target_name,
                },
                end13,
            ),
        )
    }
}

impl View for MessageFilterType {
    type V = MessageFilterType;

    open spec fn view(&self) -> MessageFilterType {
        *self
    }
}

} // verus!
