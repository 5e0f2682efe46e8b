use valence_protocol::chat::{
    decode_previous_messages, encode_previous_messages, MessageFilterType, PlayerChatMessage,
    PreviousMessage, PLAYER_CHAT_MESSAGE_ID,
};
use valence_protocol::error::DecodeError;
use valence_protocol::primitive::{
    decode_flag, decode_opt_text, decode_signature, decode_string, decode_text, decode_u64,
    encode_opt_signature, encode_opt_text, encode_string, encode_u64, Text, Uuid,
    MAX_STRING_BYTES, MAX_TEXT_BYTES,
};
use valence_protocol::varint::VarInt;

fn varint_bytes(v: i32) -> Vec<u8> {
    let mut out = Vec::new();
    VarInt(v).encode(&mut out);
    out
}

fn sample_message<'a>(sig: &'a [u8; 256], prev_sig: &'a [u8; 256]) -> PlayerChatMessage<'a> {
    PlayerChatMessage {
        sender: Uuid(0x0123_4567_89ab_cdef_fedc_ba98_7654_3210),
        index: VarInt(300),
        message_signature: Some(sig),
        message: "hello, world".to_string(),
        time_stamp: 1_700_000_000_000,
        salt: 0xdead_beef_cafe_f00d,
        previous_messages: vec![
            PreviousMessage { message_id: 5, signature: None },
            PreviousMessage { message_id: -1, signature: Some(prev_sig) },
        ],
        unsigned_content: Some(Text("{\"text\":\"hi\"}".to_string())),
        filter_type: MessageFilterType::PartiallyFiltered,
        filter_type_bits: Some(0b1010),
        chat_type: VarInt(1),
        network_name: Text("{\"text\":\"Steve\"}".to_string()),
        network_target_name: None,
    }
}

fn plain_message() -> PlayerChatMessage<'static> {
    PlayerChatMessage {
        sender: Uuid(42),
        index: VarInt(0),
        message_signature: None,
        message: "gg".to_string(),
        time_stamp: 7,
        salt: 9,
        previous_messages: vec![],
        unsigned_content: None,
        filter_type: MessageFilterType::PassThrough,
        filter_type_bits: None,
        chat_type: VarInt(0),
        network_name: Text("\"Alex\"".to_string()),
        network_target_name: Some(Text("\"team\"".to_string())),
    }
}

#[test]
fn varint_exact_bytes() {
    assert_eq!(varint_bytes(0), vec![0x00]);
    assert_eq!(varint_bytes(1), vec![0x01]);
    assert_eq!(varint_bytes(127), vec![0x7f]);
    assert_eq!(varint_bytes(128), vec![0x80, 0x01]);
    assert_eq!(varint_bytes(255), vec![0xff, 0x01]);
    assert_eq!(varint_bytes(25565), vec![0xdd, 0xc7, 0x01]);
    assert_eq!(varint_bytes(2097151), vec![0xff, 0xff, 0x7f]);
    assert_eq!(varint_bytes(i32::MAX), vec![0xff, 0xff, 0xff, 0xff, 0x07]);
    assert_eq!(varint_bytes(-1), vec![0xff, 0xff, 0xff, 0xff, 0x0f]);
    assert_eq!(varint_bytes(i32::MIN), vec![0x80, 0x80, 0x80, 0x80, 0x08]);
}

#[test]
fn varint_round_trip_values() {
    for v in [0, 1, 2, 127, 128, 16383, 16384, 2097151, 2097152, 268435455, 268435456, i32::MAX, -1, -128, i32::MIN] {
        let bytes = varint_bytes(v);
        assert_eq!(VarInt::decode(&bytes, 0), Ok((VarInt(v), bytes.len())));
    }
}

#[test]
fn varint_shifted_minus_one_is_one_zero_byte() {
    let id: i32 = -1;
    assert_eq!(varint_bytes(id + 1), vec![0x00]);
}

#[test]
fn varint_errors() {
    assert_eq!(VarInt::decode(&[0x80, 0x80, 0x80, 0x80, 0x80, 0x01], 0), Err(DecodeError::MalformedVarInt));
    assert_eq!(VarInt::decode(&[0x80, 0x80], 0), Err(DecodeError::TruncatedInput));
    assert_eq!(VarInt::decode(&[], 0), Err(DecodeError::TruncatedInput));
    assert_eq!(VarInt::decode(&[9, 0x05], 1), Ok((VarInt(5), 2)));
}

#[test]
fn previous_message_back_reference() {
    let mut out = Vec::new();
    PreviousMessage { message_id: 5, signature: None }.encode(&mut out);
    assert_eq!(out, vec![6]);
    assert_eq!(
        PreviousMessage::decode(&[6], 0),
        Ok((PreviousMessage { message_id: 5, signature: None }, 1))
    );
}

#[test]
fn previous_message_inline_signature() {
    let mut buf = vec![0u8];
    let sig: Vec<u8> = (0..256).map(|i| (i * 7 % 251) as u8).collect();
    buf.extend_from_slice(&sig);
    let (p, end) = PreviousMessage::decode(&buf, 0).unwrap();
    assert_eq!(p.message_id, -1);
    assert_eq!(&p.signature.unwrap()[..], &sig[..]);
    assert_eq!(end, 257);
    let mut out = Vec::new();
    p.encode(&mut out);
    assert_eq!(out, buf);
}

#[test]
fn previous_message_signature_truncated() {
    let buf = vec![0u8; 200];
    assert_eq!(PreviousMessage::decode(&buf, 0), Err(DecodeError::TruncatedInput));
}

#[test]
fn chat_message_round_trip() {
    let sig = [3u8; 256];
    let prev_sig = [4u8; 256];
    let m = sample_message(&sig, &prev_sig);
    let mut out = Vec::new();
    m.encode(&mut out);
    assert_eq!(PlayerChatMessage::decode(&out, 0), Ok((m.clone(), out.len())));
    let p = plain_message();
    let mut out = Vec::new();
    p.encode(&mut out);
    assert_eq!(PlayerChatMessage::decode(&out, 0), Ok((p, out.len())));
}

#[test]
fn chat_message_plain_exact_bytes() {
    let p = plain_message();
    let mut out = Vec::new();
    p.encode(&mut out);
    let mut expected = vec![0u8; 15];
    expected.push(42);
    expected.push(0); // index
    expected.push(0); // no signature
    expected.extend_from_slice(&[2, b'g', b'g']);
    expected.extend_from_slice(&7u64.to_be_bytes());
    expected.extend_from_slice(&9u64.to_be_bytes());
    expected.push(0); // no previous messages
    expected.push(0); // no unsigned content
    expected.push(0); // pass through, no bitmask byte
    expected.push(0); // chat type
    expected.push(6);
    expected.extend_from_slice(b"\"Alex\"");
    expected.push(1);
    expected.push(6);
    expected.extend_from_slice(b"\"team\"");
    assert_eq!(out, expected);
}

#[test]
fn partially_filtered_without_bitmask_decodes_zero() {
    let mut m = plain_message();
    m.filter_type = MessageFilterType::PartiallyFiltered;
    m.filter_type_bits = None;
    let mut out = Vec::new();
    m.encode(&mut out);
    let mut with_zero = plain_message();
    with_zero.filter_type = MessageFilterType::PartiallyFiltered;
    with_zero.filter_type_bits = Some(0);
    let mut out_zero = Vec::new();
    with_zero.encode(&mut out_zero);
    assert_eq!(out, out_zero);
    let (decoded, end) = PlayerChatMessage::decode(&out, 0).unwrap();
    assert_eq!(end, out.len());
    assert_eq!(decoded.filter_type_bits, Some(0));
    assert_ne!(decoded, m);
    assert_eq!(decoded, with_zero);
}

#[test]
fn pass_through_has_no_bitmask_byte() {
    let p = plain_message();
    let mut pass = Vec::new();
    p.encode(&mut pass);
    let mut partial = plain_message();
    partial.filter_type = MessageFilterType::PartiallyFiltered;
    partial.filter_type_bits = Some(0x55);
    let mut part = Vec::new();
    partial.encode(&mut part);
    assert_eq!(part.len(), pass.len() + 1);
    let (decoded, end) = PlayerChatMessage::decode(&pass, 0).unwrap();
    assert_eq!(decoded.filter_type_bits, None);
    assert_eq!(decoded.chat_type, VarInt(0));
    assert_eq!(decoded.network_name, Text("\"Alex\"".to_string()));
    assert_eq!(end, pass.len());
}

#[test]
fn every_prefix_is_truncated() {
    let sig = [3u8; 256];
    let mut m = plain_message();
    m.message_signature = Some(&sig);
    m.unsigned_content = Some(Text("\"x\"".to_string()));
    m.filter_type = MessageFilterType::PartiallyFiltered;
    m.filter_type_bits = Some(1);
    let mut out = Vec::new();
    m.encode(&mut out);
    for len in 0..out.len() {
        assert_eq!(PlayerChatMessage::decode(&out[..len], 0), Err(DecodeError::TruncatedInput), "prefix {}", len);
    }
}

#[test]
fn empty_sequence_is_one_zero_byte() {
    let mut out = Vec::new();
    encode_previous_messages(&vec![], &mut out);
    assert_eq!(out, vec![0]);
    assert_eq!(decode_previous_messages(&[0, 99], 0), Ok((vec![], 1)));
}

#[test]
fn absent_optional_is_one_byte() {
    let mut out = Vec::new();
    encode_opt_text(&None, &mut out);
    assert_eq!(out, vec![0]);
    let mut out = Vec::new();
    encode_opt_signature(None, &mut out);
    assert_eq!(out, vec![0]);
    assert_eq!(decode_opt_text(&[0], 0), Ok((None, 1)));
}

#[test]
fn sequence_count_errors() {
    assert_eq!(decode_previous_messages(&[5, 1], 0), Err(DecodeError::SequenceTooLong));
    let mut neg = Vec::new();
    VarInt(-1).encode(&mut neg);
    assert_eq!(decode_previous_messages(&neg, 0), Err(DecodeError::SequenceTooLong));
    let (ps, end) = decode_previous_messages(&[2, 3, 8], 0).unwrap();
    assert_eq!(ps, vec![
        PreviousMessage { message_id: 2, signature: None },
        PreviousMessage { message_id: 7, signature: None },
    ]);
    assert_eq!(end, 3);
}

#[test]
fn text_errors() {
    assert_eq!(decode_string(&[2, 0xff, 0xfe], 0, MAX_STRING_BYTES), Err(DecodeError::InvalidUtf8));
    assert_eq!(decode_string(&[3, b'a'], 0, MAX_STRING_BYTES), Err(DecodeError::TruncatedInput));
    assert_eq!(decode_string(&[5, b'a', b'b', b'c', b'd', b'e'], 0, 4), Err(DecodeError::TextTooLong));
    let mut big = Vec::new();
    VarInt(MAX_TEXT_BYTES as i32 + 1).encode(&mut big);
    assert_eq!(decode_text(&big, 0), Err(DecodeError::TextTooLong));
    let mut neg = Vec::new();
    VarInt(-2).encode(&mut neg);
    assert_eq!(decode_string(&neg, 0, MAX_STRING_BYTES), Err(DecodeError::TextTooLong));
}

#[test]
fn text_utf8_round_trip() {
    let mut out = Vec::new();
    encode_string("héllo ✓", &mut out);
    assert_eq!(out[0] as usize, "héllo ✓".len());
    assert_eq!(&out[1..], "héllo ✓".as_bytes());
    assert_eq!(decode_string(&out, 0, MAX_STRING_BYTES), Ok(("héllo ✓".to_string(), out.len())));
}

#[test]
fn option_flag_errors() {
    assert_eq!(decode_flag(&[2], 0), Err(DecodeError::InvalidOptionFlag));
    assert_eq!(decode_flag(&[1], 0), Ok((true, 1)));
    assert_eq!(decode_opt_text(&[7], 0), Err(DecodeError::InvalidOptionFlag));
}

#[test]
fn filter_type_errors() {
    assert_eq!(MessageFilterType::decode(&[3], 0), Err(DecodeError::InvalidEnumTag));
    assert_eq!(MessageFilterType::decode(&[2], 0), Ok((MessageFilterType::PartiallyFiltered, 1)));
    let mut out = Vec::new();
    MessageFilterType::FullyFiltered.encode(&mut out);
    assert_eq!(out, vec![1]);
}

#[test]
fn fixed_width_integers_big_endian() {
    let mut out = Vec::new();
    encode_u64(0x0102_0304_0506_0708, &mut out);
    assert_eq!(out, vec![1, 2, 3, 4, 5, 6, 7, 8]);
    assert_eq!(decode_u64(&out, 0), Ok((0x0102_0304_0506_0708, 8)));
    assert_eq!(decode_u64(&out[..7], 0), Err(DecodeError::TruncatedInput));
    let mut out = Vec::new();
    Uuid(0x00112233_44556677_8899aabb_ccddeeff).encode(&mut out);
    assert_eq!(out, vec![0x00, 0x11, 0x22, 0x33, 0x44, 0x55, 0x66, 0x77, 0x88, 0x99, 0xaa, 0xbb, 0xcc, 0xdd, 0xee, 0xff]);
    assert_eq!(Uuid::decode(&out, 0), Ok((Uuid(0x00112233_44556677_8899aabb_ccddeeff), 16)));
}

#[test]
fn signature_is_borrowed_from_input() {
    let mut buf = vec![9u8];
    buf.extend((0..256).map(|i| i as u8));
    let (sig, end) = decode_signature(&buf, 1).unwrap();
    assert_eq!(end, 257);
    assert_eq!(sig[0], 0);
    assert_eq!(sig[255], 255);
    assert!(std::ptr::eq(sig.as_ptr(), buf[1..].as_ptr()));
    assert_eq!(decode_signature(&buf, 2), Err(DecodeError::TruncatedInput));
}

#[test]
fn packet_starts_with_opcode() {
    let p = plain_message();
    let mut body = Vec::new();
    p.encode(&mut body);
    let mut packet = Vec::new();
    p.encode_packet(&mut packet);
    assert_eq!(PLAYER_CHAT_MESSAGE_ID, 0x31);
    assert_eq!(packet[0], 0x31);
    assert_eq!(&packet[1..], &body[..]);
}

#[test]
fn cut_inside_previous_messages_reports_count() {
    let mut m = plain_message();
    m.previous_messages = vec![
        PreviousMessage { message_id: 1, signature: None },
        PreviousMessage { message_id: 2, signature: None },
    ];
    let mut out = Vec::new();
    m.encode(&mut out);
    // sender (16), index, no signature, "gg" (3), two u64 (16), then the count.
    let count_at = 16 + 1 + 1 + 3 + 16;
    assert_eq!(out[count_at], 2);
    assert_eq!(PlayerChatMessage::decode(&out[..count_at + 1], 0), Err(DecodeError::SequenceTooLong));
    assert_eq!(PlayerChatMessage::decode(&out[..count_at + 2], 0), Err(DecodeError::SequenceTooLong));
    assert_eq!(PlayerChatMessage::decode(&out[..count_at + 3], 0), Err(DecodeError::TruncatedInput));
    assert_eq!(PlayerChatMessage::decode(&out, 0), Ok((m, out.len())));
}

#[test]
fn every_prefix_outside_count_window_is_truncated() {
    let sig = [3u8; 256];
    let prev_sig = [4u8; 256];
    let m = sample_message(&sig, &prev_sig);
    let mut out = Vec::new();
    m.encode(&mut out);
    // sender, index 300 (two bytes), present signature, "hello, world", two u64.
    let count_at = 16 + 2 + 1 + 256 + 1 + 12 + 8 + 8;
    assert_eq!(out[count_at], 2);
    for len in 0..out.len() {
        let expected = if len > count_at && len <= count_at + 2 {
            DecodeError::SequenceTooLong
        } else {
            DecodeError::TruncatedInput
        };
        assert_eq!(PlayerChatMessage::decode(&out[..len], 0), Err(expected), "prefix {}", len);
    }
}

#[test]
fn back_reference_never_writes_signature() {
    let sig = [7u8; 256];
    let mut out = Vec::new();
    PreviousMessage { message_id: 5, signature: Some(&sig) }.encode(&mut out);
    assert_eq!(out, vec![6]);
    assert_eq!(
        PreviousMessage::decode(&out, 0),
        Ok((PreviousMessage { message_id: 5, signature: None }, 1))
    );
}
