use upb::arena::Arena;
use upb::model::{FieldKind, FieldSpec, Message, MiniTable, Value};
use upb::status::{DecodeStatus, EncodeStatus};
use upb::wire::{decode, decode_new, encode};

fn field(kind: FieldKind, required: bool) -> FieldSpec {
    FieldSpec { kind, required }
}

fn uint_chunk(tag: u8, x: u64) -> Vec<u8> {
    let mut v = vec![tag];
    v.extend_from_slice(&x.to_le_bytes());
    v
}

fn delimited_chunk(tag: u8, payload: &[u8]) -> Vec<u8> {
    let mut v = vec![tag];
    v.extend_from_slice(&(payload.len() as u64).to_le_bytes());
    v.extend_from_slice(payload);
    v
}

#[test]
fn empty_message_encodes_to_valid_zero_length_buffer() {
    let table = MiniTable { fields: vec![field(FieldKind::Uint, false)] };
    let msg = Message::new_for(&table);
    let owned = encode(&msg, &table).unwrap();
    assert_eq!(owned.as_ref().len(), 0);
    assert_eq!(owned.data().len, 0);
    let decoded = decode_new(&[], &table).unwrap();
    assert_eq!(decoded.as_ref().fields, vec![None]);
}

#[test]
fn required_field_scenario() {
    let table = MiniTable { fields: vec![field(FieldKind::Uint, true)] };
    let unset = Message::new_for(&table);
    assert_eq!(encode(&unset, &table).unwrap_err(), EncodeStatus::MissingRequired);

    let mut msg = Message::new_for(&table);
    msg.set_field(0, Value::Uint(7));
    let owned = encode(&msg, &table).unwrap();
    assert!(owned.as_ref().len() > 0);

    let decoded = decode_new(owned.as_ref(), &table).unwrap();
    assert_eq!(*decoded.as_ref(), msg);
}

#[test]
fn round_trip_over_every_field_kind() {
    let sub_table = MiniTable { fields: vec![field(FieldKind::Uint, false)] };
    let table = MiniTable {
        fields: vec![
            field(FieldKind::Uint, false),
            field(FieldKind::Bytes, false),
            field(FieldKind::Text, false),
            field(FieldKind::Sub(Some(Box::new(sub_table))), false),
        ],
    };
    let mut sub = Message::new_for(&MiniTable { fields: vec![field(FieldKind::Uint, false)] });
    sub.set_field(0, Value::Uint(99));
    let mut msg = Message::new_for(&table);
    msg.set_field(0, Value::Uint(u64::MAX));
    msg.set_field(1, Value::Bytes(vec![0, 255, 7]));
    msg.set_field(2, Value::Text("héllo ✓".as_bytes().to_vec()));
    msg.set_field(3, Value::Sub(sub));

    let owned = encode(&msg, &table).unwrap();
    let decoded = decode_new(owned.as_ref(), &table).unwrap();
    assert_eq!(*decoded.as_ref(), msg);
}

#[test]
fn uint_wire_bytes_are_exact() {
    let table = MiniTable { fields: vec![field(FieldKind::Uint, false)] };
    let mut msg = Message::new_for(&table);
    msg.set_field(0, Value::Uint(0x0102030405060708));
    let owned = encode(&msg, &table).unwrap();
    assert_eq!(owned.as_ref(), &[0u8, 0x08, 0x07, 0x06, 0x05, 0x04, 0x03, 0x02, 0x01]);
}

#[test]
fn merge_applies_buffers_in_turn() {
    let table = MiniTable {
        fields: vec![field(FieldKind::Uint, false), field(FieldKind::Uint, false)],
    };
    let b1 = uint_chunk(0, 1);
    let b2 = uint_chunk(1, 2);

    let mut arena = Arena::new();
    let h = arena.new_message(&table);
    decode(&b1, h, &table, &mut arena).unwrap();
    decode(&b2, h, &table, &mut arena).unwrap();
    let merged = arena.message(h);

    let mut cat = b1.clone();
    cat.extend_from_slice(&b2);
    let one_shot = decode_new(&cat, &table).unwrap();
    assert_eq!(one_shot.as_ref(), merged);
    assert_eq!(merged.fields, vec![Some(Value::Uint(1)), Some(Value::Uint(2))]);
}

#[test]
fn merge_overwrites_a_repeated_field() {
    let table = MiniTable { fields: vec![field(FieldKind::Uint, false)] };
    let mut arena = Arena::new();
    let h = arena.new_message(&table);
    decode(&uint_chunk(0, 1), h, &table, &mut arena).unwrap();
    decode(&uint_chunk(0, 2), h, &table, &mut arena).unwrap();
    assert_eq!(arena.message(h).fields, vec![Some(Value::Uint(2))]);
}

#[test]
fn truncated_buffer_is_malformed() {
    let table = MiniTable { fields: vec![field(FieldKind::Uint, false)] };
    let mut buf = uint_chunk(0, 7);
    buf.pop();
    assert_eq!(decode_new(&buf, &table).unwrap_err(), DecodeStatus::Malformed);
}

#[test]
fn unknown_tag_is_malformed() {
    let table = MiniTable { fields: vec![field(FieldKind::Uint, false)] };
    assert_eq!(decode_new(&[9u8], &table).unwrap_err(), DecodeStatus::Malformed);
}

#[test]
fn overlong_length_is_malformed() {
    let table = MiniTable { fields: vec![field(FieldKind::Bytes, false)] };
    let mut buf = delimited_chunk(0, b"ab");
    buf.truncate(buf.len() - 1);
    assert_eq!(decode_new(&buf, &table).unwrap_err(), DecodeStatus::Malformed);
}

#[test]
fn invalid_utf8_in_text_field_is_bad_utf8() {
    let table = MiniTable { fields: vec![field(FieldKind::Text, false)] };
    let buf = delimited_chunk(0, &[0xFF]);
    assert_eq!(decode_new(&buf, &table).unwrap_err(), DecodeStatus::BadUtf8);
    let overlong = delimited_chunk(0, &[0xC0, 0x80]);
    assert_eq!(decode_new(&overlong, &table).unwrap_err(), DecodeStatus::BadUtf8);
    let surrogate = delimited_chunk(0, &[0xED, 0xA0, 0x80]);
    assert_eq!(decode_new(&surrogate, &table).unwrap_err(), DecodeStatus::BadUtf8);
    let same_bytes_as_bytes_field =
        MiniTable { fields: vec![field(FieldKind::Bytes, false)] };
    assert!(decode_new(&buf, &same_bytes_as_bytes_field).is_ok());
}

#[test]
fn four_byte_text_round_trips() {
    let table = MiniTable { fields: vec![field(FieldKind::Text, false)] };
    let mut msg = Message::new_for(&table);
    msg.set_field(0, Value::Text("\u{1F600}".as_bytes().to_vec()));
    let owned = encode(&msg, &table).unwrap();
    let decoded = decode_new(owned.as_ref(), &table).unwrap();
    assert_eq!(*decoded.as_ref(), msg);
}

#[test]
fn nesting_over_the_bound_is_max_depth_exceeded() {
    let mut table = MiniTable { fields: vec![field(FieldKind::Uint, false)] };
    for _ in 0..101 {
        table = MiniTable {
            fields: vec![field(FieldKind::Sub(Some(Box::new(table))), false)],
        };
    }
    let mut deep = Vec::new();
    for _ in 0..100 {
        deep = delimited_chunk(0, &deep);
    }
    assert_eq!(decode_new(&deep, &table).unwrap_err(), DecodeStatus::MaxDepthExceeded);

    let mut shallow = Vec::new();
    for _ in 0..99 {
        shallow = delimited_chunk(0, &shallow);
    }
    assert!(decode_new(&shallow, &table).is_ok());
}

#[test]
fn message_nested_over_the_bound_fails_to_encode() {
    let mut table = MiniTable { fields: vec![field(FieldKind::Uint, false)] };
    let mut msg = Message::new_for(&table);
    for _ in 0..100 {
        table = MiniTable {
            fields: vec![field(FieldKind::Sub(Some(Box::new(table))), false)],
        };
        let mut outer = Message::new_for(&table);
        outer.set_field(0, Value::Sub(msg));
        msg = outer;
    }
    assert_eq!(encode(&msg, &table).unwrap_err(), EncodeStatus::MaxDepthExceeded);
}

#[test]
fn missing_required_on_decode() {
    let table = MiniTable { fields: vec![field(FieldKind::Uint, true)] };
    assert_eq!(decode_new(&[], &table).unwrap_err(), DecodeStatus::MissingRequired);
}

#[test]
fn unlinked_sub_message_is_reported() {
    let table = MiniTable { fields: vec![field(FieldKind::Sub(None), false)] };
    let buf = delimited_chunk(0, &[]);
    assert_eq!(decode_new(&buf, &table).unwrap_err(), DecodeStatus::UnlinkedSubMessage);
}

#[test]
fn failed_merge_keeps_the_chunks_already_applied() {
    let table = MiniTable { fields: vec![field(FieldKind::Uint, false)] };
    let mut buf = uint_chunk(0, 5);
    buf.push(9);
    let mut arena = Arena::new();
    let h = arena.new_message(&table);
    assert_eq!(decode(&buf, h, &table, &mut arena).unwrap_err(), DecodeStatus::Malformed);
    assert_eq!(arena.message(h).fields, vec![Some(Value::Uint(5))]);
}
