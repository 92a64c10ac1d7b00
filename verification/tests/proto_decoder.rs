use garupa::proto::decoder::{decode, Decoded, ProtoError};
use garupa::proto::schema::{FieldDef, ProtoType, Schema};
use garupa::proto::wire::{parse_raw_fields, raw_field_count, read_varint, RawData, WireType};

/// Appends a base-128 varint to a buffer.
fn push_varint(buf: &mut Vec<u8>, mut value: u64) {
    loop {
        let mut byte = (value & 0x7f) as u8;
        value >>= 7;
        if value != 0 {
            byte |= 0x80;
        }
        buf.push(byte);
        if value == 0 {
            break;
        }
    }
}

fn field(name: &str, ty: ProtoType, repeated: bool) -> FieldDef {
    FieldDef { name: name.to_string(), ty, repeated }
}

/// The ranking user list: field 1 holds the entries, each a ranking user.
fn ranking_user_list_schema() -> Schema {
    let user = Schema {
        fields: vec![
            (1, field("name", ProtoType::String, false)),
            (5, field("rank", ProtoType::Int, false)),
            (6, field("point", ProtoType::Long, false)),
            (7, field("userId", ProtoType::Long, false)),
        ],
    };
    Schema { fields: vec![(1, field("entries", ProtoType::Message(Box::new(user)), true))] }
}

fn members(v: &Decoded) -> &Vec<(String, Decoded)> {
    match v {
        Decoded::Object(m) => m,
        other => panic!("not an object: {:?}", other),
    }
}

fn member<'a>(v: &'a Decoded, name: &str) -> Option<&'a Decoded> {
    members(v).iter().find(|(n, _)| n == name).map(|(_, d)| d)
}

fn int_of(v: Option<&Decoded>) -> i64 {
    match v {
        Some(Decoded::Int(i)) => *i,
        other => panic!("not an integer: {:?}", other),
    }
}

fn text_of(v: Option<&Decoded>) -> String {
    match v {
        Some(Decoded::Text(s)) => s.clone(),
        other => panic!("not a text: {:?}", other),
    }
}

#[test]
fn reads_varint() {
    assert_eq!(read_varint(&[0x2a], 0), Some((42, 1)));
    assert_eq!(read_varint(&[0xac, 0x02], 0), Some((300, 2)));
    assert_eq!(read_varint(&[0x80, 0x01], 0), Some((128, 2)));
}

#[test]
fn decodes_ranking_user_list() {
    // One ranking user:
    //   name    field 1, wire 2, len 6, "tester"
    //   userId  field 7, wire 0, 42
    //   point   field 6, wire 0, 100
    //   rank    field 5, wire 0, 2
    let mut user = Vec::new();
    user.extend_from_slice(&[0x0a, 6]);
    user.extend_from_slice(b"tester");
    user.extend_from_slice(&[0x38, 42]);
    user.extend_from_slice(&[0x30, 100]);
    user.extend_from_slice(&[0x28, 2]);

    // List wrapper: field 1 holds the entries with wire type 2.
    let mut list = Vec::new();
    list.push(0x0a);
    push_varint(&mut list, user.len() as u64);
    list.extend_from_slice(&user);

    let value = decode(&list, &ranking_user_list_schema()).unwrap();
    let entries = match member(&value, "entries") {
        Some(Decoded::Array(a)) => a,
        other => panic!("entries is not an array: {:?}", other),
    };
    assert_eq!(entries.len(), 1);
    let u = &entries[0];
    assert_eq!(text_of(member(u, "name")), "tester");
    assert_eq!(int_of(member(u, "userId")), 42);
    assert_eq!(int_of(member(u, "point")), 100);
    assert_eq!(int_of(member(u, "rank")), 2);
}

#[test]
fn ignores_wrong_wire_types() {
    // Send userId as a length-delimited value even though it should be a varint.
    let buf = [0x3a, 1, 0xff]; // field 7 wire 2 len 1 -> should be skipped
    let value = decode(&buf, &ranking_user_list_schema()).unwrap();
    let entries = member(&value, "entries");
    assert!(entries.is_none() || matches!(entries, Some(Decoded::Array(a)) if a.is_empty()));
}

#[test]
fn counts_raw_fields() {
    assert_eq!(raw_field_count(&[]), 0);
    assert_eq!(raw_field_count(&[0x0a, 0x01, 0x00]), 1);
}

#[test]
fn read_varint_rejects_truncated_and_overlong() {
    assert_eq!(read_varint(&[0x80], 0), None);
    assert_eq!(read_varint(&[], 0), None);
    assert_eq!(read_varint(&[0x2a], 1), None);
    // Nine bytes is the longest varint accepted.
    let nine = [0xff, 0xff, 0xff, 0xff, 0xff, 0xff, 0xff, 0xff, 0x7f];
    assert_eq!(read_varint(&nine, 0), Some((0x7fff_ffff_ffff_ffff, 9)));
    let ten = [0x80, 0x80, 0x80, 0x80, 0x80, 0x80, 0x80, 0x80, 0x80, 0x01];
    assert_eq!(read_varint(&ten, 0), None);
    // Reading from an offset.
    assert_eq!(read_varint(&[0x00, 0xac, 0x02, 0x05], 1), Some((300, 3)));
}

#[test]
fn parses_every_wire_type() {
    let mut buf = vec![0x08, 0x96, 0x01]; // field 1 varint 150
    buf.extend_from_slice(&[0x12, 0x02, 0xaa, 0xbb]); // field 2 len 2
    buf.push(0x19); // field 3 fixed64
    buf.extend_from_slice(&[1, 2, 3, 4, 5, 6, 7, 8]);
    buf.push(0x25); // field 4 fixed32
    buf.extend_from_slice(&[9, 10, 11, 12]);
    let raw = parse_raw_fields(&buf);
    assert_eq!(raw.len(), 4);
    assert_eq!((raw[0].field, raw[0].wire_type), (1, WireType::Varint));
    assert!(matches!(raw[0].data, RawData::Varint(150)));
    assert_eq!((raw[1].field, raw[1].wire_type), (2, WireType::LengthDelimited));
    assert!(matches!(&raw[1].data, RawData::Bytes(b) if b == &vec![0xaa, 0xbb]));
    assert_eq!((raw[2].field, raw[2].wire_type), (3, WireType::Fixed64));
    assert!(matches!(&raw[2].data, RawData::Bytes(b) if b == &vec![1, 2, 3, 4, 5, 6, 7, 8]));
    assert_eq!((raw[3].field, raw[3].wire_type), (4, WireType::Fixed32));
    assert!(matches!(&raw[3].data, RawData::Bytes(b) if b == &vec![9, 10, 11, 12]));
}

#[test]
fn malformed_tail_is_ignored() {
    // A good varint field, then a length-delimited field running past the end.
    assert_eq!(raw_field_count(&[0x08, 0x01, 0x12, 0x05, 0x01]), 1);
    // Key zero stops the scan.
    assert_eq!(raw_field_count(&[0x08, 0x01, 0x00, 0x08, 0x02]), 1);
    // Field number zero (key 0x07, wire type 7) stops the scan.
    assert_eq!(raw_field_count(&[0x08, 0x01, 0x07, 0x08, 0x02]), 1);
    // Unknown wire type 3 stops the scan.
    assert_eq!(raw_field_count(&[0x08, 0x01, 0x0b, 0x08, 0x02]), 1);
    // A truncated fixed64 stops the scan.
    assert_eq!(raw_field_count(&[0x08, 0x01, 0x09, 0x01, 0x02]), 1);
}

#[test]
fn trailing_bytes_keep_the_fields_of_a_whole_message() {
    let a = [0x08, 0x07, 0x12, 0x01, 0x41];
    let b = [0x18, 0x03];
    let mut ab = a.to_vec();
    ab.extend_from_slice(&b);
    assert_eq!(raw_field_count(&a), 2);
    assert_eq!(raw_field_count(&b), 1);
    assert_eq!(raw_field_count(&ab), 3);
    let raw = parse_raw_fields(&ab);
    assert_eq!(raw[2].field, 3);
}

#[test]
fn non_repeated_takes_last_valid_occurrence() {
    let schema = Schema { fields: vec![(1, field("n", ProtoType::Long, false))] };
    // n = 5, then n = 9, then a length-delimited occurrence that is skipped.
    let buf = [0x08, 0x05, 0x08, 0x09, 0x0a, 0x01, 0x00];
    let value = decode(&buf, &schema).unwrap();
    assert_eq!(int_of(member(&value, "n")), 9);
    // Only a mismatching occurrence: the member is left out.
    let value = decode(&[0x0a, 0x01, 0x00], &schema).unwrap();
    assert!(member(&value, "n").is_none());
}

#[test]
fn repeated_collects_valid_occurrences_in_order() {
    let schema = Schema { fields: vec![(2, field("xs", ProtoType::Int, true))] };
    let buf = [0x10, 0x01, 0x12, 0x00, 0x10, 0x02, 0x10, 0x03];
    let value = decode(&buf, &schema).unwrap();
    match member(&value, "xs") {
        Some(Decoded::Array(a)) => {
            let ints: Vec<i64> = a.iter().map(|d| int_of(Some(d))).collect();
            assert_eq!(ints, vec![1, 2, 3]);
        },
        other => panic!("xs is not an array: {:?}", other),
    }
    // Occurrences that all mismatch still give an (empty) array.
    let value = decode(&[0x12, 0x00], &schema).unwrap();
    assert!(matches!(member(&value, "xs"), Some(Decoded::Array(a)) if a.is_empty()));
    // No occurrence at all: no member.
    let value = decode(&[0x08, 0x01], &schema).unwrap();
    assert!(member(&value, "xs").is_none());
}

#[test]
fn decodes_scalar_types() {
    let schema = Schema {
        fields: vec![
            (1, field("flag", ProtoType::Bool, false)),
            (2, field("other", ProtoType::Bool, false)),
            (3, field("raw", ProtoType::Bytes, false)),
            (4, field("d", ProtoType::Double, false)),
            (5, field("f", ProtoType::Float, false)),
            (6, field("neg", ProtoType::Int, false)),
            (7, field("s", ProtoType::String, false)),
        ],
    };
    let mut buf = vec![0x08, 0x01, 0x10, 0x02];
    buf.extend_from_slice(&[0x1a, 0x03, b'a', b'b', b'c']);
    buf.push(0x21);
    buf.extend_from_slice(&1.5f64.to_le_bytes());
    buf.push(0x2d);
    buf.extend_from_slice(&(-2.25f32).to_le_bytes());
    buf.push(0x30);
    push_varint(&mut buf, u64::MAX);
    buf.extend_from_slice(&[0x3a, 0x02, b'h', 0xff]);
    let value = decode(&buf, &schema).unwrap();
    assert!(matches!(member(&value, "flag"), Some(Decoded::Bool(true))));
    assert!(matches!(member(&value, "other"), Some(Decoded::Bool(false))));
    assert_eq!(text_of(member(&value, "raw")), "YWJj");
    match member(&value, "d") {
        Some(Decoded::Double(bits)) => assert_eq!(f64::from_bits(*bits), 1.5),
        other => panic!("not a double: {:?}", other),
    }
    match member(&value, "f") {
        Some(Decoded::Float(bits)) => assert_eq!(f32::from_bits(*bits), -2.25),
        other => panic!("not a float: {:?}", other),
    }
    // A ten-byte varint is too long: the scan stops there, so "neg" and "s" are absent.
    assert!(member(&value, "neg").is_none());
    assert!(member(&value, "s").is_none());

    let mut buf = vec![0x30];
    push_varint(&mut buf, (1u64 << 63) - 1);
    buf.extend_from_slice(&[0x3a, 0x02, b'h', 0xff]);
    let value = decode(&buf, &schema).unwrap();
    assert_eq!(int_of(member(&value, "neg")), i64::MAX);
    assert_eq!(text_of(member(&value, "s")), "h\u{fffd}");
}

#[test]
fn members_follow_schema_order_and_unknown_fields_are_ignored() {
    let schema = Schema {
        fields: vec![(9, field("b", ProtoType::Int, false)), (1, field("a", ProtoType::Int, false))],
    };
    let buf = [0x08, 0x01, 0x10, 0x05, 0x48, 0x02];
    let value = decode(&buf, &schema).unwrap();
    let names: Vec<&str> = members(&value).iter().map(|(n, _)| n.as_str()).collect();
    assert_eq!(names, vec!["b", "a"]);
    assert_eq!(int_of(member(&value, "b")), 2);
    assert_eq!(int_of(member(&value, "a")), 1);
}

#[test]
fn trailing_garbage_after_a_whole_message_is_ignored() {
    let schema = Schema { fields: vec![(1, field("n", ProtoType::Long, false))] };
    let whole = [0x08, 0x05];
    let mut with_garbage = whole.to_vec();
    with_garbage.extend_from_slice(&[0x80, 0x80]);
    let a = decode(&whole, &schema).unwrap();
    let b = decode(&with_garbage, &schema).unwrap();
    assert_eq!(int_of(member(&a, "n")), 5);
    assert_eq!(int_of(member(&b, "n")), 5);
    assert_eq!(members(&b).len(), 1);
}

#[test]
fn canonical_varints_read_back_whatever_follows() {
    for v in [0u64, 1, 127, 128, 300, 16384, u32::MAX as u64, (1u64 << 63) - 1] {
        let mut enc = Vec::new();
        push_varint(&mut enc, v);
        let n = enc.len();
        enc.extend_from_slice(&[0xff, 0x00, 0x80]);
        assert_eq!(read_varint(&enc, 0), Some((v, n)));
    }
}

#[test]
fn proto_error_message_is_its_text() {
    let e = ProtoError("bad buffer".to_string());
    assert_eq!(e.message(), "bad buffer");
}

#[test]
fn a_later_field_of_the_same_name_replaces_the_member() {
    let schema = Schema {
        fields: vec![
            (1, field("x", ProtoType::Int, false)),
            (2, field("y", ProtoType::Int, false)),
            (3, field("x", ProtoType::Int, false)),
        ],
    };
    let value = decode(&[0x08, 0x05, 0x10, 0x06, 0x18, 0x07], &schema).unwrap();
    let names: Vec<&str> = members(&value).iter().map(|(n, _)| n.as_str()).collect();
    assert_eq!(names, vec!["x", "y"]);
    assert_eq!(int_of(member(&value, "x")), 7);
    assert_eq!(int_of(member(&value, "y")), 6);
    // Without field 3 the earlier member stays.
    let value = decode(&[0x08, 0x05, 0x10, 0x06], &schema).unwrap();
    assert_eq!(int_of(member(&value, "x")), 5);
    assert_eq!(members(&value).len(), 2);
}
