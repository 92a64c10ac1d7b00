use garupa::proto::dump::{dump_raw, entries_containing_fields, first_entry_dump, DumpContent, RawDump};
use garupa::proto::usage::{top_field_union, FieldUsage};
use garupa::proto::wire::WireType;

/// Two list entries under field 1: the first holds field 1 = 5 and
/// field 2 = "hi", the second field 1 = 7 and a fixed32 field 3.
fn two_entry_list() -> Vec<u8> {
    let entry1 = [0x08, 0x05, 0x12, 0x02, b'h', b'i'];
    let entry2 = [0x08, 0x07, 0x1d, 1, 2, 3, 4];
    let mut list = vec![0x0a, entry1.len() as u8];
    list.extend_from_slice(&entry1);
    list.push(0x0a);
    list.push(entry2.len() as u8);
    list.extend_from_slice(&entry2);
    list
}

fn nested(d: &RawDump) -> &Vec<RawDump> {
    match &d.content {
        DumpContent::Message(m) => m,
        other => panic!("not a nested message: {:?}", other),
    }
}

#[test]
fn dump_shows_varints_text_messages_and_bytes() {
    let mut buf = vec![0x08, 0x2a];
    buf.extend_from_slice(&[0x12, 0x03, b'a', b'b', b'c']);
    buf.extend_from_slice(&[0x1a, 0x00]);
    buf.extend_from_slice(&[0x22, 0x01, 0xff]);
    buf.extend_from_slice(&[0x2a, 0x02, 0x08, 0x01]);
    let d = dump_raw(&buf);
    assert_eq!(d.len(), 5);
    assert_eq!((d[0].field, d[0].wire), (1, WireType::Varint));
    assert!(matches!(d[0].content, DumpContent::Varint(42)));
    assert!(matches!(&d[1].content, DumpContent::Text(s) if s == "abc"));
    assert!(matches!(d[2].content, DumpContent::Bytes(0)));
    assert!(matches!(d[3].content, DumpContent::Bytes(1)));
    let inner = nested(&d[4]);
    assert_eq!(inner.len(), 1);
    assert!(matches!(inner[0].content, DumpContent::Varint(1)));
}

#[test]
fn dump_parses_entries_with_control_bytes_as_messages() {
    let d = dump_raw(&two_entry_list());
    assert_eq!(d.len(), 2);
    let first = nested(&d[0]);
    assert_eq!(first.len(), 2);
    assert!(matches!(&first[1].content, DumpContent::Text(s) if s == "hi"));
    let second = nested(&d[1]);
    assert_eq!((second[1].field, second[1].wire), (3, WireType::Fixed32));
    assert!(matches!(second[1].content, DumpContent::Bytes(4)));
}

#[test]
fn first_entry_dump_finds_the_first_field_one_payload() {
    let mut buf = vec![0x08, 0x01, 0x12, 0x01, b'x'];
    buf.extend_from_slice(&two_entry_list());
    let d = first_entry_dump(&buf).expect("an entry");
    assert_eq!(d.len(), 2);
    assert!(matches!(d[0].content, DumpContent::Varint(5)));
    assert!(first_entry_dump(&[0x08, 0x01]).is_none());
    assert!(first_entry_dump(&[]).is_none());
}

#[test]
fn field_union_counts_wire_types_per_field_in_order() {
    let list = two_entry_list();
    let all = top_field_union(&list, 10);
    assert_eq!(
        all,
        vec![
            FieldUsage { field: 1, varint: 2, fixed64: 0, length_delimited: 0, fixed32: 0 },
            FieldUsage { field: 2, varint: 0, fixed64: 0, length_delimited: 1, fixed32: 0 },
            FieldUsage { field: 3, varint: 0, fixed64: 0, length_delimited: 0, fixed32: 1 },
        ]
    );
    let first = top_field_union(&list, 1);
    assert_eq!(
        first,
        vec![
            FieldUsage { field: 1, varint: 1, fixed64: 0, length_delimited: 0, fixed32: 0 },
            FieldUsage { field: 2, varint: 0, fixed64: 0, length_delimited: 1, fixed32: 0 },
        ]
    );
    assert!(top_field_union(&list, 0).is_empty());
}

#[test]
fn entries_containing_fields_respects_fields_and_limit() {
    let list = two_entry_list();
    let with_three = entries_containing_fields(&list, &[3], 5);
    assert_eq!(with_three.len(), 1);
    assert!(matches!(with_three[0][0].content, DumpContent::Varint(7)));
    let with_one = entries_containing_fields(&list, &[1], 1);
    assert_eq!(with_one.len(), 1);
    assert!(matches!(with_one[0][0].content, DumpContent::Varint(5)));
    assert_eq!(entries_containing_fields(&list, &[1], 5).len(), 2);
    assert!(entries_containing_fields(&list, &[1], 0).is_empty());
    assert!(entries_containing_fields(&list, &[9], 5).is_empty());
}

#[test]
fn larger_samples_keep_fields_and_counts() {
    let list = two_entry_list();
    let small = top_field_union(&list, 1);
    let large = top_field_union(&list, 2);
    for u in &small {
        let v = large.iter().find(|v| v.field == u.field).expect("field kept");
        assert!(v.varint >= u.varint && v.fixed64 >= u.fixed64);
        assert!(v.length_delimited >= u.length_delimited && v.fixed32 >= u.fixed32);
    }
}
