//! A generic protobuf wire-format decoder. It reads tag/wire-type/length-value
//! fields from raw binary and maps them to values according to a runtime
//! [`Schema`] descriptor, so no precompiled `.proto` files are needed.
//!
//! - Wire types are validated against the schema; mismatches are skipped.
//! - Repeated fields produce arrays; non-repeated fields take the last valid
//!   occurrence, which is robust to trailing garbage.

use vstd::prelude::*;
use vstd::bytes::{spec_u32_from_le_bytes, spec_u64_from_le_bytes, u32_from_le_bytes, u64_from_le_bytes};
use vstd::utf8::{decode_utf8, valid_utf8};

use crate::proto::schema::{FieldDef, ProtoType, Schema};
use crate::proto::wire::{law_varint_field_round_trip, varint_encoding, lemma_scan_payloads_shorter, payload_len, law_trailing_bytes_keep_fields, parse_raw_fields, raw_fields, raw_view, scans_completely, RawData, RawDataView, RawField, RawFieldView, WireType};

verus! {

/// A decoded value, as a JSON-like tree. Floating-point values are carried as
/// their IEEE bit patterns.
#[derive(Debug)]
pub enum Decoded {
    Int(i64),
    Bool(bool),
    Text(String),
    /// The bits of an IEEE double.
    Double(u64),
    /// The bits of an IEEE float.
    Float(u32),
    Array(Vec<Decoded>),
    /// Named members, in schema order.
    Object(Vec<(String, Decoded)>),
}

/// The mathematical form of a decoded value.
pub enum DecodedView {
    Int(i64),
    Bool(bool),
    Text(Seq<char>),
    Double(u64),
    Float(u32),
    Array(Seq<DecodedView>),
    Object(Seq<(Seq<char>, DecodedView)>),
}

impl View for Decoded {
    type V = DecodedView;

    open spec fn view(&self) -> DecodedView
        decreases self,
    {
        match self {
            Decoded::Int(i) => DecodedView::Int(*i),
            Decoded::Bool(b) => DecodedView::Bool(*b),
            Decoded::Text(s) => DecodedView::Text(s@),
            Decoded::Double(bits) => DecodedView::Double(*bits),
            Decoded::Float(bits) => DecodedView::Float(*bits),
            Decoded::Array(v) => DecodedView::Array(values_view(v@)),
            Decoded::Object(v) => DecodedView::Object(members_view(v@)),
        }
    }
}

/// The views of a list of values.
pub open spec fn values_view(v: Seq<Decoded>) -> Seq<DecodedView>
    decreases v,
{
    if v.len() == 0 {
        Seq::empty()
    } else {
        values_view(v.drop_last()).push(v.last()@)
    }
}

/// The views of a list of named members.
pub open spec fn members_view(v: Seq<(String, Decoded)>) -> Seq<(Seq<char>, DecodedView)>
    decreases v,
{
    if v.len() == 0 {
        Seq::empty()
    } else {
        members_view(v.drop_last()).push((v.last().0@, v.last().1@))
    }
}

/// The error type of the decoder.
#[derive(Debug)]
pub struct ProtoError(pub String);

impl ProtoError {
    /// The message of the error, as it is displayed.
    pub fn message(&self) -> (s: String)
        ensures
            s@ == self.0@,
    {
        self.0.clone()
    }
}

/// What the standard Base64 engine of the `base64` crate renders `bytes` as.
pub uninterp spec fn base64_standard(bytes: Seq<u8>) -> Seq<char>;

/// What `String::from_utf8_lossy` makes of `bytes`.
pub uninterp spec fn utf8_lossy(bytes: Seq<u8>) -> Seq<char>;

/// Renders bytes in standard Base64 with the `base64` crate's `STANDARD`
/// engine. Trusted: the result is named, not stated. The engine panics when
/// the padded output length overflows `usize`, which the precondition rules
/// out.
#[verifier::external_body]
fn base64_encode(bytes: &[u8]) -> (s: String)
    requires
        bytes@.len() % 3 == 0 ==> bytes@.len() / 3 * 4 <= usize::MAX,
        bytes@.len() % 3 != 0 ==> bytes@.len() / 3 * 4 + 4 <= usize::MAX,
    ensures
        s@ == base64_standard(bytes@),
{
    base64::Engine::encode(&base64::engine::general_purpose::STANDARD, bytes)
}

/// Converts bytes to a string with `String::from_utf8_lossy`. Trusted: the
/// result is named; its documentation gives that valid UTF-8 is decoded as is
/// (invalid sequences become U+FFFD, which is left to the name).
#[verifier::external_body]
fn lossy_string(bytes: &[u8]) -> (s: String)
    ensures
        s@ == utf8_lossy(bytes@),
        valid_utf8(bytes@) ==> s@ == decode_utf8(bytes@),
{
    String::from_utf8_lossy(bytes).into_owned()
}

/// The fields of `raw` with field number `tag`, in wire order.
pub open spec fn occurrences(raw: Seq<RawFieldView>, tag: u32) -> Seq<RawFieldView> {
    raw.filter(|f: RawFieldView| f.field == tag)
}

/// The value of one occurrence under the field type `ty`, or `None` when its
/// wire type does not match the type (such occurrences are skipped).
pub open spec fn item_value_of(item: RawFieldView, ty: ProtoType) -> Option<DecodedView>
    decreases ty, 0nat,
{
    match ty {
        ProtoType::Int | ProtoType::Long => if item.wire_type != WireType::Varint {
            None
        } else {
            match item.data {
                RawDataView::Varint(v) => Some(DecodedView::Int(v as i64)),
                _ => None,
            }
        },
        ProtoType::Bool => if item.wire_type != WireType::Varint {
            None
        } else {
            match item.data {
                RawDataView::Varint(v) => Some(DecodedView::Bool(v == 1)),
                _ => None,
            }
        },
        ProtoType::String => if item.wire_type != WireType::LengthDelimited {
            None
        } else {
            match item.data {
                RawDataView::Bytes(b) => Some(
                    DecodedView::Text(
                        if valid_utf8(b) {
                            decode_utf8(b)
                        } else {
                            utf8_lossy(b)
                        },
                    ),
                ),
                _ => None,
            }
        },
        ProtoType::Bytes => if item.wire_type != WireType::LengthDelimited {
            None
        } else {
            match item.data {
                RawDataView::Bytes(b) => Some(DecodedView::Text(base64_standard(b))),
                _ => None,
            }
        },
        ProtoType::Message(sub) => if item.wire_type != WireType::LengthDelimited {
            None
        } else {
            match item.data {
                RawDataView::Bytes(b) => Some(
                    DecodedView::Object(object_members(raw_fields(b), sub.fields@)),
                ),
                _ => None,
            }
        },
        ProtoType::Double => if item.wire_type != WireType::Fixed64 {
            None
        } else {
            match item.data {
                RawDataView::Bytes(b) => if b.len() == 8 {
                    Some(DecodedView::Double(spec_u64_from_le_bytes(b)))
                } else {
                    None
                },
                _ => None,
            }
        },
        ProtoType::Float => if item.wire_type != WireType::Fixed32 {
            None
        } else {
            match item.data {
                RawDataView::Bytes(b) => if b.len() == 4 {
                    Some(DecodedView::Float(spec_u32_from_le_bytes(b)))
                } else {
                    None
                },
                _ => None,
            }
        },
    }
}

/// The values of all valid occurrences, in wire order.
pub open spec fn valid_values(items: Seq<RawFieldView>, ty: ProtoType) -> Seq<DecodedView>
    decreases ty, items.len(),
{
    if items.len() == 0 {
        Seq::empty()
    } else {
        let prev = valid_values(items.drop_last(), ty);
        match item_value_of(items.last(), ty) {
            Some(v) => prev.push(v),
            None => prev,
        }
    }
}

/// The value of the last valid occurrence, if any.
pub open spec fn last_valid(items: Seq<RawFieldView>, ty: ProtoType) -> Option<DecodedView>
    decreases ty, items.len(),
{
    if items.len() == 0 {
        None
    } else {
        match item_value_of(items.last(), ty) {
            Some(v) => Some(v),
            None => last_valid(items.drop_last(), ty),
        }
    }
}

/// The index of the last member named `name`, or -1 when there is none.
pub open spec fn position_of(m: Seq<(Seq<char>, DecodedView)>, name: Seq<char>) -> int
    decreases m.len(),
{
    if m.len() == 0 {
        -1
    } else if m.last().0 == name {
        m.len() - 1
    } else {
        position_of(m.drop_last(), name)
    }
}

/// Sets the member `name` to `v`: a member of that name keeps its place and
/// takes the new value; otherwise the member is added at the end.
pub open spec fn put_member(m: Seq<(Seq<char>, DecodedView)>, name: Seq<char>, v: DecodedView) -> Seq<(Seq<char>, DecodedView)> {
    let p = position_of(m, name);
    if p >= 0 {
        m.update(p, (name, v))
    } else {
        m.push((name, v))
    }
}

/// The members that the schema fields `fields` give for the raw fields `raw`,
/// in schema order: a field with no occurrence is left out; a repeated field
/// is an array of its valid occurrences; a non-repeated field takes its last
/// valid occurrence and is left out when it has none. A field whose name an
/// earlier field already gave replaces that member's value.
pub open spec fn object_members(raw: Seq<RawFieldView>, fields: Seq<(u32, FieldDef)>) -> Seq<(Seq<char>, DecodedView)>
    decreases fields, 0nat,
{
    if fields.len() == 0 {
        Seq::empty()
    } else {
        let prev = object_members(raw, fields.drop_last());
        let tag = fields.last().0;
        let def = fields.last().1;
        let items = occurrences(raw, tag);
        if items.len() == 0 {
            prev
        } else if def.repeated {
            put_member(prev, def.name@, DecodedView::Array(valid_values(items, def.ty)))
        } else {
            match last_valid(items, def.ty) {
                Some(v) => put_member(prev, def.name@, v),
                None => prev,
            }
        }
    }
}

/// What `decode` gives for a buffer under a schema: an object of the members
/// that the schema selects from the buffer's raw fields.
pub open spec fn decoded_message(buf: Seq<u8>, schema: Schema) -> DecodedView {
    DecodedView::Object(object_members(raw_fields(buf), schema.fields@))
}


/// A varint occurrence read as an integer keeps all 64 bits of its value,
/// under `Long` and `Int` alike; a value below 2^63 is read as itself.
pub proof fn law_integer_occurrence_keeps_its_value(x: RawFieldView, v: u64)
    requires
        x.wire_type == WireType::Varint,
        x.data == RawDataView::Varint(v),
    ensures
        item_value_of(x, ProtoType::Long) == Some(DecodedView::Int(v as i64)),
        item_value_of(x, ProtoType::Int) == Some(DecodedView::Int(v as i64)),
        v < 0x8000_0000_0000_0000 ==> (item_value_of(x, ProtoType::Long) matches Some(DecodedView::Int(i))
            && i == v),
        v < 0x8000_0000_0000_0000 ==> (item_value_of(x, ProtoType::Int) matches Some(DecodedView::Int(i))
            && i == v),
{
}

/// A message holding one varint field `f = v` decodes, under a schema whose
/// only field is a non-repeated integer field numbered `f`, to the single
/// member of that name holding `v` itself.
pub proof fn law_integer_field_decodes_to_its_value(f: u32, v: u64, schema: Schema)
    requires
        f >= 1,
        v < 0x8000_0000_0000_0000,
        schema.fields@.len() == 1,
        schema.fields@[0].0 == f,
        !schema.fields@[0].1.repeated,
        schema.fields@[0].1.ty is Long || schema.fields@[0].1.ty is Int,
    ensures
        decoded_message(varint_encoding(8 * f as nat) + varint_encoding(v as nat), schema) == DecodedView::Object(
            seq![(schema.fields@[0].1.name@, DecodedView::Int(v as i64))],
        ),
        (v as i64) == v,
{
    let buf = varint_encoding(8 * f as nat) + varint_encoding(v as nat);
    law_varint_field_round_trip(f, v);
    let x = RawFieldView { field: f, wire_type: WireType::Varint, data: RawDataView::Varint(v) };
    let raw = raw_fields(buf);
    assert(raw == seq![x]);
    let fields = schema.fields@;
    assert(fields.drop_last() =~= Seq::<(u32, FieldDef)>::empty());
    reveal_with_fuel(Seq::<_>::filter, 2);
    assert(seq![x].drop_last() =~= Seq::<RawFieldView>::empty());
    assert(occurrences(raw, f) =~= seq![x]);
    let items = occurrences(raw, f);
    assert(items.last() == x);
    let def = fields[0].1;
    assert(item_value_of(x, def.ty) == Some(DecodedView::Int(v as i64)));
    assert(last_valid(items, def.ty) == Some(DecodedView::Int(v as i64)));
    let empty = Seq::<(Seq<char>, DecodedView)>::empty();
    assert(position_of(empty, def.name@) == -1);
    assert(object_members(raw, fields.drop_last()) == empty);
    assert(fields.last() == fields[0]);
    assert(items.len() == 1);
    assert(put_member(empty, def.name@, DecodedView::Int(v as i64)) =~= seq![(def.name@, DecodedView::Int(v as i64))]);
    assert(object_members(raw, fields) == put_member(empty, def.name@, DecodedView::Int(v as i64)));
}

/// An occurrence whose wire type does not fit the field type is skipped: it
/// changes neither the values of a repeated field nor the value of a
/// non-repeated one.
pub proof fn law_mismatched_occurrence_is_skipped(items: Seq<RawFieldView>, x: RawFieldView, ty: ProtoType)
    requires
        item_value_of(x, ty) is None,
    ensures
        valid_values(items.push(x), ty) == valid_values(items, ty),
        last_valid(items.push(x), ty) == last_valid(items, ty),
{
    assert(items.push(x).drop_last() =~= items);
}

/// A non-repeated field takes its last valid occurrence: a valid occurrence
/// after any others decides the value, and a repeated field gains it at the
/// end of its array.
pub proof fn law_last_valid_occurrence_wins(items: Seq<RawFieldView>, x: RawFieldView, ty: ProtoType)
    requires
        item_value_of(x, ty) is Some,
    ensures
        last_valid(items.push(x), ty) == item_value_of(x, ty),
        valid_values(items.push(x), ty) == valid_values(items, ty).push(item_value_of(x, ty)->0),
{
    assert(items.push(x).drop_last() =~= items);
}

/// Fields whose number the schema does not list do not change what is
/// decoded, wherever they stand.
pub proof fn law_unlisted_field_is_ignored(
    before: Seq<RawFieldView>,
    x: RawFieldView,
    after: Seq<RawFieldView>,
    fields: Seq<(u32, FieldDef)>,
)
    requires
        forall|i: int| 0 <= i < fields.len() ==> #[trigger] fields[i].0 != x.field,
    ensures
        object_members(before + seq![x] + after, fields) == object_members(before + after, fields),
    decreases fields.len(),
{
    if fields.len() > 0 {
        let rest = fields.drop_last();
        assert forall|i: int| 0 <= i < rest.len() implies #[trigger] rest[i].0 != x.field by {
            assert(rest[i] == fields[i]);
        }
        law_unlisted_field_is_ignored(before, x, after, rest);
        let tag = fields.last().0;
        assert(fields[fields.len() - 1].0 != x.field);
        let p = |f: RawFieldView| f.field == tag;
        Seq::filter_distributes_over_add(before + seq![x], after, p);
        Seq::filter_distributes_over_add(before, seq![x], p);
        Seq::filter_distributes_over_add(before, after, p);
        reveal_with_fuel(Seq::<_>::filter, 2);
        assert(seq![x].drop_last() =~= Seq::<RawFieldView>::empty());
        assert(seq![x].filter(p) =~= Seq::<RawFieldView>::empty());
        assert(occurrences(before + seq![x] + after, tag) =~= occurrences(before + after, tag));
    }
}

/// Bytes after a whole message that hold no field (such as a malformed
/// tail) do not change what is decoded.
pub proof fn law_trailing_garbage_is_ignored(a: Seq<u8>, b: Seq<u8>, schema: Schema)
    requires
        scans_completely(a),
        raw_fields(b).len() == 0,
    ensures
        decoded_message(a + b, schema) == decoded_message(a, schema),
{
    law_trailing_bytes_keep_fields(a, b);
    assert(raw_fields(a) + raw_fields(b) =~= raw_fields(a));
}

/// The value of one occurrence under the field type `ty`.
fn item_value(item: &RawField, ty: &ProtoType) -> (r: Option<Decoded>)
    requires
        payload_len(item@) <= isize::MAX,
    ensures
        r is Some <==> item_value_of(item@, *ty) is Some,
        r matches Some(v) ==> item_value_of(item@, *ty) == Some(v@),
    decreases *ty, 0nat,
{
    let wt = item.wire_type;
    match ty {
        ProtoType::Int | ProtoType::Long => {
            if wt != WireType::Varint {
                return None;
            }
            match &item.data {
                RawData::Varint(v) => Some(Decoded::Int(*v as i64)),
                _ => None,
            }
        },
        ProtoType::Bool => {
            if wt != WireType::Varint {
                return None;
            }
            match &item.data {
                RawData::Varint(v) => Some(Decoded::Bool(*v == 1)),
                _ => None,
            }
        },
        ProtoType::String => {
            if wt != WireType::LengthDelimited {
                return None;
            }
            match &item.data {
                RawData::Bytes(b) => Some(Decoded::Text(lossy_string(b.as_slice()))),
                _ => None,
            }
        },
        ProtoType::Bytes => {
            if wt != WireType::LengthDelimited {
                return None;
            }
            match &item.data {
                RawData::Bytes(b) => Some(Decoded::Text(base64_encode(b.as_slice()))),
                _ => None,
            }
        },
        ProtoType::Message(sub) => {
            if wt != WireType::LengthDelimited {
                return None;
            }
            match &item.data {
                RawData::Bytes(b) => {
                    match decode(b.as_slice(), &**sub) {
                        Ok(v) => Some(v),
                        Err(_) => None,
                    }
                },
                _ => None,
            }
        },
        ProtoType::Double => {
            if wt != WireType::Fixed64 {
                return None;
            }
            match &item.data {
                RawData::Bytes(b) => {
                    if b.len() == 8 {
                        Some(Decoded::Double(u64_from_le_bytes(b.as_slice())))
                    } else {
                        None
                    }
                },
                _ => None,
            }
        },
        ProtoType::Float => {
            if wt != WireType::Fixed32 {
                return None;
            }
            match &item.data {
                RawData::Bytes(b) => {
                    if b.len() == 4 {
                        Some(Decoded::Float(u32_from_le_bytes(b.as_slice())))
                    } else {
                        None
                    }
                },
                _ => None,
            }
        },
    }
}

/// The occurrences of `tag` among the first `j + 1` raw fields are those
/// among the first `j`, and the field at `j` when it has that number.
proof fn lemma_occurrences_step(raw: Seq<RawFieldView>, tag: u32, j: int)
    requires
        0 <= j < raw.len(),
    ensures
        occurrences(raw.take(j + 1), tag) == (if raw[j].field == tag {
            occurrences(raw.take(j), tag).push(raw[j])
        } else {
            occurrences(raw.take(j), tag)
        }),
{
    reveal_with_fuel(Seq::<_>::filter, 1);
    assert(raw.take(j + 1).drop_last() =~= raw.take(j));
}

/// The values of all valid occurrences of `tag` in `raw`, and whether `tag`
/// occurs at all.
fn collect_repeated(raw: &Vec<RawField>, tag: u32, ty: &ProtoType) -> (r: (Vec<Decoded>, bool))
    requires
        forall|k: int| 0 <= k < raw@.len() ==> payload_len(#[trigger] raw@[k]@) <= isize::MAX,
    ensures
        values_view(r.0@) == valid_values(occurrences(raw_view(raw@), tag), *ty),
        r.1 == (occurrences(raw_view(raw@), tag).len() > 0),
    decreases *ty, 1nat,
{
    let ghost all = raw_view(raw@);
    let mut arr: Vec<Decoded> = Vec::new();
    let mut found = false;
    let mut j: usize = 0;
    while j < raw.len()
        invariant
            j <= raw.len(),
            all == raw_view(raw@),
            forall|k: int| 0 <= k < raw@.len() ==> payload_len(#[trigger] raw@[k]@) <= isize::MAX,
            values_view(arr@) == valid_values(occurrences(all.take(j as int), tag), *ty),
            found == (occurrences(all.take(j as int), tag).len() > 0),
        decreases raw.len() - j,
    {
        proof {
            lemma_occurrences_step(all, tag, j as int);
        }
        let ghost before = arr@;
        if raw[j].field == tag {
            found = true;
            let ghost items = occurrences(all.take(j + 1), tag);
            assert(items.drop_last() == occurrences(all.take(j as int), tag));
            assert(items.last() == raw[j as int]@);
            match item_value(&raw[j], ty) {
                Some(v) => {
                    arr.push(v);
                    assert(arr@.drop_last() =~= before);
                },
                None => {},
            }
        }
        j += 1;
    }
    assert(all.take(raw.len() as int) =~= all);
    (arr, found)
}

/// The value of the last valid occurrence of `tag` in `raw`, if any.
fn find_last_valid(raw: &Vec<RawField>, tag: u32, ty: &ProtoType) -> (r: Option<Decoded>)
    requires
        forall|k: int| 0 <= k < raw@.len() ==> payload_len(#[trigger] raw@[k]@) <= isize::MAX,
    ensures
        r is Some <==> last_valid(occurrences(raw_view(raw@), tag), *ty) is Some,
        r matches Some(v) ==> last_valid(occurrences(raw_view(raw@), tag), *ty) == Some(v@),
    decreases *ty, 1nat,
{
    let ghost all = raw_view(raw@);
    let mut j: usize = raw.len();
    assert(all.take(raw.len() as int) =~= all);
    while j > 0
        invariant
            j <= raw.len(),
            all == raw_view(raw@),
            forall|k: int| 0 <= k < raw@.len() ==> payload_len(#[trigger] raw@[k]@) <= isize::MAX,
            last_valid(occurrences(all, tag), *ty) == last_valid(occurrences(all.take(j as int), tag), *ty),
        decreases j,
    {
        j -= 1;
        proof {
            lemma_occurrences_step(all, tag, j as int);
        }
        if raw[j].field == tag {
            let ghost items = occurrences(all.take(j + 1), tag);
            assert(items.drop_last() == occurrences(all.take(j as int), tag));
            assert(items.last() == raw[j as int]@);
            match item_value(&raw[j], ty) {
                Some(v) => {
                    return Some(v);
                },
                None => {},
            }
        }
    }
    None
}

proof fn lemma_members_view_index(v: Seq<(String, Decoded)>)
    ensures
        members_view(v).len() == v.len(),
        forall|k: int| 0 <= k < v.len() ==> #[trigger] members_view(v)[k] == (v[k].0@, v[k].1@),
    decreases v.len(),
{
    if v.len() > 0 {
        lemma_members_view_index(v.drop_last());
        assert(members_view(v) == members_view(v.drop_last()).push((v.last().0@, v.last().1@)));
    }
}

/// Sets the member `name` to `value`, in place when a member of that name is
/// there already, at the end otherwise.
fn put(members: &mut Vec<(String, Decoded)>, name: String, value: Decoded)
    ensures
        members_view(final(members)@) == put_member(members_view(old(members)@), name@, value@),
{
    let ghost mv = members_view(members@);
    proof {
        lemma_members_view_index(members@);
    }
    let mut j = members.len();
    assert(mv.take(j as int) =~= mv);
    while j > 0
        invariant
            j <= members.len(),
            mv == members_view(members@),
            mv == members_view(old(members)@),
            mv.len() == members@.len(),
            forall|k: int| 0 <= k < members@.len() ==> #[trigger] mv[k] == (members@[k].0@, members@[k].1@),
            position_of(mv, name@) == position_of(mv.take(j as int), name@),
        decreases j,
    {
        assert(mv.take(j as int).drop_last() =~= mv.take(j - 1));
        assert(mv.take(j as int).last() == mv[j - 1]);
        if members[j - 1].0 == name {
            let ghost before = members@;
            let ghost new_member = (name@, value@);
            assert(mv[j - 1].0 == name@);
            assert(position_of(mv.take(j as int), name@) == j - 1);
            assert(put_member(mv, name@, value@) == mv.update(j - 1, new_member));
            members.set(j - 1, (name, value));
            proof {
                lemma_members_view_index(members@);
                assert(members_view(members@) =~= mv.update(j - 1, new_member));
                assert(mv == members_view(old(members)@));
                assert(new_member == (name@, value@));
            }
            return;
        }
        j -= 1;
    }
    assert(mv.take(0) =~= Seq::<(Seq<char>, DecodedView)>::empty());
    let ghost before = members@;
    members.push((name, value));
    proof {
        assert(members@.drop_last() =~= before);
        assert(members_view(members@) == members_view(before).push((members@.last().0@, members@.last().1@)));
    }
}

/// Decodes a protobuf buffer into an object according to `schema`. The
/// decoder never fails: malformed input only yields fewer members.
pub fn decode(buf: &[u8], schema: &Schema) -> (r: Result<Decoded, ProtoError>)
    requires
        buf@.len() <= isize::MAX,
    ensures
        r matches Ok(v) && v@ == decoded_message(buf@, *schema),
    decreases *schema, 0nat,
{
    let raw = parse_raw_fields(buf);
    let ghost all = raw_view(raw@);
    proof {
        lemma_scan_payloads_shorter(buf@, 0);
        assert forall|k: int| 0 <= k < raw@.len() implies payload_len(#[trigger] raw@[k]@) <= isize::MAX by {
            assert(all[k] == raw@[k]@);
        }
    }
    let mut result: Vec<(String, Decoded)> = Vec::new();
    let mut i: usize = 0;
    while i < schema.fields.len()
        invariant
            i <= schema.fields.len(),
            all == raw_fields(buf@),
            all == raw_view(raw@),
            forall|k: int| 0 <= k < raw@.len() ==> payload_len(#[trigger] raw@[k]@) <= isize::MAX,
            members_view(result@) == object_members(all, schema.fields@.take(i as int)),
        decreases schema.fields.len() - i,
    {
        let entry = &schema.fields[i];
        let tag = entry.0;
        let def = &entry.1;
        let ghost before = result@;
        let ghost prefix = schema.fields@.take(i + 1);
        assert(prefix.drop_last() =~= schema.fields@.take(i as int));
        assert(prefix.last() == schema.fields@[i as int]);
        if def.repeated {
            let (arr, found) = collect_repeated(&raw, tag, &def.ty);
            if found {
                put(&mut result, def.name.clone(), Decoded::Array(arr));
            }
        } else {
            match find_last_valid(&raw, tag, &def.ty) {
                Some(v) => {
                    put(&mut result, def.name.clone(), v);
                },
                None => {},
            }
        }
        i += 1;
    }
    assert(schema.fields@.take(schema.fields.len() as int) =~= schema.fields@);
    Ok(Decoded::Object(result))
}

} // verus!
