//! Raw dumps of protobuf buffers, used for schema discovery: every raw field
//! with its number and wire type; printable strings are shown as text and
//! other length-delimited payloads are re-parsed as nested messages.

use vstd::prelude::*;
use vstd::utf8::{decode_utf8, valid_utf8};

use crate::proto::wire::{law_length_delimited_field_round_trip, varint_encoding, lemma_scan_payloads_shorter, parse_raw_fields, raw_fields, raw_view, RawData, RawDataView, RawField, RawFieldView, WireType};

verus! {

/// What a dumped field shows.
#[derive(Debug)]
pub enum DumpContent {
    /// A varint value.
    Varint(u64),
    /// A non-empty payload that is valid UTF-8 without control characters.
    Text(String),
    /// A payload re-parsed as a nested message with at least one field.
    Message(Vec<RawDump>),
    /// Any other payload, shown by its length.
    Bytes(usize),
}

/// One dumped raw field.
#[derive(Debug)]
pub struct RawDump {
    pub field: u32,
    pub wire: WireType,
    pub content: DumpContent,
}

/// The mathematical form of what a dumped field shows.
pub enum DumpContentView {
    Varint(u64),
    Text(Seq<char>),
    Message(Seq<RawDumpView>),
    Bytes(nat),
}

/// The mathematical form of a dumped field.
pub struct RawDumpView {
    pub field: u32,
    pub wire: WireType,
    pub content: DumpContentView,
}

impl View for DumpContent {
    type V = DumpContentView;

    open spec fn view(&self) -> DumpContentView
        decreases self,
    {
        match self {
            DumpContent::Varint(v) => DumpContentView::Varint(*v),
            DumpContent::Text(s) => DumpContentView::Text(s@),
            DumpContent::Message(m) => DumpContentView::Message(dumps_view(m@)),
            DumpContent::Bytes(n) => DumpContentView::Bytes(*n as nat),
        }
    }
}

impl View for RawDump {
    type V = RawDumpView;

    open spec fn view(&self) -> RawDumpView
        decreases self,
    {
        RawDumpView { field: self.field, wire: self.wire, content: self.content.view() }
    }
}

/// The views of a list of dumped fields.
pub open spec fn dumps_view(v: Seq<RawDump>) -> Seq<RawDumpView>
    decreases v,
{
    if v.len() == 0 {
        Seq::empty()
    } else {
        dumps_view(v.drop_last()).push(v.last()@)
    }
}

proof fn lemma_dumps_view_len(v: Seq<RawDump>)
    ensures
        dumps_view(v).len() == v.len(),
    decreases v.len(),
{
    if v.len() > 0 {
        lemma_dumps_view_len(v.drop_last());
        assert(dumps_view(v) == dumps_view(v.drop_last()).push(v.last()@));
    } else {
        assert(dumps_view(v) == Seq::<RawDumpView>::empty());
    }
}

/// Unicode general category `Cc`, the characters `char::is_control` accepts.
pub open spec fn is_control(c: char) -> bool {
    c <= '\u{1f}' || ('\u{7f}' <= c && c <= '\u{9f}')
}

/// The text of a payload when it is shown as a string: it is non-empty,
/// valid UTF-8, and holds no control character.
pub open spec fn printable_text(b: Seq<u8>) -> Option<Seq<char>> {
    if b.len() > 0 && valid_utf8(b) && (forall|i: int| 0 <= i < decode_utf8(b).len() ==> !is_control(#[trigger] decode_utf8(b)[i])) {
        Some(decode_utf8(b))
    } else {
        None
    }
}

/// The dump of a whole buffer: one entry per raw field, in wire order.
pub open spec fn dump_of(buf: Seq<u8>) -> Seq<RawDumpView>
    decreases buf.len(), raw_fields(buf).len() + 1,
{
    dump_prefix(buf, raw_fields(buf).len())
}

/// The dump entries of the first `n` raw fields of `buf`.
pub open spec fn dump_prefix(buf: Seq<u8>, n: nat) -> Seq<RawDumpView>
    decreases buf.len(), n,
{
    let raw = raw_fields(buf);
    if n == 0 || n > raw.len() {
        Seq::empty()
    } else {
        let f = raw[n - 1];
        let content = match f.data {
            RawDataView::Varint(v) => DumpContentView::Varint(v),
            RawDataView::Bytes(b) => match printable_text(b) {
                Some(t) => DumpContentView::Text(t),
                None => {
                    proof {
                        lemma_scan_payloads_shorter(buf, 0);
                    }
                    let nested = dump_of(b);
                    if nested.len() == 0 {
                        DumpContentView::Bytes(b.len())
                    } else {
                        DumpContentView::Message(nested)
                    }
                },
            },
        };
        dump_prefix(buf, (n - 1) as nat).push(RawDumpView { field: f.field, wire: f.wire_type, content })
    }
}


proof fn lemma_dump_prefix_fields(buf: Seq<u8>, n: nat)
    requires
        n <= raw_fields(buf).len(),
    ensures
        dump_prefix(buf, n).len() == n,
        forall|i: int| 0 <= i < n ==> {
            &&& (#[trigger] dump_prefix(buf, n)[i]).field == raw_fields(buf)[i].field
            &&& dump_prefix(buf, n)[i].wire == raw_fields(buf)[i].wire_type
        },
    decreases n,
{
    if n > 0 {
        lemma_dump_prefix_fields(buf, (n - 1) as nat);
    }
}

/// A dump lists every raw field of the buffer, in wire order, with its field
/// number and wire type.
pub proof fn law_dump_lists_every_field(buf: Seq<u8>)
    ensures
        dump_of(buf).len() == raw_fields(buf).len(),
        forall|i: int| 0 <= i < dump_of(buf).len() ==> {
            &&& (#[trigger] dump_of(buf)[i]).field == raw_fields(buf)[i].field
            &&& dump_of(buf)[i].wire == raw_fields(buf)[i].wire_type
        },
{
    lemma_dump_prefix_fields(buf, raw_fields(buf).len());
}

/// A payload is shown as text exactly when it is non-empty, valid UTF-8,
/// and none of its characters lies in the control ranges U+0000..=U+001F
/// and U+007F..=U+009F; the text is then its decoded characters.
pub proof fn law_text_is_utf8_without_control_codes(b: Seq<u8>)
    ensures
        printable_text(b) == (if b.len() > 0 && valid_utf8(b) && (forall|i: int|
            0 <= i < decode_utf8(b).len() ==> !(#[trigger] decode_utf8(b)[i] <= '\u{1f}' || ('\u{7f}'
                <= decode_utf8(b)[i] && decode_utf8(b)[i] <= '\u{9f}'))) {
            Some(decode_utf8(b))
        } else {
            None
        }),
{
}

/// A length-delimited field whose payload is non-empty UTF-8 text with no
/// control character (any CJK text, say) dumps as that text.
pub proof fn law_text_field_dumps_as_text(f: u32, payload: Seq<u8>)
    requires
        f >= 1,
        payload.len() > 0,
        payload.len() < 0x8000_0000_0000_0000,
        valid_utf8(payload),
        forall|i: int| 0 <= i < decode_utf8(payload).len() ==> {
            let c = #[trigger] decode_utf8(payload)[i];
            '\u{20}' <= c && (c < '\u{7f}' || '\u{9f}' < c)
        },
    ensures
        dump_of(varint_encoding((8 * f + 2) as nat) + varint_encoding(payload.len()) + payload) == seq![
            RawDumpView {
                field: f,
                wire: WireType::LengthDelimited,
                content: DumpContentView::Text(decode_utf8(payload)),
            },
        ],
{
    let buf = varint_encoding((8 * f + 2) as nat) + varint_encoding(payload.len()) + payload;
    law_length_delimited_field_round_trip(f, payload);
    law_text_is_utf8_without_control_codes(payload);
    assert(printable_text(payload) == Some(decode_utf8(payload)));
    assert(raw_fields(buf).len() == 1);
    assert(dump_prefix(buf, 0) == Seq::<RawDumpView>::empty());
    assert(dump_of(buf) =~= seq![
        RawDumpView { field: f, wire: WireType::LengthDelimited, content: DumpContentView::Text(decode_utf8(payload)) },
    ]);
}

/// Reads bytes as UTF-8 with `std::str::from_utf8`. Trusted: it succeeds
/// exactly on valid UTF-8 and then holds the decoded characters.
#[verifier::external_body]
fn utf8_str(bytes: &[u8]) -> (r: Option<&str>)
    ensures
        r is Some <==> valid_utf8(bytes@),
        r matches Some(s) ==> s@ == decode_utf8(bytes@),
{
    std::str::from_utf8(bytes).ok()
}

/// Whether `c` is a control character.
fn is_control_char(c: char) -> (b: bool)
    ensures
        b == is_control(c),
{
    c <= '\u{1f}' || ('\u{7f}' <= c && c <= '\u{9f}')
}

/// Whether `s` holds no control character.
fn free_of_controls(s: &str) -> (b: bool)
    ensures
        b == (forall|i: int| 0 <= i < s@.len() ==> !is_control(#[trigger] s@[i])),
{
    broadcast use vstd::string::axiom_spec_iter;
    let ghost mut n: int = 0;
    for c in it: s.chars()
        invariant
            it.seq() == s@,
            forall|k: int| 0 <= k < it.index() ==> !is_control(#[trigger] s@[k]),
    {
        if is_control_char(c) {
            assert(s@[it.index() as int] == c);
            return false;
        }
    }
    true
}

/// The dump of a length-delimited or fixed payload.
fn dump_payload(b: &Vec<u8>) -> (r: DumpContent)
    ensures
        r@ == (match printable_text(b@) {
            Some(t) => DumpContentView::Text(t),
            None => if dump_of(b@).len() == 0 {
                DumpContentView::Bytes(b@.len())
            } else {
                DumpContentView::Message(dump_of(b@))
            },
        }),
    decreases b@.len(), 1nat,
{
    if b.len() > 0 {
        if let Some(s) = utf8_str(b.as_slice()) {
            if free_of_controls(s) {
                return DumpContent::Text(s.to_owned());
            }
        }
    }
    let nested = dump_raw(b.as_slice());
    proof {
        lemma_dumps_view_len(nested@);
    }
    if nested.len() == 0 {
        DumpContent::Bytes(b.len())
    } else {
        DumpContent::Message(nested)
    }
}

/// Dumps every raw field of a buffer, in wire order. Strings are detected when
/// the bytes are valid printable UTF-8; otherwise length-delimited data is
/// re-parsed recursively as a nested message.
pub fn dump_raw(buf: &[u8]) -> (r: Vec<RawDump>)
    ensures
        dumps_view(r@) == dump_of(buf@),
    decreases buf@.len(), 0nat,
{
    let raw = parse_raw_fields(buf);
    proof {
        lemma_scan_payloads_shorter(buf@, 0);
    }
    let ghost all = raw_fields(buf@);
    let mut out: Vec<RawDump> = Vec::new();
    let mut i: usize = 0;
    while i < raw.len()
        invariant
            i <= raw.len(),
            all == raw_fields(buf@),
            raw_view(raw@) == all,
            dumps_view(out@) == dump_prefix(buf@, i as nat),
            forall|k: int| #![trigger all[k]]
                0 <= k < all.len() ==> (all[k].data matches RawDataView::Bytes(b) ==> b.len() < buf@.len()),
        decreases raw.len() - i,
    {
        let f = &raw[i];
        assert(all[i as int] == f@);
        let content = match &f.data {
            RawData::Varint(v) => DumpContent::Varint(*v),
            RawData::Bytes(b) => dump_payload(b),
        };
        let ghost before = out@;
        let ghost content_view = content@;
        out.push(RawDump { field: f.field, wire: f.wire_type, content });
        assert(out@.drop_last() =~= before);
        assert(dumps_view(out@) == dumps_view(before).push(out@.last()@));
        assert(out@.last()@ == RawDumpView { field: f.field, wire: f.wire_type, content: content_view });
        assert(dump_prefix(buf@, (i + 1) as nat) == dump_prefix(buf@, i as nat).push(
            RawDumpView { field: all[i as int].field, wire: all[i as int].wire_type, content: content_view },
        ));
        i += 1;
    }
    out
}


/// An entry of a list wrapper: field 1 carrying a payload.
pub open spec fn is_list_entry(f: RawFieldView) -> bool {
    f.field == 1 && f.data is Bytes
}

/// The payload of a raw field (empty for a varint).
pub open spec fn payload(f: RawFieldView) -> Seq<u8> {
    match f.data {
        RawDataView::Bytes(b) => b,
        RawDataView::Varint(_) => Seq::empty(),
    }
}

/// The payload of the first list entry, if any.
pub open spec fn first_list_entry(raw: Seq<RawFieldView>) -> Option<Seq<u8>>
    decreases raw.len(),
{
    if raw.len() == 0 {
        None
    } else if is_list_entry(raw[0]) {
        Some(payload(raw[0]))
    } else {
        first_list_entry(raw.drop_first())
    }
}

/// Dumps the first entry of a field-1 list wrapper, if there is one.
pub fn first_entry_dump(buf: &[u8]) -> (r: Option<Vec<RawDump>>)
    ensures
        first_list_entry(raw_fields(buf@)) is None ==> r is None,
        first_list_entry(raw_fields(buf@)) matches Some(b) ==> (r matches Some(d) && dumps_view(d@) == dump_of(b)),
{
    let raw = parse_raw_fields(buf);
    let ghost all = raw_fields(buf@);
    let mut i: usize = 0;
    assert(all.skip(0) =~= all);
    while i < raw.len()
        invariant
            i <= raw.len(),
            all == raw_fields(buf@),
            raw_view(raw@) == all,
            first_list_entry(all) == first_list_entry(all.skip(i as int)),
        decreases raw.len() - i,
    {
        assert(all.skip(i as int)[0] == raw@[i as int]@);
        if raw[i].field == 1 {
            if let RawData::Bytes(b) = &raw[i].data {
                return Some(dump_raw(b.as_slice()));
            }
        }
        assert(all.skip(i as int).drop_first() =~= all.skip(i + 1));
        i += 1;
    }
    None
}

/// Whether any raw field of `b` has one of the numbers in `fields`.
pub open spec fn mentions_any(b: Seq<u8>, fields: Seq<u32>) -> bool {
    exists|k: int| 0 <= k < raw_fields(b).len() && fields.contains(#[trigger] raw_fields(b)[k].field)
}

/// A list entry whose payload mentions one of `fields`.
pub open spec fn probe_match(f: RawFieldView, fields: Seq<u32>) -> bool {
    is_list_entry(f) && mentions_any(payload(f), fields)
}

/// The list entries of `raw` whose payload mentions one of `fields`.
pub open spec fn probe_matches(raw: Seq<RawFieldView>, fields: Seq<u32>) -> Seq<RawFieldView> {
    raw.filter(|f: RawFieldView| probe_match(f, fields))
}

/// The dumps of the payloads of `entries`.
pub open spec fn payload_dumps(entries: Seq<RawFieldView>) -> Seq<Seq<RawDumpView>>
    decreases entries.len(),
{
    if entries.len() == 0 {
        Seq::empty()
    } else {
        payload_dumps(entries.drop_last()).push(dump_of(payload(entries.last())))
    }
}

/// The views of a list of dumps.
pub open spec fn dump_lists_view(v: Seq<Vec<RawDump>>) -> Seq<Seq<RawDumpView>> {
    v.map_values(|d: Vec<RawDump>| dumps_view(d@))
}

/// Whether `x` is among `fields`.
fn slice_has(fields: &[u32], x: u32) -> (b: bool)
    ensures
        b == fields@.contains(x),
{
    let mut i: usize = 0;
    while i < fields.len()
        invariant
            i <= fields.len(),
            forall|k: int| 0 <= k < i ==> fields@[k] != x,
        decreases fields.len() - i,
    {
        if fields[i] == x {
            return true;
        }
        i += 1;
    }
    false
}

/// Whether a payload mentions one of `fields`.
fn payload_mentions(b: &Vec<u8>, fields: &[u32]) -> (r: bool)
    ensures
        r == mentions_any(b@, fields@),
{
    let nested = parse_raw_fields(b.as_slice());
    let ghost inner = raw_fields(b@);
    let mut k: usize = 0;
    while k < nested.len()
        invariant
            k <= nested.len(),
            inner == raw_fields(b@),
            raw_view(nested@) == inner,
            forall|m: int| 0 <= m < k ==> !fields@.contains(#[trigger] inner[m].field),
        decreases nested.len() - k,
    {
        assert(inner[k as int] == nested@[k as int]@);
        if slice_has(fields, nested[k].field) {
            assert(fields@.contains(raw_fields(b@)[k as int].field));
            return true;
        }
        k += 1;
    }
    false
}

/// The entries matching among the first `j` fields come first among those
/// matching in all of them.
proof fn lemma_filter_take_prefix(raw: Seq<RawFieldView>, fields: Seq<u32>, j: int)
    requires
        0 <= j <= raw.len(),
    ensures
        probe_matches(raw, fields) == probe_matches(raw.take(j), fields) + probe_matches(raw.skip(j), fields),
{
    let p = |f: RawFieldView| probe_match(f, fields);
    assert(raw == raw.take(j) + raw.skip(j));
    Seq::filter_distributes_over_add(raw.take(j), raw.skip(j), p);
}

/// A payload mentions the numbers `fields` exactly when one of its raw
/// fields has a number equal to some element of `fields`, at any position.
pub proof fn law_mention_is_membership(b: Seq<u8>, fields: Seq<u32>)
    ensures
        mentions_any(b, fields) <==> exists|k: int, i: int|
            0 <= k < raw_fields(b).len() && 0 <= i < fields.len() && #[trigger] raw_fields(b)[k].field
                == #[trigger] fields[i],
{
    if mentions_any(b, fields) {
        let k = choose|k: int| 0 <= k < raw_fields(b).len() && fields.contains(#[trigger] raw_fields(b)[k].field);
        let i = choose|i: int| 0 <= i < fields.len() && fields[i] == raw_fields(b)[k].field;
        assert(raw_fields(b)[k].field == fields[i]);
    }
    if exists|k: int, i: int|
        0 <= k < raw_fields(b).len() && 0 <= i < fields.len() && #[trigger] raw_fields(b)[k].field
            == #[trigger] fields[i] {
        let (k, i) = choose|k: int, i: int|
            0 <= k < raw_fields(b).len() && 0 <= i < fields.len() && #[trigger] raw_fields(b)[k].field
                == #[trigger] fields[i];
        assert(fields.contains(raw_fields(b)[k].field));
    }
}

/// Looking for more field numbers never drops an entry: an entry chosen for
/// `fields` is chosen for any list holding all of `fields`.
pub proof fn law_more_fields_never_drop_an_entry(f: RawFieldView, fields: Seq<u32>, more: Seq<u32>)
    requires
        forall|i: int| 0 <= i < fields.len() ==> more.contains(#[trigger] fields[i]),
    ensures
        probe_match(f, fields) ==> probe_match(f, more),
{
    if probe_match(f, fields) {
        let b = payload(f);
        let k = choose|k: int| 0 <= k < raw_fields(b).len() && fields.contains(#[trigger] raw_fields(b)[k].field);
        let i = choose|i: int| 0 <= i < fields.len() && fields[i] == raw_fields(b)[k].field;
        assert(more.contains(fields[i]));
        assert(more.contains(raw_fields(b)[k].field));
    }
}

/// The order of the numbers looked for, and their repetition, do not matter:
/// two lists holding the same numbers choose the same entries.
pub proof fn law_field_order_does_not_matter(raw: Seq<RawFieldView>, fields: Seq<u32>, other: Seq<u32>)
    requires
        forall|x: u32| fields.contains(x) <==> other.contains(x),
    ensures
        probe_matches(raw, fields) == probe_matches(raw, other),
{
    assert forall|f: RawFieldView| probe_match(f, fields) == probe_match(f, other) by {
        assert forall|i: int| 0 <= i < fields.len() implies other.contains(#[trigger] fields[i]) by {
            assert(fields.contains(fields[i]));
        }
        assert forall|i: int| 0 <= i < other.len() implies fields.contains(#[trigger] other[i]) by {
            assert(other.contains(other[i]));
        }
        law_more_fields_never_drop_an_entry(f, fields, other);
        law_more_fields_never_drop_an_entry(f, other, fields);
    }
    let p1 = |f: RawFieldView| probe_match(f, fields);
    let p2 = |f: RawFieldView| probe_match(f, other);
    assert(p1 =~= p2);
}

/// The entries matching among the first `j + 1` fields.
proof fn lemma_probe_step(raw: Seq<RawFieldView>, fields: Seq<u32>, j: int)
    requires
        0 <= j < raw.len(),
    ensures
        probe_matches(raw.take(j + 1), fields) == (if probe_match(raw[j], fields) {
            probe_matches(raw.take(j), fields).push(raw[j])
        } else {
            probe_matches(raw.take(j), fields)
        }),
{
    reveal_with_fuel(Seq::<_>::filter, 1);
    assert(raw.take(j + 1).drop_last() =~= raw.take(j));
}

/// Dumps the first `limit` field-1 list-wrapper entries whose payload
/// contains any of the given field numbers.
pub fn entries_containing_fields(buf: &[u8], fields: &[u32], limit: usize) -> (r: Vec<Vec<RawDump>>)
    ensures
        ({
            let m = probe_matches(raw_fields(buf@), fields@);
            dump_lists_view(r@) == payload_dumps(m.take(if limit < m.len() { limit as int } else { m.len() as int }))
        }),
{
    let raw = parse_raw_fields(buf);
    let ghost all = raw_fields(buf@);
    let ghost fs = fields@;
    let mut out: Vec<Vec<RawDump>> = Vec::new();
    let mut j: usize = 0;
    assert(dump_lists_view(out@) =~= payload_dumps(probe_matches(all.take(0), fs)));
    assert(all.take(raw.len() as int) =~= all);
    assert(probe_matches(all, fs).take(probe_matches(all, fs).len() as int) =~= probe_matches(all, fs));
    while j < raw.len()
        invariant_except_break
            j <= raw.len(),
            fs == fields@,
            all.take(raw.len() as int) == all,
            probe_matches(all, fs).take(probe_matches(all, fs).len() as int) == probe_matches(all, fs),
            raw_view(raw@) == all,
            out.len() <= limit,
            out.len() == probe_matches(all.take(j as int), fs).len(),
            dump_lists_view(out@) == payload_dumps(probe_matches(all.take(j as int), fs)),
        ensures
            ({
                let m = probe_matches(all, fs);
                dump_lists_view(out@) == payload_dumps(m.take(if limit < m.len() { limit as int } else { m.len() as int }))
            }),
        decreases raw.len() - j,
    {
        let ghost prefix = probe_matches(all.take(j as int), fs);
        let ghost next = probe_matches(all.take(j + 1), fs);
        proof {
            lemma_probe_step(all, fs, j as int);
            assert(all[j as int] == raw@[j as int]@);
        }
        if raw[j].field == 1 {
            if let RawData::Bytes(b) = &raw[j].data {
                if out.len() >= limit {
                    proof {
                        lemma_filter_take_prefix(all, fs, j as int);
                        let m = probe_matches(all, fs);
                        assert(m.take(limit as int) =~= prefix);
                    }
                    break;
                }
                let ghost before = out@;
                assert(payload(all[j as int]) == b@);
                if payload_mentions(b, fields) {
                    assert(probe_match(all[j as int], fs));
                    let d = dump_raw(b.as_slice());
                    out.push(d);
                    assert(next.drop_last() =~= prefix);
                    assert(payload_dumps(next) == payload_dumps(prefix).push(dump_of(b@)));
                    assert(dump_lists_view(out@) =~= dump_lists_view(before).push(dumps_view(out@.last()@)));
                } else {
                    assert(!probe_match(all[j as int], fs));
                }
            } else {
                assert(!probe_match(all[j as int], fs));
            }
        } else {
            assert(!probe_match(all[j as int], fs));
        }
        j += 1;
    }
    proof {
        if j == raw.len() {
            assert(all.take(j as int) =~= all);
        }
    }
    out
}

} // verus!
