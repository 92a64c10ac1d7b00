//! Reading base-128 varints and scanning a buffer into raw protobuf fields.

use vstd::prelude::*;
use vstd::slice::{slice_subrange, slice_to_vec};

verus! {

/// The four protobuf wire types the scanner understands.
#[derive(Debug, Clone, Copy, PartialEq, Eq, Structural)]
pub enum WireType {
    Varint,
    Fixed64,
    LengthDelimited,
    Fixed32,
}

/// The payload of a raw field: a varint value, or the bytes of a
/// length-delimited or fixed-width field.
#[derive(Debug)]
pub enum RawData {
    Varint(u64),
    Bytes(Vec<u8>),
}

/// One field as found on the wire: its number, wire type and payload.
#[derive(Debug)]
pub struct RawField {
    pub field: u32,
    pub wire_type: WireType,
    pub data: RawData,
}

/// The mathematical payload of a raw field.
pub enum RawDataView {
    Varint(u64),
    Bytes(Seq<u8>),
}

/// The mathematical form of a raw field.
pub struct RawFieldView {
    pub field: u32,
    pub wire_type: WireType,
    pub data: RawDataView,
}

impl View for RawField {
    type V = RawFieldView;

    open spec fn view(&self) -> RawFieldView {
        RawFieldView {
            field: self.field,
            wire_type: self.wire_type,
            data: match self.data {
                RawData::Varint(v) => RawDataView::Varint(v),
                RawData::Bytes(b) => RawDataView::Bytes(b@),
            },
        }
    }
}

/// The mathematical form of a list of raw fields.
pub open spec fn raw_view(fields: Seq<RawField>) -> Seq<RawFieldView> {
    fields.map_values(|f: RawField| f@)
}

/// `128^n`, the weight of the `n`-th seven-bit group of a varint.
pub open spec fn pow128(n: nat) -> nat
    decreases n,
{
    if n == 0 {
        1
    } else {
        128 * pow128((n - 1) as nat)
    }
}

/// The varint whose byte of index `k` (counting from its first byte) sits at
/// `pos`: the value of the remaining groups and the offset just past the
/// terminating byte. A varint may have at most nine bytes; a tenth
/// continuation byte, or running out of input, gives `None`.
pub open spec fn varint_from(buf: Seq<u8>, pos: int, k: nat) -> Option<(nat, int)>
    decreases buf.len() - pos,
{
    if pos < 0 || pos >= buf.len() {
        None
    } else if buf[pos] < 128 {
        Some((buf[pos] as nat, pos + 1))
    } else if k >= 8 {
        None
    } else {
        match varint_from(buf, pos + 1, k + 1) {
            Some((rest, end)) => Some(((buf[pos] - 128) as nat + 128 * rest, end)),
            None => None,
        }
    }
}

/// The varint starting at `offset`, with its value as a `u64` and the offset
/// just past it.
pub open spec fn varint_at(buf: Seq<u8>, offset: int) -> Option<(u64, int)> {
    match varint_from(buf, offset, 0) {
        Some((v, end)) => Some((v as u64, end)),
        None => None,
    }
}

/// What a varint decoded so far (`value`, with the next group weighing
/// `scale`) becomes once the rest of it is read.
pub open spec fn continue_varint(value: nat, scale: nat, rest: Option<(nat, int)>) -> Option<(nat, int)> {
    match rest {
        Some((r, end)) => Some((value + scale * r, end)),
        None => None,
    }
}

/// A varint read from byte index `k` on ends past `pos`, within the buffer,
/// within `9 - k` bytes, and its value has at most `7 * (9 - k)` bits.
pub proof fn lemma_varint_from_bounds(buf: Seq<u8>, pos: int, k: nat)
    requires
        k <= 8,
    ensures
        varint_from(buf, pos, k) matches Some((v, end)) ==> {
            &&& pos < end <= buf.len()
            &&& end - pos <= 9 - k
            &&& v < pow128((9 - k) as nat)
        },
    decreases buf.len() - pos,
{
    let n = (9 - k) as nat;
    lemma_pow128_positive((n - 1) as nat);
    assert(pow128(n) == 128 * pow128((n - 1) as nat));
    if 0 <= pos < buf.len() && buf[pos] >= 128 && k < 8 {
        lemma_varint_from_bounds(buf, pos + 1, k + 1);
        if let Some((rest, end)) = varint_from(buf, pos + 1, k + 1) {
            let g: nat = (buf[pos] - 128) as nat;
            let p = pow128((n - 1) as nat);
            assert(g + 128 * rest < 128 * p) by (nonlinear_arith)
                requires
                    rest < p,
                    g < 128,
            ;
        }
    }
}

proof fn lemma_pow128_positive(n: nat)
    ensures
        pow128(n) >= 1,
    decreases n,
{
    if n > 0 {
        lemma_pow128_positive((n - 1) as nat);
    }
}

/// The weights of the groups of a nine-byte varint fit in 56 bits.
proof fn lemma_pow128_small(k: nat)
    requires
        k <= 8,
    ensures
        pow128(k) <= 0x100_0000_0000_0000,
    decreases 8 - k,
{
    if k == 8 {
        reveal_with_fuel(pow128, 9);
    } else {
        lemma_pow128_small(k + 1);
        assert(pow128(k + 1) == 128 * pow128(k));
    }
}

/// A whole varint fits in 63 bits and takes one to nine bytes.
pub proof fn lemma_varint_at_bounds(buf: Seq<u8>, offset: int)
    ensures
        varint_from(buf, offset, 0) matches Some((v, end)) ==> {
            &&& offset < end <= buf.len()
            &&& end - offset <= 9
            &&& v < 0x8000_0000_0000_0000
        },
{
    lemma_varint_from_bounds(buf, offset, 0);
    reveal_with_fuel(pow128, 10);
    assert(pow128(9) == 0x8000_0000_0000_0000);
}

/// The canonical base-128 encoding of `v`: seven bits per byte, least
/// significant group first, the high bit set on every byte but the last.
pub open spec fn varint_encoding(v: nat) -> Seq<u8>
    decreases v,
{
    if v < 128 {
        seq![v as u8]
    } else {
        seq![(v % 128 + 128) as u8] + varint_encoding(v / 128)
    }
}

proof fn lemma_varint_encoding_reads_back(v: nat, tail: Seq<u8>, k: nat)
    requires
        k <= 8,
        v < pow128((9 - k) as nat),
    ensures
        varint_from(varint_encoding(v) + tail, 0, k) == Some((v, varint_encoding(v).len() as int)),
    decreases v,
{
    let buf = varint_encoding(v) + tail;
    if v < 128 {
        assert(buf[0] == v as u8);
    } else {
        let b = (v % 128 + 128) as u8;
        let rest = varint_encoding(v / 128);
        let n = (9 - k) as nat;
        assert(pow128(n) == 128 * pow128((n - 1) as nat));
        if k >= 8 {
            assert(pow128(1) == 128 * pow128(0));
            assert(false);
        }
        assert(v / 128 < pow128((n - 1) as nat)) by (nonlinear_arith)
            requires
                v < 128 * pow128((n - 1) as nat),
        ;
        lemma_varint_encoding_reads_back(v / 128, tail, k + 1);
        assert(buf =~= seq![b] + (rest + tail));
        lemma_varint_shift(seq![b], rest + tail, 0, k + 1);
        assert(buf[0] == b);
        assert(seq![b].len() + 0 == 1);
        assert((b - 128) as nat + 128 * (v / 128) == v);
    }
}

/// Reading back a canonical encoding gives the value and the encoding's
/// length, whatever bytes follow it.
pub proof fn law_varint_reads_back_its_encoding(v: u64, tail: Seq<u8>)
    requires
        v < 0x8000_0000_0000_0000,
    ensures
        varint_at(varint_encoding(v as nat) + tail, 0) == Some((v, varint_encoding(v as nat).len() as int)),
{
    reveal_with_fuel(pow128, 10);
    assert(pow128(9) == 0x8000_0000_0000_0000);
    lemma_varint_encoding_reads_back(v as nat, tail, 0);
}

/// Reads a base-128 varint from `buf` starting at `offset`.
/// Returns the decoded value and the new offset, or `None` on truncation or
/// overflow (more than nine bytes).
pub fn read_varint(buf: &[u8], offset: usize) -> (r: Option<(u64, usize)>)
    ensures
        r is Some <==> varint_at(buf@, offset as int) is Some,
        r matches Some((v, end)) ==> {
            &&& varint_at(buf@, offset as int) == Some((v, end as int))
            &&& offset < end <= buf.len()
            &&& end - offset <= 9
            &&& v < 0x8000_0000_0000_0000
        },
{
    proof {
        lemma_varint_at_bounds(buf@, offset as int);
    }
    let mut value: u64 = 0;
    let mut shift: u32 = 0;
    let mut scale: u64 = 1;
    let mut cursor = offset;
    while cursor < buf.len()
        invariant
            offset <= cursor,
            shift <= 56,
            shift == 7 * (cursor - offset),
            scale == pow128((cursor - offset) as nat),
            value < scale,
            varint_from(buf@, offset as int, 0) == continue_varint(
                value as nat,
                scale as nat,
                varint_from(buf@, cursor as int, (cursor - offset) as nat),
            ),
        decreases buf.len() - cursor,
    {
        let ghost k = (cursor - offset) as nat;
        proof {
            lemma_pow128_small(k);
        }
        let byte = buf[cursor];
        cursor += 1;
        if byte < 0x80 {
            assert(value + (byte as u64) * scale < 0x8000_0000_0000_0000) by (nonlinear_arith)
                requires
                    value < scale,
                    byte < 128,
                    scale <= 0x100_0000_0000_0000,
            ;
            assert(value + (byte as u64) * scale == value + scale * (byte as nat)) by (nonlinear_arith);
            return Some((value + (byte as u64) * scale, cursor));
        }
        let group = (byte - 0x80) as u64;
        assert(value + group * scale < 128 * scale) by (nonlinear_arith)
            requires
                value < scale,
                group < 128,
        ;
        assert(value + scale * ((group as nat) + 128 * 0) == value + group * scale) by (nonlinear_arith);
        let ghost before = value;
        value = value + group * scale;
        shift += 7;
        if shift > 56 {
            return None;
        }
        proof {
            assert forall|r: nat| #![trigger (scale * 128) * r]
                before + scale * (group + 128 * r) == value + (scale * 128) * r by {
                assert(before + scale * (group + 128 * r) == before + group * scale + (scale * 128) * r)
                    by (nonlinear_arith);
            }
            assert(pow128((k + 1) as nat) == 128 * pow128(k));
        }
        scale = scale * 128;
    }
    None
}


/// Puts `f` in front of the fields of a scan, keeping how the scan ended.
pub open spec fn prepend(f: RawFieldView, rest: (Seq<RawFieldView>, bool)) -> (Seq<RawFieldView>, bool) {
    (seq![f] + rest.0, rest.1)
}

/// A scan that stopped on malformed input: nothing more is read.
pub open spec fn stopped() -> (Seq<RawFieldView>, bool) {
    (Seq::empty(), false)
}

/// Scans `buf` from `offset` into raw fields. The flag says whether the scan
/// ended exactly at the end of the buffer; on the first malformed field
/// (truncated or overlong varint, key or field number zero, unknown wire
/// type, payload past the end) the scan stops and the rest is ignored.
pub open spec fn scan_from(buf: Seq<u8>, offset: int) -> (Seq<RawFieldView>, bool)
    decreases buf.len() - offset,
{
    if offset >= buf.len() {
        (Seq::empty(), true)
    } else {
        match varint_at(buf, offset) {
            None => stopped(),
            Some((key, next)) => {
                proof {
                    lemma_varint_at_bounds(buf, offset);
                    lemma_varint_at_bounds(buf, next);
                }
                let field = (key / 8) as u32;
                if key == 0 || field == 0 {
                    stopped()
                } else if key % 8 == 0 {
                    match varint_at(buf, next) {
                        None => stopped(),
                        Some((v, end)) => prepend(
                            RawFieldView { field, wire_type: WireType::Varint, data: RawDataView::Varint(v) },
                            scan_from(buf, end),
                        ),
                    }
                } else if key % 8 == 2 {
                    match varint_at(buf, next) {
                        None => stopped(),
                        Some((len, start)) => if start + len > buf.len() {
                            stopped()
                        } else {
                            prepend(
                                RawFieldView {
                                    field,
                                    wire_type: WireType::LengthDelimited,
                                    data: RawDataView::Bytes(buf.subrange(start, start + len)),
                                },
                                scan_from(buf, start + len),
                            )
                        },
                    }
                } else if key % 8 == 1 {
                    if next + 8 > buf.len() {
                        stopped()
                    } else {
                        prepend(
                            RawFieldView {
                                field,
                                wire_type: WireType::Fixed64,
                                data: RawDataView::Bytes(buf.subrange(next, next + 8)),
                            },
                            scan_from(buf, next + 8),
                        )
                    }
                } else if key % 8 == 5 {
                    if next + 4 > buf.len() {
                        stopped()
                    } else {
                        prepend(
                            RawFieldView {
                                field,
                                wire_type: WireType::Fixed32,
                                data: RawDataView::Bytes(buf.subrange(next, next + 4)),
                            },
                            scan_from(buf, next + 4),
                        )
                    }
                } else {
                    stopped()
                }
            },
        }
    }
}

/// The raw fields of a whole buffer.
pub open spec fn raw_fields(buf: Seq<u8>) -> Seq<RawFieldView> {
    scan_from(buf, 0).0
}

/// Whether the whole buffer is a well-formed sequence of fields, with no
/// malformed tail.
pub open spec fn scans_completely(buf: Seq<u8>) -> bool {
    scan_from(buf, 0).1
}

/// Parses the whole buffer into a flat list of raw protobuf fields, in the
/// order they appear. Malformed tail bytes are silently ignored.
pub fn parse_raw_fields(buf: &[u8]) -> (results: Vec<RawField>)
    ensures
        raw_view(results@) == raw_fields(buf@),
{
    let mut results: Vec<RawField> = Vec::new();
    let mut offset: usize = 0;
    while offset < buf.len()
        invariant_except_break
            offset <= buf.len(),
            raw_fields(buf@) == raw_view(results@) + scan_from(buf@, offset as int).0,
        ensures
            raw_fields(buf@) == raw_view(results@),
        decreases buf.len() - offset,
    {
        let ghost at = offset as int;
        let ghost before = results@;
        assert(raw_view(before) + Seq::<RawFieldView>::empty() =~= raw_view(before));
        let (key, next) = match read_varint(buf, offset) {
            Some(v) => v,
            None => break,
        };
        offset = next;
        let field = (key >> 3) as u32;
        let wire_type = key & 0x07;
        assert(key >> 3 == key / 8 && key & 0x07 == key % 8) by (bit_vector);
        if key == 0 {
            break;
        }
        if field == 0 {
            break;
        }
        if wire_type == 0 {
            let (value, new_offset) = match read_varint(buf, offset) {
                Some(v) => v,
                None => break,
            };
            offset = new_offset;
            results.push(RawField { field, wire_type: WireType::Varint, data: RawData::Varint(value) });
        } else if wire_type == 2 {
            let (len, new_offset) = match read_varint(buf, offset) {
                Some(v) => v,
                None => break,
            };
            offset = new_offset;
            if len > (buf.len() - offset) as u64 {
                break;
            }
            let len = len as usize;
            let inner = slice_to_vec(slice_subrange(buf, offset, offset + len));
            offset += len;
            results.push(RawField { field, wire_type: WireType::LengthDelimited, data: RawData::Bytes(inner) });
        } else if wire_type == 1 {
            if buf.len() - offset < 8 {
                break;
            }
            let inner = slice_to_vec(slice_subrange(buf, offset, offset + 8));
            offset += 8;
            results.push(RawField { field, wire_type: WireType::Fixed64, data: RawData::Bytes(inner) });
        } else if wire_type == 5 {
            if buf.len() - offset < 4 {
                break;
            }
            let inner = slice_to_vec(slice_subrange(buf, offset, offset + 4));
            offset += 4;
            results.push(RawField { field, wire_type: WireType::Fixed32, data: RawData::Bytes(inner) });
        } else {
            break;
        }
        assert(raw_view(results@) =~= raw_view(before) + seq![results@.last()@]);
    }
    results
}

/// A varint that is whole within `a` reads the same whatever bytes follow.
pub proof fn lemma_varint_prefix(a: Seq<u8>, b: Seq<u8>, pos: int, k: nat)
    requires
        varint_from(a, pos, k) is Some,
    ensures
        varint_from(a + b, pos, k) == varint_from(a, pos, k),
    decreases a.len() - pos,
{
    if a[pos] >= 128 && k < 8 {
        lemma_varint_prefix(a, b, pos + 1, k + 1);
    }
}

/// A varint read in `s` reads the same after any bytes are put in front, its
/// end moved by their number.
pub proof fn lemma_varint_shift(p: Seq<u8>, s: Seq<u8>, o: int, k: nat)
    requires
        0 <= o,
    ensures
        varint_from(p + s, p.len() + o, k) == (match varint_from(s, o, k) {
            Some((v, e)) => Some((v, p.len() + e)),
            None => None,
        }),
    decreases s.len() - o,
{
    if o < s.len() {
        assert((p + s)[p.len() + o] == s[o]);
        if s[o] >= 128 && k < 8 {
            lemma_varint_shift(p, s, o + 1, k + 1);
        }
    }
}

/// Scanning `s` from `o` gives the same fields after any bytes are put in
/// front of it.
pub proof fn lemma_scan_shift(p: Seq<u8>, s: Seq<u8>, o: int)
    requires
        0 <= o,
    ensures
        scan_from(p + s, p.len() + o) == scan_from(s, o),
    decreases s.len() - o,
{
    let ps = p + s;
    let q = p.len() as int;
    if o < s.len() {
        lemma_varint_shift(p, s, o, 0);
        lemma_varint_at_bounds(s, o);
        if let Some((key, next)) = varint_at(s, o) {
            lemma_varint_shift(p, s, next, 0);
            lemma_varint_at_bounds(s, next);
            if key % 8 == 0 {
                if let Some((v, end)) = varint_at(s, next) {
                    lemma_scan_shift(p, s, end);
                }
            } else if key % 8 == 2 {
                if let Some((len, start)) = varint_at(s, next) {
                    if start + len <= s.len() {
                        assert(ps.subrange(q + start, q + start + len) =~= s.subrange(start, start + len));
                        lemma_scan_shift(p, s, start + len);
                    }
                }
            } else if key % 8 == 1 {
                if next + 8 <= s.len() {
                    assert(ps.subrange(q + next, q + next + 8) =~= s.subrange(next, next + 8));
                    lemma_scan_shift(p, s, next + 8);
                }
            } else if key % 8 == 5 {
                if next + 4 <= s.len() {
                    assert(ps.subrange(q + next, q + next + 4) =~= s.subrange(next, next + 4));
                    lemma_scan_shift(p, s, next + 4);
                }
            }
        }
    }
}

/// A scan of `a` from `off` that reaches the end of `a` reads the same fields
/// in `a + b`, followed by the fields of `b`.
#[verifier::spinoff_prover]
#[verifier::rlimit(40)]
pub proof fn lemma_scan_concat(a: Seq<u8>, b: Seq<u8>, off: int)
    requires
        0 <= off <= a.len(),
        scan_from(a, off).1,
    ensures
        scan_from(a + b, off) == (scan_from(a, off).0 + scan_from(b, 0).0, scan_from(b, 0).1),
    decreases a.len() - off,
{
    let ab = a + b;
    if off == a.len() {
        lemma_scan_shift(a, b, 0);
        assert(scan_from(a, off).0 + scan_from(b, 0).0 =~= scan_from(b, 0).0);
    } else {
        lemma_varint_at_bounds(a, off);
        let (key, next) = varint_at(a, off).unwrap();
        lemma_varint_prefix(a, b, off, 0);
        lemma_varint_at_bounds(a, next);
        if key % 8 == 0 {
            let (v, end) = varint_at(a, next).unwrap();
            lemma_varint_prefix(a, b, next, 0);
            lemma_scan_concat(a, b, end);
            assert(seq![scan_from(a, off).0[0]] + scan_from(a, end).0 + scan_from(b, 0).0
                =~= seq![scan_from(a, off).0[0]] + (scan_from(a, end).0 + scan_from(b, 0).0));
        } else if key % 8 == 2 {
            let (len, start) = varint_at(a, next).unwrap();
            lemma_varint_prefix(a, b, next, 0);
            assert(ab.subrange(start, start + len) =~= a.subrange(start, start + len));
            lemma_scan_concat(a, b, start + len);
            assert(seq![scan_from(a, off).0[0]] + scan_from(a, start + len).0 + scan_from(b, 0).0
                =~= seq![scan_from(a, off).0[0]] + (scan_from(a, start + len).0 + scan_from(b, 0).0));
        } else if key % 8 == 1 {
            assert(ab.subrange(next, next + 8) =~= a.subrange(next, next + 8));
            lemma_scan_concat(a, b, next + 8);
            assert(seq![scan_from(a, off).0[0]] + scan_from(a, next + 8).0 + scan_from(b, 0).0
                =~= seq![scan_from(a, off).0[0]] + (scan_from(a, next + 8).0 + scan_from(b, 0).0));
        } else {
            assert(ab.subrange(next, next + 4) =~= a.subrange(next, next + 4));
            lemma_scan_concat(a, b, next + 4);
            assert(seq![scan_from(a, off).0[0]] + scan_from(a, next + 4).0 + scan_from(b, 0).0
                =~= seq![scan_from(a, off).0[0]] + (scan_from(a, next + 4).0 + scan_from(b, 0).0));
        }
    }
}

/// Trailing bytes never disturb a well-formed message: when `a` is a whole
/// sequence of well-formed fields, the fields of `a` followed by any bytes
/// `b` are the fields of `a` followed by the fields that `b` holds, and the
/// whole is well-formed exactly when `b` is.
pub proof fn law_trailing_bytes_keep_fields(a: Seq<u8>, b: Seq<u8>)
    requires
        scans_completely(a),
    ensures
        raw_fields(a + b) == raw_fields(a) + raw_fields(b),
        scans_completely(a + b) == scans_completely(b),
{
    lemma_scan_concat(a, b, 0);
}

/// Every payload that a scan from `off` yields is shorter than what is left
/// of the buffer from `off`: a field's key takes at least one byte.
pub proof fn lemma_scan_payloads_shorter(buf: Seq<u8>, off: int)
    requires
        0 <= off,
    ensures
        forall|i: int| #![trigger scan_from(buf, off).0[i]]
            0 <= i < scan_from(buf, off).0.len() ==> (scan_from(buf, off).0[i].data matches RawDataView::Bytes(b)
                ==> b.len() < buf.len() - off),
    decreases buf.len() - off,
{
    if off < buf.len() {
        lemma_varint_at_bounds(buf, off);
        if let Some((key, next)) = varint_at(buf, off) {
            lemma_varint_at_bounds(buf, next);
            if key % 8 == 0 {
                if let Some((v, end)) = varint_at(buf, next) {
                    lemma_scan_payloads_shorter(buf, end);
                }
            } else if key % 8 == 2 {
                if let Some((len, start)) = varint_at(buf, next) {
                    if start + len <= buf.len() {
                        lemma_scan_payloads_shorter(buf, start + len);
                    }
                }
            } else if key % 8 == 1 {
                if next + 8 <= buf.len() {
                    lemma_scan_payloads_shorter(buf, next + 8);
                }
            } else if key % 8 == 5 {
                if next + 4 <= buf.len() {
                    lemma_scan_payloads_shorter(buf, next + 4);
                }
            }
        }
    }
}

/// A scan from `off` yields at most one field per remaining byte.
pub proof fn lemma_scan_len_bound(buf: Seq<u8>, off: int)
    requires
        0 <= off <= buf.len(),
    ensures
        scan_from(buf, off).0.len() <= buf.len() - off,
    decreases buf.len() - off,
{
    if off < buf.len() {
        lemma_varint_at_bounds(buf, off);
        if let Some((key, next)) = varint_at(buf, off) {
            lemma_varint_at_bounds(buf, next);
            if key % 8 == 0 {
                if let Some((v, end)) = varint_at(buf, next) {
                    lemma_scan_len_bound(buf, end);
                }
            } else if key % 8 == 2 {
                if let Some((len, start)) = varint_at(buf, next) {
                    if start + len <= buf.len() {
                        lemma_scan_len_bound(buf, start + len);
                    }
                }
            } else if key % 8 == 1 {
                if next + 8 <= buf.len() {
                    lemma_scan_len_bound(buf, next + 8);
                }
            } else if key % 8 == 5 {
                if next + 4 <= buf.len() {
                    lemma_scan_len_bound(buf, next + 4);
                }
            }
        }
    }
}

/// The number of payload bytes of a raw field (none for a varint).
pub open spec fn payload_len(f: RawFieldView) -> nat {
    match f.data {
        RawDataView::Bytes(b) => b.len(),
        RawDataView::Varint(_) => 0,
    }
}

/// The number of payload bytes of a list of raw fields.
pub open spec fn payload_total(s: Seq<RawFieldView>) -> nat
    decreases s.len(),
{
    if s.len() == 0 {
        0
    } else {
        payload_total(s.drop_last()) + payload_len(s.last())
    }
}

proof fn lemma_payload_total_prepend(f: RawFieldView, rest: Seq<RawFieldView>)
    ensures
        payload_total(seq![f] + rest) == payload_len(f) + payload_total(rest),
    decreases rest.len(),
{
    if rest.len() > 0 {
        lemma_payload_total_prepend(f, rest.drop_last());
        assert((seq![f] + rest).drop_last() =~= seq![f] + rest.drop_last());
        assert((seq![f] + rest).last() == rest.last());
        assert(payload_total(seq![f] + rest) == payload_total((seq![f] + rest).drop_last()) + payload_len(
            (seq![f] + rest).last(),
        ));
        assert(payload_total(rest) == payload_total(rest.drop_last()) + payload_len(rest.last()));
    } else {
        assert(seq![f] + rest =~= seq![f]);
        assert(seq![f].drop_last() =~= Seq::<RawFieldView>::empty());
        assert(payload_total(seq![f]) == payload_total(seq![f].drop_last()) + payload_len(seq![f].last()));
        assert(payload_total(Seq::<RawFieldView>::empty()) == 0);
    }
}

/// A prefix holds no more payload bytes than the whole list.
pub proof fn lemma_payload_total_take(s: Seq<RawFieldView>, j: int)
    requires
        0 <= j <= s.len(),
    ensures
        payload_total(s.take(j)) <= payload_total(s),
    decreases s.len(),
{
    if j < s.len() {
        lemma_payload_total_take(s.drop_last(), j);
        assert(s.drop_last().take(j) =~= s.take(j));
    } else {
        assert(s.take(j) =~= s);
    }
}

/// The payloads that a scan from `off` yields are disjoint parts of what is
/// left of the buffer, so together they are no longer than it.
pub proof fn lemma_scan_payload_total(buf: Seq<u8>, off: int)
    requires
        0 <= off <= buf.len(),
    ensures
        payload_total(scan_from(buf, off).0) <= buf.len() - off,
    decreases buf.len() - off,
{
    if off < buf.len() {
        lemma_varint_at_bounds(buf, off);
        if let Some((key, next)) = varint_at(buf, off) {
            lemma_varint_at_bounds(buf, next);
            let fields = scan_from(buf, off).0;
            if key % 8 == 0 {
                if let Some((v, end)) = varint_at(buf, next) {
                    lemma_scan_payload_total(buf, end);
                    if fields.len() > 0 {
                        lemma_payload_total_prepend(fields[0], scan_from(buf, end).0);
                    }
                }
            } else if key % 8 == 2 {
                if let Some((len, start)) = varint_at(buf, next) {
                    if start + len <= buf.len() {
                        lemma_scan_payload_total(buf, start + len);
                        if fields.len() > 0 {
                            lemma_payload_total_prepend(fields[0], scan_from(buf, start + len).0);
                        }
                    }
                }
            } else if key % 8 == 1 {
                if next + 8 <= buf.len() {
                    lemma_scan_payload_total(buf, next + 8);
                    if fields.len() > 0 {
                        lemma_payload_total_prepend(fields[0], scan_from(buf, next + 8).0);
                    }
                }
            } else if key % 8 == 5 {
                if next + 4 <= buf.len() {
                    lemma_scan_payload_total(buf, next + 4);
                    if fields.len() > 0 {
                        lemma_payload_total_prepend(fields[0], scan_from(buf, next + 4).0);
                    }
                }
            }
        }
    }
}

/// A canonical varint placed after any bytes `p` reads back at `p.len()`.
proof fn lemma_encoding_after(p: Seq<u8>, v: u64, tail: Seq<u8>)
    requires
        v < 0x8000_0000_0000_0000,
    ensures
        varint_at(p + (varint_encoding(v as nat) + tail), p.len() as int) == Some(
            (v, (p.len() + varint_encoding(v as nat).len()) as int),
        ),
{
    law_varint_reads_back_its_encoding(v, tail);
    lemma_varint_shift(p, varint_encoding(v as nat) + tail, 0, 0);
}

/// A varint field written out canonically (key `8 * f`, then the value) scans
/// back as exactly that one field: its number is the whole key over 8,
/// however many bytes the key takes.
pub proof fn law_varint_field_round_trip(f: u32, v: u64)
    requires
        f >= 1,
        v < 0x8000_0000_0000_0000,
    ensures
        raw_fields(varint_encoding(8 * f as nat) + varint_encoding(v as nat)) == seq![
            RawFieldView { field: f, wire_type: WireType::Varint, data: RawDataView::Varint(v) },
        ],
        scans_completely(varint_encoding(8 * f as nat) + varint_encoding(v as nat)),
{
    let key: u64 = (8 * f) as u64;
    let ek = varint_encoding(key as nat);
    let ev = varint_encoding(v as nat);
    let buf = ek + ev;
    law_varint_reads_back_its_encoding(key, ev);
    lemma_encoding_after(ek, v, Seq::empty());
    assert(ev + Seq::<u8>::empty() =~= ev);
    lemma_varint_at_bounds(buf, 0);
    let end = (ek.len() + ev.len()) as int;
    assert(end == buf.len());
    assert(key / 8 == f as u64 && key % 8 == 0);
    assert(scan_from(buf, end) == (Seq::<RawFieldView>::empty(), true));
    assert(seq![RawFieldView { field: f, wire_type: WireType::Varint, data: RawDataView::Varint(v) }]
        + Seq::<RawFieldView>::empty() =~= seq![
        RawFieldView { field: f, wire_type: WireType::Varint, data: RawDataView::Varint(v) },
    ]);
}

/// A length-delimited field written out canonically (key `8 * f + 2`, the
/// payload length, the payload) scans back as exactly that one field with
/// the whole payload, whatever its length.
pub proof fn law_length_delimited_field_round_trip(f: u32, payload: Seq<u8>)
    requires
        f >= 1,
        payload.len() < 0x8000_0000_0000_0000,
    ensures
        raw_fields(varint_encoding((8 * f + 2) as nat) + varint_encoding(payload.len()) + payload) == seq![
            RawFieldView { field: f, wire_type: WireType::LengthDelimited, data: RawDataView::Bytes(payload) },
        ],
        scans_completely(varint_encoding((8 * f + 2) as nat) + varint_encoding(payload.len()) + payload),
{
    let key: u64 = (8 * f + 2) as u64;
    let len: u64 = payload.len() as u64;
    let ek = varint_encoding(key as nat);
    let el = varint_encoding(len as nat);
    let buf = ek + el + payload;
    assert(buf =~= ek + (el + payload));
    law_varint_reads_back_its_encoding(key, el + payload);
    assert(ek + el + payload =~= ek + (el + payload));
    lemma_encoding_after(ek, len, payload);
    let start = (ek.len() + el.len()) as int;
    assert(start + len == buf.len());
    assert(buf.subrange(start, start + len) =~= payload);
    assert(key / 8 == f as u64 && key % 8 == 2);
    lemma_varint_at_bounds(buf, 0);
    assert(scan_from(buf, buf.len() as int) == (Seq::<RawFieldView>::empty(), true));
    assert(seq![RawFieldView { field: f, wire_type: WireType::LengthDelimited, data: RawDataView::Bytes(payload) }]
        + Seq::<RawFieldView>::empty() =~= seq![
        RawFieldView { field: f, wire_type: WireType::LengthDelimited, data: RawDataView::Bytes(payload) },
    ]);
}

/// Counts the raw protobuf fields in a buffer.
pub fn raw_field_count(buf: &[u8]) -> (n: usize)
    ensures
        n == raw_fields(buf@).len(),
        n <= buf.len(),
{
    proof {
        lemma_scan_len_bound(buf@, 0);
    }
    parse_raw_fields(buf).len()
}

} // verus!
