//! A survey of the fields used by the entries of a list wrapper: for each
//! field number, how often it occurs with each wire type. Used to find which
//! fields a schema is missing.

use vstd::prelude::*;

use crate::proto::dump::{is_list_entry, payload};
use crate::proto::wire::{
    lemma_payload_total_take, lemma_scan_len_bound, lemma_scan_payload_total, parse_raw_fields, payload_len,
    payload_total, raw_fields, raw_view, RawData, RawFieldView, WireType,
};

verus! {

/// How often one field number occurs with each wire type.
#[derive(Debug, Clone, Copy, PartialEq, Eq, Structural)]
pub struct FieldUsage {
    pub field: u32,
    pub varint: usize,
    pub fixed64: usize,
    pub length_delimited: usize,
    pub fixed32: usize,
}

/// How many fields of `nested` have number `field` and wire type `wire`.
pub open spec fn count_of(nested: Seq<RawFieldView>, field: u32, wire: WireType) -> nat {
    nested.filter(|x: RawFieldView| x.field == field && x.wire_type == wire).len()
}

/// The four counts of `u` are those of its field number in `nested`.
pub open spec fn counts_agree(u: FieldUsage, nested: Seq<RawFieldView>) -> bool {
    &&& u.varint == count_of(nested, u.field, WireType::Varint)
    &&& u.fixed64 == count_of(nested, u.field, WireType::Fixed64)
    &&& u.length_delimited == count_of(nested, u.field, WireType::LengthDelimited)
    &&& u.fixed32 == count_of(nested, u.field, WireType::Fixed32)
}

/// Some field of `nested` has number `field`.
pub open spec fn occurs_in(nested: Seq<RawFieldView>, field: u32) -> bool {
    exists|k: int| 0 <= k < nested.len() && #[trigger] nested[k].field == field
}

/// Some entry of `usage` is for field number `field`.
pub open spec fn listed_in(usage: Seq<FieldUsage>, field: u32) -> bool {
    exists|i: int| 0 <= i < usage.len() && #[trigger] usage[i].field == field
}

/// `usage` summarizes `nested`: one entry per field number that occurs, in
/// increasing order of field number, each with its counts per wire type.
pub open spec fn usage_matches(usage: Seq<FieldUsage>, nested: Seq<RawFieldView>) -> bool {
    &&& forall|i: int, j: int| 0 <= i < j < usage.len() ==> usage[i].field < usage[j].field
    &&& forall|i: int| 0 <= i < usage.len() ==> counts_agree(#[trigger] usage[i], nested)
    &&& forall|i: int| 0 <= i < usage.len() ==> occurs_in(nested, #[trigger] usage[i].field)
    &&& forall|k: int| 0 <= k < nested.len() ==> listed_in(usage, #[trigger] nested[k].field)
}

/// The list entries (field 1 with a payload) of `raw`.
pub open spec fn list_entries(raw: Seq<RawFieldView>) -> Seq<RawFieldView> {
    raw.filter(|f: RawFieldView| is_list_entry(f))
}

/// The raw fields of the payloads of `entries`, one payload after another.
pub open spec fn nested_fields(entries: Seq<RawFieldView>) -> Seq<RawFieldView>
    decreases entries.len(),
{
    if entries.len() == 0 {
        Seq::empty()
    } else {
        nested_fields(entries.drop_last()) + raw_fields(payload(entries.last()))
    }
}

/// The first `sample` list entries of `raw` (all of them when there are fewer).
pub open spec fn sampled_entries(raw: Seq<RawFieldView>, sample: nat) -> Seq<RawFieldView> {
    let l = list_entries(raw);
    l.take(if sample < l.len() { sample as int } else { l.len() as int })
}

proof fn lemma_count_push(nested: Seq<RawFieldView>, x: RawFieldView, field: u32, wire: WireType)
    ensures
        count_of(nested.push(x), field, wire) == count_of(nested, field, wire) + (if x.field == field
            && x.wire_type == wire {
            1int
        } else {
            0int
        }),
{
    reveal_with_fuel(Seq::<_>::filter, 1);
    assert(nested.push(x).drop_last() =~= nested);
}

proof fn lemma_count_absent(nested: Seq<RawFieldView>, field: u32, wire: WireType)
    requires
        !occurs_in(nested, field),
    ensures
        count_of(nested, field, wire) == 0,
    decreases nested.len(),
{
    if nested.len() > 0 {
        let rest = nested.drop_last();
        assert forall|k: int| 0 <= k < rest.len() implies #[trigger] rest[k].field != field by {
            assert(nested[k] == rest[k]);
        }
        lemma_count_absent(rest, field, wire);
        lemma_count_push(rest, nested.last(), field, wire);
        assert(rest.push(nested.last()) =~= nested);
        assert(nested[nested.len() - 1].field != field);
    }
}

proof fn lemma_count_bound(nested: Seq<RawFieldView>, field: u32, wire: WireType)
    ensures
        count_of(nested, field, wire) <= nested.len(),
{
    nested.lemma_filter_len(|x: RawFieldView| x.field == field && x.wire_type == wire);
}

/// Accounts for one more nested field `x` (number `field`, wire type `wire`).
fn record_field(usage: &mut Vec<FieldUsage>, field: u32, wire: WireType, Ghost(done): Ghost<Seq<RawFieldView>>, Ghost(x): Ghost<RawFieldView>)
    requires
        usage_matches(old(usage)@, done),
        x.field == field,
        x.wire_type == wire,
        done.len() < usize::MAX,
    ensures
        usage_matches(final(usage)@, done.push(x)),
{
    let ghost all = done.push(x);
    let ghost old_usage = usage@;
    let mut p: usize = 0;
    while p < usage.len() && usage[p].field < field
        invariant
            p <= usage.len(),
            usage@ == old_usage,
            forall|i: int| 0 <= i < p ==> usage@[i].field < field,
        decreases usage.len() - p,
    {
        p += 1;
    }
    proof {
        assert forall|k: int| 0 <= k < done.len() implies all[k] == done[k] by {}
        lemma_count_bound(done, field, WireType::Varint);
        lemma_count_bound(done, field, WireType::Fixed64);
        lemma_count_bound(done, field, WireType::LengthDelimited);
        lemma_count_bound(done, field, WireType::Fixed32);
        assert forall|f: u32, w: WireType| f != field implies #[trigger] count_of(all, f, w) == count_of(done, f, w) by {
            lemma_count_push(done, x, f, w);
        }
        lemma_count_push(done, x, field, WireType::Varint);
        lemma_count_push(done, x, field, WireType::Fixed64);
        lemma_count_push(done, x, field, WireType::LengthDelimited);
        lemma_count_push(done, x, field, WireType::Fixed32);
        assert(all[done.len() as int] == x);
    }
    if p < usage.len() && usage[p].field == field {
        let u = usage[p];
        assert(counts_agree(old_usage[p as int], done));
        let updated = FieldUsage {
            field,
            varint: if wire == WireType::Varint { u.varint + 1 } else { u.varint },
            fixed64: if wire == WireType::Fixed64 { u.fixed64 + 1 } else { u.fixed64 },
            length_delimited: if wire == WireType::LengthDelimited { u.length_delimited + 1 } else { u.length_delimited },
            fixed32: if wire == WireType::Fixed32 { u.fixed32 + 1 } else { u.fixed32 },
        };
        usage.set(p, updated);
        proof {
            let nu = usage@;
            assert forall|i: int| 0 <= i < nu.len() implies counts_agree(#[trigger] nu[i], all) by {
                if i != p {
                    assert(nu[i] == old_usage[i]);
                    assert(counts_agree(old_usage[i], done));
                    if i < p {
                        assert(old_usage[i].field < old_usage[p as int].field);
                    } else {
                        assert(old_usage[p as int].field < old_usage[i].field);
                    }
                }
            }
            assert forall|i: int| 0 <= i < nu.len() implies occurs_in(all, #[trigger] nu[i].field) by {
                if i == p {
                    assert(all[done.len() as int].field == field);
                } else {
                    assert(nu[i] == old_usage[i]);
                    assert(occurs_in(done, old_usage[i].field));
                    let k = choose|k: int| 0 <= k < done.len() && #[trigger] done[k].field == old_usage[i].field;
                    assert(all[k].field == nu[i].field);
                }
            }
            assert forall|k: int| 0 <= k < all.len() implies listed_in(nu, #[trigger] all[k].field) by {
                if k == done.len() {
                    assert(nu[p as int].field == all[k].field);
                } else {
                    assert(listed_in(old_usage, done[k].field));
                    let i = choose|i: int| 0 <= i < old_usage.len() && #[trigger] old_usage[i].field == done[k].field;
                    assert(nu[i].field == old_usage[i].field);
                }
            }
        }
    } else {
        proof {
            assert forall|i: int| 0 <= i < old_usage.len() implies #[trigger] old_usage[i].field != field by {
                if i >= p {
                    assert(old_usage[p as int].field > field);
                    if i > p {
                        assert(old_usage[p as int].field < old_usage[i].field);
                    }
                }
            }
            assert(!occurs_in(done, field)) by {
                if occurs_in(done, field) {
                    let k = choose|k: int| 0 <= k < done.len() && #[trigger] done[k].field == field;
                    assert(listed_in(old_usage, done[k].field));
                }
            }
            lemma_count_absent(done, field, WireType::Varint);
            lemma_count_absent(done, field, WireType::Fixed64);
            lemma_count_absent(done, field, WireType::LengthDelimited);
            lemma_count_absent(done, field, WireType::Fixed32);
        }
        let fresh = FieldUsage {
            field,
            varint: if wire == WireType::Varint { 1 } else { 0 },
            fixed64: if wire == WireType::Fixed64 { 1 } else { 0 },
            length_delimited: if wire == WireType::LengthDelimited { 1 } else { 0 },
            fixed32: if wire == WireType::Fixed32 { 1 } else { 0 },
        };
        usage.insert(p, fresh);
        proof {
            let nu = usage@;
            assert(nu.len() == old_usage.len() + 1);
            assert forall|i: int| 0 <= i < nu.len() implies #[trigger] nu[i] == (if i < p {
                old_usage[i]
            } else if i == p {
                fresh
            } else {
                old_usage[i - 1]
            }) by {}
            assert forall|i: int, j: int| 0 <= i < j < nu.len() implies nu[i].field < nu[j].field by {
                if i < p && j > p {
                    assert(old_usage[i].field < field);
                    assert(old_usage[j - 1].field != field);
                    if j - 1 > p {
                        assert(old_usage[p as int].field < old_usage[j - 1].field);
                    }
                    assert(old_usage[p as int].field >= field);
                }
                if i == p && j > p {
                    assert(old_usage[p as int].field >= field);
                    if j - 1 > p {
                        assert(old_usage[p as int].field < old_usage[j - 1].field);
                    }
                    assert(old_usage[j - 1].field != field);
                }
            }
            assert forall|i: int| 0 <= i < nu.len() implies counts_agree(#[trigger] nu[i], all) by {
                if i < p {
                    assert(counts_agree(old_usage[i], done));
                } else if i > p {
                    assert(counts_agree(old_usage[i - 1], done));
                }
            }
            assert forall|i: int| 0 <= i < nu.len() implies occurs_in(all, #[trigger] nu[i].field) by {
                if i == p {
                    assert(all[done.len() as int].field == field);
                } else {
                    let oi = if i < p { i } else { i - 1 };
                    assert(nu[i] == old_usage[oi]);
                    assert(occurs_in(done, old_usage[oi].field));
                    let k = choose|k: int| 0 <= k < done.len() && #[trigger] done[k].field == old_usage[oi].field;
                    assert(all[k].field == nu[i].field);
                }
            }
            assert forall|k: int| 0 <= k < all.len() implies listed_in(nu, #[trigger] all[k].field) by {
                if k == done.len() {
                    assert(nu[p as int].field == all[k].field);
                } else {
                    assert(listed_in(old_usage, done[k].field));
                    let i = choose|i: int| 0 <= i < old_usage.len() && #[trigger] old_usage[i].field == done[k].field;
                    let ni = if i < p { i } else { i + 1 };
                    assert(nu[ni].field == old_usage[i].field);
                }
            }
        }
    }
}


proof fn lemma_nested_fields_concat(a: Seq<RawFieldView>, b: Seq<RawFieldView>)
    ensures
        nested_fields(a + b) == nested_fields(a) + nested_fields(b),
    decreases b.len(),
{
    if b.len() == 0 {
        assert(a + b =~= a);
        assert(nested_fields(a) + nested_fields(b) =~= nested_fields(a));
    } else {
        lemma_nested_fields_concat(a, b.drop_last());
        assert((a + b).drop_last() =~= a + b.drop_last());
        assert((a + b).last() == b.last());
        assert(nested_fields(a) + nested_fields(b) =~= nested_fields(a) + nested_fields(b.drop_last())
            + raw_fields(payload(b.last())));
    }
}

proof fn lemma_count_concat(a: Seq<RawFieldView>, b: Seq<RawFieldView>, field: u32, wire: WireType)
    ensures
        count_of(a + b, field, wire) == count_of(a, field, wire) + count_of(b, field, wire),
{
    Seq::filter_distributes_over_add(a, b, |x: RawFieldView| x.field == field && x.wire_type == wire);
}

/// `v` is for the same field number as `u`, with no count smaller.
pub open spec fn dominated_by(u: FieldUsage, v: FieldUsage) -> bool {
    &&& v.field == u.field
    &&& v.varint >= u.varint
    &&& v.fixed64 >= u.fixed64
    &&& v.length_delimited >= u.length_delimited
    &&& v.fixed32 >= u.fixed32
}

/// Some entry of `large` is for the field number of `u`, with no count
/// smaller.
pub open spec fn covered_by(u: FieldUsage, large: Seq<FieldUsage>) -> bool {
    exists|j: int| 0 <= j < large.len() && dominated_by(u, #[trigger] large[j])
}

/// Sampling more entries never loses a field number nor lowers a count:
/// every field listed for a sample of `k1` entries is listed for a sample of
/// `k2 >= k1` entries, with each count at least as large.
pub proof fn law_larger_sample_keeps_counts(
    raw: Seq<RawFieldView>,
    k1: nat,
    k2: nat,
    small: Seq<FieldUsage>,
    large: Seq<FieldUsage>,
)
    requires
        k1 <= k2,
        usage_matches(small, nested_fields(sampled_entries(raw, k1))),
        usage_matches(large, nested_fields(sampled_entries(raw, k2))),
    ensures
        forall|i: int| 0 <= i < small.len() ==> covered_by(#[trigger] small[i], large),
{
    let s1 = sampled_entries(raw, k1);
    let s2 = sampled_entries(raw, k2);
    let m = s1.len() as int;
    assert(s2.take(m) =~= s1);
    assert(s2 =~= s2.take(m) + s2.skip(m));
    lemma_nested_fields_concat(s1, s2.skip(m));
    let n1 = nested_fields(s1);
    let extra = nested_fields(s2.skip(m));
    let n2 = nested_fields(s2);
    assert(n2 == n1 + extra);
    assert forall|i: int| 0 <= i < small.len() implies covered_by(#[trigger] small[i], large) by {
        let f = small[i].field;
        assert(occurs_in(n1, f));
        let k = choose|k: int| 0 <= k < n1.len() && #[trigger] n1[k].field == f;
        assert(n2[k] == n1[k]);
        assert(listed_in(large, n2[k].field));
        let j = choose|j: int| 0 <= j < large.len() && #[trigger] large[j].field == n2[k].field;
        assert(counts_agree(small[i], n1));
        assert(counts_agree(large[j], n2));
        lemma_count_concat(n1, extra, f, WireType::Varint);
        lemma_count_concat(n1, extra, f, WireType::Fixed64);
        lemma_count_concat(n1, extra, f, WireType::LengthDelimited);
        lemma_count_concat(n1, extra, f, WireType::Fixed32);
        assert(dominated_by(small[i], large[j]));
    }
}

/// The list entries among the first `j + 1` fields.
proof fn lemma_list_entries_step(raw: Seq<RawFieldView>, j: int)
    requires
        0 <= j < raw.len(),
    ensures
        list_entries(raw.take(j + 1)) == (if is_list_entry(raw[j]) {
            list_entries(raw.take(j)).push(raw[j])
        } else {
            list_entries(raw.take(j))
        }),
{
    reveal_with_fuel(Seq::<_>::filter, 1);
    assert(raw.take(j + 1).drop_last() =~= raw.take(j));
}

/// The list entries among the first `j` fields come first among all of them.
proof fn lemma_list_entries_prefix(raw: Seq<RawFieldView>, j: int)
    requires
        0 <= j <= raw.len(),
    ensures
        list_entries(raw) == list_entries(raw.take(j)) + list_entries(raw.skip(j)),
{
    assert(raw == raw.take(j) + raw.skip(j));
    Seq::filter_distributes_over_add(raw.take(j), raw.skip(j), |f: RawFieldView| is_list_entry(f));
}

/// Accounts for the raw fields of one payload.
fn survey_payload(usage: &mut Vec<FieldUsage>, b: &Vec<u8>, Ghost(done): Ghost<Seq<RawFieldView>>)
    requires
        usage_matches(old(usage)@, done),
        done.len() + raw_fields(b@).len() <= usize::MAX,
    ensures
        usage_matches(final(usage)@, done + raw_fields(b@)),
{
    let nested = parse_raw_fields(b.as_slice());
    let ghost inner = raw_fields(b@);
    let mut k: usize = 0;
    assert(done + inner.take(0) =~= done);
    while k < nested.len()
        invariant
            k <= nested.len(),
            raw_view(nested@) == inner,
            inner == raw_fields(b@),
            done.len() + inner.len() <= usize::MAX,
            usage_matches(usage@, done + inner.take(k as int)),
        decreases nested.len() - k,
    {
        assert(inner[k as int] == nested@[k as int]@);
        assert((done + inner.take(k as int)).len() == done.len() + k);
        record_field(usage, nested[k].field, nested[k].wire_type, Ghost(done + inner.take(k as int)), Ghost(inner[k as int]));
        assert((done + inner.take(k as int)).push(inner[k as int]) =~= done + inner.take(k + 1));
        k += 1;
    }
    assert(inner.take(nested.len() as int) =~= inner);
}

/// Collects, over the first `sample` entries of a field-1 list wrapper, how
/// often each field number occurs with each wire type, ordered by field
/// number.
#[verifier::spinoff_prover]
#[verifier::rlimit(40)]
pub fn top_field_union(buf: &[u8], sample: usize) -> (r: Vec<FieldUsage>)
    ensures
        usage_matches(r@, nested_fields(sampled_entries(raw_fields(buf@), sample as nat))),
{
    let raw = parse_raw_fields(buf);
    let ghost all = raw_fields(buf@);
    let buf_len = buf.len();
    proof {
        lemma_scan_payload_total(buf@, 0);
    }
    let mut usage: Vec<FieldUsage> = Vec::new();
    let mut records: usize = 0;
    let mut j: usize = 0;
    assert(all.take(0) =~= Seq::<RawFieldView>::empty());
    assert(all.take(raw.len() as int) =~= all);
    assert(list_entries(all).take(list_entries(all).len() as int) =~= list_entries(all));
    while j < raw.len()
        invariant_except_break
            j <= raw.len(),
            list_entries(all).take(list_entries(all).len() as int) == list_entries(all),
            raw_view(raw@) == all,
            all.take(raw.len() as int) == all,
            payload_total(all) <= buf@.len(),
            buf_len == buf@.len(),
            records <= sample,
            records == list_entries(all.take(j as int)).len(),
            nested_fields(list_entries(all.take(j as int))).len() <= payload_total(all.take(j as int)),
            usage_matches(usage@, nested_fields(list_entries(all.take(j as int)))),
        ensures
            usage_matches(usage@, nested_fields(sampled_entries(all, sample as nat))),
        decreases raw.len() - j,
    {
        let ghost entries = list_entries(all.take(j as int));
        let ghost done = nested_fields(entries);
        proof {
            lemma_list_entries_step(all, j as int);
            assert(all[j as int] == raw@[j as int]@);
            assert(all.take(j + 1).drop_last() =~= all.take(j as int));
            assert(payload_total(all.take(j + 1)) == payload_total(all.take(j as int)) + payload_len(all[j as int]));
            lemma_payload_total_take(all, j + 1);
        }
        if raw[j].field == 1 {
            if let RawData::Bytes(b) = &raw[j].data {
                if records >= sample {
                    proof {
                        lemma_list_entries_prefix(all, j as int);
                        let l = list_entries(all);
                        assert(l.take(sample as int) =~= entries);
                    }
                    break;
                }
                proof {
                    lemma_scan_len_bound(b@, 0);
                    assert(payload(all[j as int]) == b@);
                    assert(payload_len(all[j as int]) == b@.len());
                    assert(list_entries(all.take(j + 1)) == entries.push(all[j as int]));
                    assert(entries.push(all[j as int]).drop_last() =~= entries);
                    assert(nested_fields(entries.push(all[j as int])) == done + raw_fields(b@));
                    assert(done.len() <= payload_total(all.take(j as int)));
                    assert(raw_fields(b@).len() <= b@.len());
                    assert(payload_total(all.take(j + 1)) <= payload_total(all));
                }
                survey_payload(&mut usage, b, Ghost(done));
                records += 1;
            }
        }
        j += 1;
    }
    proof {
        if j == raw.len() {
            let l = list_entries(all);
            assert(l.take(l.len() as int) =~= l);
        }
    }
    usage
}

} // verus!
