//! Messages driven by their schema: each field's plan decides how decoded
//! fields are stored and how the message is encoded, without generated code.
use vstd::prelude::*;
use crate::coded_input_stream::{
    field_error, field_read, lemma_field_read_bound, lemma_records_parse_empty,
    lemma_records_parse_step, raw_value_error, raw_value_read, records_parse, CodedInputStream,
};
use crate::coded_output_stream::{
    concat, length_delimited_bytes, length_delimited_enc, unknown_fields_bytes, unknown_value_bytes,
};
use crate::coded_output_stream::CodedOutputStream;
use crate::error::ProtobufError;
use crate::message::saturated;
use crate::field::{FieldKind, FieldPlan, FieldType, SingularFieldFlag};
use crate::unknown::{
    lemma_records_enc_concat, lemma_records_enc_push, raw_value_enc, record_enc, records_enc,
    RawValue, UnknownFields, UnknownValue,
};
use crate::laws::{lemma_raw_value_read_enc, raw_value_valid, records_valid};
use crate::wire_format::{tag_bytes, valid_field_number, WireType};

verus! {

/// Stored content of one declared field.
pub enum FieldState {
    /// A singular field or oneof member: its value, if set.
    Singular(Option<RawValue>),
    /// A repeated or map field: its values in order.
    Repeated(Seq<RawValue>),
}

/// Mathematical form of a `DynamicMessage`.
pub struct DynamicModel {
    pub fields: Seq<FieldState>,
    pub unknown: Seq<(u32, RawValue)>,
}

/// A schema the dynamic message can work with: valid, distinct field numbers,
/// no groups, and packing only for scalar fields.
pub open spec fn schema_wf(plans: Seq<FieldPlan>) -> bool {
    &&& forall|i: int| 0 <= i < plans.len() ==> valid_field_number(#[trigger] plans[i].number as nat)
    &&& forall|i: int, j: int| 0 <= i < j < plans.len() ==> #[trigger] plans[i].number != #[trigger] plans[j].number
    &&& forall|i: int| 0 <= i < plans.len() ==> #[trigger] plans[i].wire_type != WireType::StartGroup
        && plans[i].wire_type != WireType::EndGroup
    &&& forall|i: int| 0 <= i < plans.len() && (#[trigger] plans[i].kind matches FieldKind::Repeated { packed } && packed)
        ==> plans[i].wire_type != WireType::LengthDelimited
}

/// The field holds one value at a time.
pub open spec fn is_singular_kind(k: FieldKind) -> bool {
    k is Singular || k is Oneof
}

/// Index of the plan for field number `n`, searching from `i`.
pub open spec fn plan_index_from(plans: Seq<FieldPlan>, n: u32, i: nat) -> Option<nat>
    decreases plans.len() - i,
{
    if i >= plans.len() {
        None
    } else if plans[i as int].number == n {
        Some(i)
    } else {
        plan_index_from(plans, n, i + 1)
    }
}

/// A plan index found from `i` points at a plan with that number.
pub proof fn lemma_plan_index_from(plans: Seq<FieldPlan>, n: u32, i: nat)
    ensures
        plan_index_from(plans, n, i) matches Some(k) ==> i <= k < plans.len() && plans[k as int].number == n,
        plan_index_from(plans, n, i) is None ==> forall|k: int| i <= k < plans.len() ==> #[trigger] plans[k].number != n,
    decreases plans.len() - i,
{
    if i < plans.len() && plans[i as int].number != n {
        lemma_plan_index_from(plans, n, i + 1);
    }
}

/// Index of the plan for field number `n`.
pub open spec fn plan_index(plans: Seq<FieldPlan>, n: u32) -> Option<nat> {
    plan_index_from(plans, n, 0)
}

/// Values of wire type `wt` back to back, where `s` holds a whole run of them.
#[verifier::opaque]
pub open spec fn packed_parse(s: Seq<u8>, wt: WireType) -> Option<Seq<RawValue>>
    decreases s.len(),
{
    if s.len() == 0 {
        Some(Seq::empty())
    } else {
        match raw_value_read(s, wt) {
            None => None,
            Some((v, k)) => if 0 < k <= s.len() {
                match packed_parse(s.skip(k as int), wt) {
                    None => None,
                    Some(rest) => Some(seq![v] + rest),
                }
            } else {
                None
            },
        }
    }
}

/// A oneof member is set: every other member of the same oneof is cleared.
pub open spec fn clear_siblings(plans: Seq<FieldPlan>, fields: Seq<FieldState>, i: int) -> Seq<FieldState> {
    Seq::new(
        fields.len(),
        |j: int|
            if j != i && j < plans.len() && plans[i].kind is Oneof && plans[j].kind == plans[i].kind {
                FieldState::Singular(None)
            } else {
                fields[j]
            },
    )
}

/// One decoded field applied to a message. A field the schema does not
/// declare, or one with another wire type than its plan's, is kept as unknown.
/// A singular message field merges: its payloads concatenate, which decodes
/// as the field-by-field merge. Any other singular value replaces the old
/// one; setting a oneof member clears the others. A repeated field appends
/// its value, or every value of a packed run. `None` where a packed run does
/// not parse.
pub open spec fn dyn_apply(plans: Seq<FieldPlan>, m: DynamicModel, r: (u32, RawValue)) -> Option<
    DynamicModel,
> {
    match plan_index(plans, r.0) {
        None => Some(DynamicModel { unknown: m.unknown.push(r), ..m }),
        Some(i) => {
            let p = plans[i as int];
            if is_singular_kind(p.kind) {
                if r.1.wire_type() != p.wire_type {
                    Some(DynamicModel { unknown: m.unknown.push(r), ..m })
                } else {
                    let v = match (m.fields[i as int], r.1) {
                        (FieldState::Singular(Some(RawValue::LengthDelimited(old))), RawValue::LengthDelimited(b)) =>
                            if p.kind is Singular && p.proto_type == FieldType::Message {
                                RawValue::LengthDelimited(old + b)
                            } else {
                                r.1
                            },
                        _ => r.1,
                    };
                    Some(
                        DynamicModel {
                            fields: clear_siblings(plans, m.fields, i as int).update(
                                i as int,
                                FieldState::Singular(Some(v)),
                            ),
                            ..m
                        },
                    )
                }
            } else {
                let old = match m.fields[i as int] {
                    FieldState::Repeated(vs) => vs,
                    FieldState::Singular(_) => Seq::empty(),
                };
                if r.1.wire_type() == p.wire_type {
                    Some(
                        DynamicModel {
                            fields: m.fields.update(i as int, FieldState::Repeated(old.push(r.1))),
                            ..m
                        },
                    )
                } else if p.wire_type != WireType::LengthDelimited && r.1 is LengthDelimited {
                    match packed_parse(r.1->LengthDelimited_0, p.wire_type) {
                        Some(vs) => Some(
                            DynamicModel {
                                fields: m.fields.update(i as int, FieldState::Repeated(old + vs)),
                                ..m
                            },
                        ),
                        None => None,
                    }
                } else {
                    Some(DynamicModel { unknown: m.unknown.push(r), ..m })
                }
            }
        },
    }
}

/// Decoded fields applied in order.
pub open spec fn dyn_merge(plans: Seq<FieldPlan>, m: DynamicModel, rs: Seq<(u32, RawValue)>) -> Option<
    DynamicModel,
>
    decreases rs.len(),
{
    if rs.len() == 0 {
        Some(m)
    } else {
        match dyn_apply(plans, m, rs[0]) {
            None => None,
            Some(m2) => dyn_merge(plans, m2, rs.drop_first()),
        }
    }
}

/// Decoding `s` into `m`: its fields, applied in order.
pub open spec fn dyn_decode(plans: Seq<FieldPlan>, m: DynamicModel, s: Seq<u8>) -> Option<DynamicModel> {
    match records_parse(s) {
        Some(rs) => dyn_merge(plans, m, rs),
        None => None,
    }
}

/// The error of reading `s` as a packed run of wire type `wt`, where that
/// fails: the error of the first value that cannot be read.
#[verifier::opaque]
pub open spec fn packed_error(s: Seq<u8>, wt: WireType) -> ProtobufError
    decreases s.len(),
{
    match raw_value_read(s, wt) {
        None => raw_value_error(s, wt),
        Some((_, k)) => if 0 < k <= s.len() {
            packed_error(s.skip(k as int), wt)
        } else {
            ProtobufError::Truncated
        },
    }
}

/// The error of applying `r` where that fails: only a packed run that does
/// not parse can fail.
pub open spec fn dyn_apply_error(plans: Seq<FieldPlan>, r: (u32, RawValue)) -> ProtobufError {
    match (plan_index(plans, r.0), r.1) {
        (Some(i), RawValue::LengthDelimited(b)) => packed_error(b, plans[i as int].wire_type),
        _ => ProtobufError::Truncated,
    }
}

/// The error of decoding `s` into `m`, where that fails: the error of the
/// first item that cannot be read or applied, in wire order.
#[verifier::opaque]
pub open spec fn dyn_decode_error(plans: Seq<FieldPlan>, m: DynamicModel, s: Seq<u8>) -> ProtobufError
    decreases s.len(),
{
    match field_read(s) {
        None => field_error(s),
        Some((o, k)) => if 0 < k <= s.len() {
            match o {
                None => dyn_decode_error(plans, m, s.skip(k as int)),
                Some(r) => match dyn_apply(plans, m, r) {
                    None => dyn_apply_error(plans, r),
                    Some(m2) => dyn_decode_error(plans, m2, s.skip(k as int)),
                },
            }
        } else {
            ProtobufError::InvalidTag
        },
    }
}

/// One step of `dyn_decode_error`.
pub proof fn lemma_dyn_decode_error_step(plans: Seq<FieldPlan>, m: DynamicModel, s: Seq<u8>)
    ensures
        dyn_decode_error(plans, m, s) == match field_read(s) {
            None => field_error(s),
            Some((o, k)) => match o {
                None => dyn_decode_error(plans, m, s.skip(k as int)),
                Some(r) => match dyn_apply(plans, m, r) {
                    None => dyn_apply_error(plans, r),
                    Some(m2) => dyn_decode_error(plans, m2, s.skip(k as int)),
                },
            },
        },
{
    reveal(dyn_decode_error);
    lemma_field_read_bound(s);
}

/// One step of `packed_error`.
pub proof fn lemma_packed_error_step(s: Seq<u8>, wt: WireType)
    ensures
        packed_error(s, wt) == match raw_value_read(s, wt) {
            None => raw_value_error(s, wt),
            Some((_, k)) => packed_error(s.skip(k as int), wt),
        },
{
    reveal(packed_error);
    crate::coded_input_stream::lemma_varint_end_bound(s, 0);
}

/// The value is its type's default: zero, or empty bytes.
pub open spec fn is_default_value(v: RawValue) -> bool {
    match v {
        RawValue::Varint(x) => x == 0,
        RawValue::Fixed32(x) => x == 0,
        RawValue::Fixed64(x) => x == 0,
        RawValue::LengthDelimited(b) => b.len() == 0,
    }
}

/// Raw encodings of values back to back.
pub open spec fn raw_concat(vs: Seq<RawValue>) -> Seq<u8>
    decreases vs.len(),
{
    if vs.len() == 0 {
        Seq::empty()
    } else {
        raw_concat(vs.drop_last()) + raw_value_enc(vs.last())
    }
}

/// The field's plan asks for packed encoding.
pub open spec fn is_packed(p: FieldPlan) -> bool {
    p.kind matches FieldKind::Repeated { packed } && packed
}

/// The records one field encodes as. A singular field without presence
/// tracking is left out while it holds its default; a packed field with
/// values is one length-delimited record; other repeated and map fields give
/// one record per value.
pub open spec fn field_records(p: FieldPlan, st: FieldState) -> Seq<(u32, RawValue)> {
    match st {
        FieldState::Singular(None) => Seq::empty(),
        FieldState::Singular(Some(v)) => if p.kind == FieldKind::Singular(SingularFieldFlag::WithoutFlag)
            && is_default_value(v) {
            Seq::empty()
        } else {
            seq![(p.number, v)]
        },
        FieldState::Repeated(vs) => if is_packed(p) {
            if vs.len() == 0 {
                Seq::empty()
            } else {
                seq![(p.number, RawValue::LengthDelimited(raw_concat(vs)))]
            }
        } else {
            Seq::new(vs.len(), |k: int| (p.number, vs[k]))
        },
    }
}

/// Records of the first `n` fields, in declaration order.
pub open spec fn dyn_records(plans: Seq<FieldPlan>, fields: Seq<FieldState>, n: nat) -> Seq<(u32, RawValue)>
    decreases n,
{
    if n == 0 {
        Seq::empty()
    } else {
        dyn_records(plans, fields, (n - 1) as nat) + field_records(plans[n - 1], fields[n - 1])
    }
}

/// Bytes of a dynamic message: its declared fields in order, then its unknown
/// fields.
pub open spec fn dyn_enc(plans: Seq<FieldPlan>, m: DynamicModel) -> Seq<u8> {
    records_enc(dyn_records(plans, m.fields, plans.len()) + m.unknown)
}

/// A stored field that encoding and decoding reproduce: values of the plan's
/// wire type that the wire can carry, no default held without presence
/// tracking, and a packed run short enough for its length prefix.
pub open spec fn state_valid(p: FieldPlan, st: FieldState) -> bool {
    match st {
        FieldState::Singular(o) => is_singular_kind(p.kind) && match o {
            None => true,
            Some(v) => v.wire_type() == p.wire_type && raw_value_valid(v) && !(p.kind == FieldKind::Singular(
                SingularFieldFlag::WithoutFlag,
            ) && is_default_value(v)),
        },
        FieldState::Repeated(vs) => {
            &&& !is_singular_kind(p.kind)
            &&& forall|k: int| 0 <= k < vs.len() ==> (#[trigger] vs[k]).wire_type() == p.wire_type && raw_value_valid(vs[k])
            &&& is_packed(p) ==> raw_concat(vs).len() <= u64::MAX
        },
    }
}

/// A message of the schema that encoding and decoding reproduce: valid
/// fields, at most one member set per oneof, and unknown fields that the wire
/// can carry under numbers the schema does not declare.
pub open spec fn dyn_valid(plans: Seq<FieldPlan>, m: DynamicModel) -> bool {
    &&& m.fields.len() == plans.len()
    &&& forall|i: int| 0 <= i < plans.len() ==> state_valid(#[trigger] plans[i], m.fields[i])
    &&& forall|i: int, j: int|
        0 <= i < plans.len() && 0 <= j < plans.len() && i != j && plans[i].kind is Oneof && #[trigger] plans[j].kind
            == #[trigger] plans[i].kind && !(m.fields[i] == FieldState::Singular(None)) ==> m.fields[j]
            == FieldState::Singular(None)
    &&& records_valid(m.unknown)
    &&& forall|k: int| 0 <= k < m.unknown.len() ==> plan_index(plans, #[trigger] m.unknown[k].0) is None
}

/// Decoded fields applied in two runs are applied in one.
pub proof fn lemma_dyn_merge_concat(
    plans: Seq<FieldPlan>,
    m: DynamicModel,
    a: Seq<(u32, RawValue)>,
    b: Seq<(u32, RawValue)>,
)
    ensures
        dyn_merge(plans, m, a + b) == match dyn_merge(plans, m, a) {
            Some(m1) => dyn_merge(plans, m1, b),
            None => None,
        },
    decreases a.len(),
{
    if a.len() == 0 {
        assert(a + b =~= b);
    } else {
        assert((a + b).drop_first() =~= a.drop_first() + b);
        assert((a + b)[0] == a[0]);
        if let Some(m2) = dyn_apply(plans, m, a[0]) {
            lemma_dyn_merge_concat(plans, m2, a.drop_first(), b);
        }
    }
}

/// In a schema with distinct numbers, a plan's number leads back to it.
pub proof fn lemma_plan_index_of(plans: Seq<FieldPlan>, n: int)
    requires
        schema_wf(plans),
        0 <= n < plans.len(),
    ensures
        plan_index(plans, plans[n].number) == Some(n as nat),
{
    lemma_plan_index_from(plans, plans[n].number, 0);
    if let Some(k) = plan_index(plans, plans[n].number) {
        if k < n {
            assert(plans[k as int].number != plans[n].number);
        } else if k > n {
            assert(plans[n].number != plans[k as int].number);
        }
    }
}

pub proof fn lemma_raw_concat_prepend(v: RawValue, vs: Seq<RawValue>)
    ensures
        raw_concat(seq![v] + vs) == raw_value_enc(v) + raw_concat(vs),
    decreases vs.len(),
{
    if vs.len() == 0 {
        assert((seq![v] + vs).drop_last() =~= Seq::<RawValue>::empty());
        assert(raw_concat(Seq::<RawValue>::empty()) == Seq::<u8>::empty());
        assert(raw_concat(seq![v] + vs) =~= raw_value_enc(v) + raw_concat(vs));
    } else {
        assert((seq![v] + vs).drop_last() =~= seq![v] + vs.drop_last());
        lemma_raw_concat_prepend(v, vs.drop_last());
        assert((seq![v] + vs).last() == vs.last());
        assert(raw_concat(seq![v] + vs) =~= raw_value_enc(v) + raw_concat(vs));
    }
}

/// A packed run parses back to its values.
pub proof fn lemma_packed_round_trip(vs: Seq<RawValue>, wt: WireType)
    requires
        forall|k: int| 0 <= k < vs.len() ==> (#[trigger] vs[k]).wire_type() == wt && raw_value_valid(vs[k]),
    ensures
        packed_parse(raw_concat(vs), wt) == Some(vs),
    decreases vs.len(),
{
    let s = raw_concat(vs);
    if vs.len() == 0 {
        lemma_packed_parse_step(s, wt);
        assert(vs =~= Seq::<RawValue>::empty());
    } else {
        let v = vs[0];
        let rest = vs.drop_first();
        assert(vs =~= seq![v] + rest);
        lemma_raw_concat_prepend(v, rest);
        assert(v.wire_type() == wt && raw_value_valid(v));
        lemma_raw_value_read_enc(v, raw_concat(rest));
        lemma_packed_parse_step(s, wt);
        crate::coded_input_stream::lemma_varint_end_bound(s, 0);
        assert(raw_value_enc(v).len() > 0) by {
            match v {
                RawValue::Varint(x) => crate::varint::lemma_varint_enc(x as nat),
                RawValue::LengthDelimited(b) => crate::varint::lemma_varint_enc(b.len()),
                RawValue::Fixed32(x) => crate::wire_format::lemma_le32_round_trip(x),
                RawValue::Fixed64(x) => crate::wire_format::lemma_le64_round_trip(x),
            }
        }
        assert(s.skip(raw_value_enc(v).len() as int) =~= raw_concat(rest));
        assert forall|k: int| 0 <= k < rest.len() implies (#[trigger] rest[k]).wire_type() == wt && raw_value_valid(rest[k]) by {
            assert(rest[k] == vs[k + 1]);
        }
        lemma_packed_round_trip(rest, wt);
    }
}

/// The first `n` fields as in `fields`, the others empty, no unknown fields.
pub open spec fn partial(plans: Seq<FieldPlan>, fields: Seq<FieldState>, n: nat) -> DynamicModel {
    DynamicModel {
        fields: Seq::new(plans.len(), |i: int| if i < n { fields[i] } else { empty_state(plans[i]) }),
        unknown: Seq::empty(),
    }
}

proof fn lemma_unpacked_step(plans: Seq<FieldPlan>, m: DynamicModel, n: nat, vs: Seq<RawValue>, k: nat)
    requires
        schema_wf(plans),
        dyn_valid(plans, m),
        n < plans.len(),
        m.fields[n as int] == FieldState::Repeated(vs),
        !is_packed(plans[n as int]),
        k <= vs.len(),
    ensures
        ({
            let base = partial(plans, m.fields, n);
            let start = DynamicModel {
                fields: base.fields.update(n as int, FieldState::Repeated(vs.take(k as int))),
                ..base
            };
            let recs = Seq::new(vs.len(), |j: int| (plans[n as int].number, vs[j]));
            dyn_merge(plans, start, recs.skip(k as int)) == Some(partial(plans, m.fields, n + 1))
        }),
    decreases vs.len() - k,
{
    let p = plans[n as int];
    let base = partial(plans, m.fields, n);
    let start = DynamicModel { fields: base.fields.update(n as int, FieldState::Repeated(vs.take(k as int))), ..base };
    let recs = Seq::new(vs.len(), |j: int| (p.number, vs[j]));
    assert(state_valid(p, m.fields[n as int]));
    if k == vs.len() {
        assert(recs.skip(k as int) =~= Seq::<(u32, RawValue)>::empty());
        assert(vs.take(k as int) =~= vs);
        assert(start.fields =~= partial(plans, m.fields, n + 1).fields);
    } else {
        let r = recs[k as int];
        assert(recs.skip(k as int)[0] == r);
        assert(recs.skip(k as int).drop_first() =~= recs.skip((k + 1) as int));
        lemma_plan_index_of(plans, n as int);
        assert(r.1.wire_type() == p.wire_type);
        let next = DynamicModel { fields: base.fields.update(n as int, FieldState::Repeated(vs.take((k + 1) as int))), ..base };
        assert(vs.take(k as int).push(vs[k as int]) =~= vs.take((k + 1) as int));
        assert(start.fields[n as int] == FieldState::Repeated(vs.take(k as int)));
        assert(dyn_apply(plans, start, r) == Some(next)) by {
            assert(start.fields.update(n as int, FieldState::Repeated(vs.take(k as int).push(vs[k as int]))) =~= next.fields);
        }
        lemma_unpacked_step(plans, m, n, vs, k + 1);
    }
}

proof fn lemma_field_step(plans: Seq<FieldPlan>, m: DynamicModel, n: nat)
    requires
        schema_wf(plans),
        dyn_valid(plans, m),
        n < plans.len(),
    ensures
        dyn_merge(plans, partial(plans, m.fields, n), field_records(plans[n as int], m.fields[n as int]))
            == Some(partial(plans, m.fields, n + 1)),
{
    let p = plans[n as int];
    let st = m.fields[n as int];
    let base = partial(plans, m.fields, n);
    let goal = partial(plans, m.fields, n + 1);
    assert(state_valid(p, st));
    lemma_plan_index_of(plans, n as int);
    match st {
        FieldState::Singular(None) => {
            assert(base.fields =~= goal.fields);
            assert(base == goal);
            assert(field_records(p, st) =~= Seq::<(u32, RawValue)>::empty());
        },
        FieldState::Singular(Some(v)) => {
            let r = (p.number, v);
            assert(field_records(p, st) == seq![r]);
            assert(seq![r].drop_first() =~= Seq::<(u32, RawValue)>::empty());
            assert(base.fields[n as int] == FieldState::Singular(None));
            let cleared = clear_siblings(plans, base.fields, n as int).update(n as int, FieldState::Singular(Some(v)));
            assert forall|j: int| 0 <= j < plans.len() implies #[trigger] cleared[j] == goal.fields[j] by {
                if j != n && p.kind is Oneof && plans[j].kind == p.kind {
                    if j < n {
                        assert(m.fields[j] == FieldState::Singular(None));
                    } else {
                        assert(empty_state(plans[j]) == FieldState::Singular(None));
                    }
                }
            }
            assert(cleared =~= goal.fields);
            assert(dyn_apply(plans, base, r) == Some(goal));
            assert(dyn_merge(plans, goal, seq![r].drop_first()) == Some(goal));
            assert(seq![r][0] == r);
        },
        FieldState::Repeated(vs) => {
            assert(base.fields[n as int] == FieldState::Repeated(Seq::empty()));
            if is_packed(p) {
                if vs.len() == 0 {
                    assert(vs =~= Seq::<RawValue>::empty());
                    assert(base.fields =~= goal.fields);
                    assert(base == goal);
                    assert(field_records(p, st) =~= Seq::<(u32, RawValue)>::empty());
                } else {
                    let r = (p.number, RawValue::LengthDelimited(raw_concat(vs)));
                    assert(field_records(p, st) == seq![r]);
                    assert(seq![r].drop_first() =~= Seq::<(u32, RawValue)>::empty());
                    lemma_packed_round_trip(vs, p.wire_type);
                    assert(Seq::<RawValue>::empty() + vs =~= vs);
                    assert(base.fields.update(n as int, FieldState::Repeated(Seq::<RawValue>::empty() + vs)) =~= goal.fields);
                    assert(dyn_apply(plans, base, r) == Some(goal));
                    assert(dyn_merge(plans, goal, seq![r].drop_first()) == Some(goal));
                    assert(seq![r][0] == r);
                }
            } else {
                lemma_unpacked_step(plans, m, n, vs, 0);
                let recs = Seq::new(vs.len(), |j: int| (p.number, vs[j]));
                assert(recs.skip(0) =~= recs);
                assert(vs.take(0) =~= Seq::<RawValue>::empty());
                assert(base.fields.update(n as int, FieldState::Repeated(vs.take(0))) =~= base.fields);
                let start = DynamicModel {
                    fields: base.fields.update(n as int, FieldState::Repeated(vs.take(0))),
                    ..base
                };
                assert(start == base);
                assert(field_records(p, st) == recs);
            }
        },
    }
}

proof fn lemma_dyn_records_valid(plans: Seq<FieldPlan>, m: DynamicModel, n: nat)
    requires
        schema_wf(plans),
        dyn_valid(plans, m),
        n <= plans.len(),
    ensures
        records_valid(dyn_records(plans, m.fields, n)),
        dyn_merge(plans, dyn_default(plans), dyn_records(plans, m.fields, n)) == Some(partial(plans, m.fields, n)),
    decreases n,
{
    if n == 0 {
        assert(partial(plans, m.fields, 0).fields =~= dyn_default(plans).fields);
    } else {
        let k = (n - 1) as nat;
        lemma_dyn_records_valid(plans, m, k);
        let p = plans[k as int];
        let st = m.fields[k as int];
        assert(state_valid(p, st));
        let fr = field_records(p, st);
        let all = dyn_records(plans, m.fields, k) + fr;
        assert forall|i: int| 0 <= i < fr.len() implies crate::laws::record_valid(#[trigger] fr[i]) by {
            match st {
                FieldState::Repeated(vs) => {
                    if !is_packed(p) {
                        assert(fr[i] == (p.number, vs[i]));
                    }
                },
                _ => {},
            }
        }
        assert forall|i: int| 0 <= i < all.len() implies crate::laws::record_valid(#[trigger] all[i]) by {
            if i < dyn_records(plans, m.fields, k).len() {
                assert(all[i] == dyn_records(plans, m.fields, k)[i]);
            } else {
                assert(all[i] == fr[i - dyn_records(plans, m.fields, k).len()]);
            }
        }
        lemma_dyn_merge_concat(plans, dyn_default(plans), dyn_records(plans, m.fields, k), fr);
        lemma_field_step(plans, m, k);
    }
}

proof fn lemma_unknown_merge(plans: Seq<FieldPlan>, x: DynamicModel, u: Seq<(u32, RawValue)>)
    requires
        forall|k: int| 0 <= k < u.len() ==> plan_index(plans, #[trigger] u[k].0) is None,
    ensures
        dyn_merge(plans, x, u) == Some(DynamicModel { unknown: x.unknown + u, ..x }),
    decreases u.len(),
{
    if u.len() == 0 {
        assert(x.unknown + u =~= x.unknown);
    } else {
        assert(plan_index(plans, u[0].0) is None);
        let x2 = DynamicModel { unknown: x.unknown.push(u[0]), ..x };
        assert forall|k: int| 0 <= k < u.drop_first().len() implies plan_index(plans, #[trigger] u.drop_first()[k].0) is None by {
            assert(u.drop_first()[k] == u[k + 1]);
        }
        lemma_unknown_merge(plans, x2, u.drop_first());
        assert(x.unknown.push(u[0]) + u.drop_first() =~= x.unknown + u);
    }
}

/// Round trip of schema-driven messages: decoding the bytes of a valid
/// message of a schema into the schema's empty message gives the message back.
pub proof fn lemma_dynamic_round_trip(plans: Seq<FieldPlan>, m: DynamicModel)
    requires
        schema_wf(plans),
        dyn_valid(plans, m),
    ensures
        dyn_decode(plans, dyn_default(plans), dyn_enc(plans, m)) == Some(m),
{
    let known = dyn_records(plans, m.fields, plans.len());
    let all = known + m.unknown;
    lemma_dyn_records_valid(plans, m, plans.len());
    assert forall|i: int| 0 <= i < all.len() implies crate::laws::record_valid(#[trigger] all[i]) by {
        if i < known.len() {
            assert(all[i] == known[i]);
        } else {
            assert(all[i] == m.unknown[i - known.len()]);
        }
    }
    crate::laws::lemma_records_round_trip(all);
    lemma_dyn_merge_concat(plans, dyn_default(plans), known, m.unknown);
    let pm = partial(plans, m.fields, plans.len());
    lemma_unknown_merge(plans, pm, m.unknown);
    assert(pm.fields =~= m.fields);
    assert(Seq::<(u32, RawValue)>::empty() + m.unknown =~= m.unknown);
}

proof fn lemma_unpacked_append(
    plans: Seq<FieldPlan>,
    m: DynamicModel,
    i: nat,
    old_vs: Seq<RawValue>,
    vs: Seq<RawValue>,
    k: nat,
)
    requires
        schema_wf(plans),
        m.fields.len() == plans.len(),
        i < plans.len(),
        !is_singular_kind(plans[i as int].kind),
        forall|j: int| 0 <= j < vs.len() ==> (#[trigger] vs[j]).wire_type() == plans[i as int].wire_type,
        k <= vs.len(),
    ensures
        ({
            let start = DynamicModel {
                fields: m.fields.update(i as int, FieldState::Repeated(old_vs + vs.take(k as int))),
                ..m
            };
            let recs = Seq::new(vs.len(), |j: int| (plans[i as int].number, vs[j]));
            dyn_merge(plans, start, recs.skip(k as int)) == Some(
                DynamicModel { fields: m.fields.update(i as int, FieldState::Repeated(old_vs + vs)), ..m },
            )
        }),
    decreases vs.len() - k,
{
    let recs = Seq::new(vs.len(), |j: int| (plans[i as int].number, vs[j]));
    let start = DynamicModel { fields: m.fields.update(i as int, FieldState::Repeated(old_vs + vs.take(k as int))), ..m };
    if k == vs.len() {
        assert(recs.skip(k as int) =~= Seq::<(u32, RawValue)>::empty());
        assert(vs.take(k as int) =~= vs);
    } else {
        let r = recs[k as int];
        assert(recs.skip(k as int)[0] == r);
        assert(recs.skip(k as int).drop_first() =~= recs.skip((k + 1) as int));
        lemma_plan_index_of(plans, i as int);
        assert((old_vs + vs.take(k as int)).push(vs[k as int]) =~= old_vs + vs.take((k + 1) as int));
        let next = DynamicModel { fields: m.fields.update(i as int, FieldState::Repeated(old_vs + vs.take((k + 1) as int))), ..m };
        assert(start.fields[i as int] == FieldState::Repeated(old_vs + vs.take(k as int)));
        assert(dyn_apply(plans, start, r) == Some(next)) by {
            assert(start.fields.update(i as int, FieldState::Repeated((old_vs + vs.take(k as int)).push(vs[k as int])))
                =~= next.fields);
        }
        lemma_unpacked_append(plans, m, i, old_vs, vs, k + 1);
    }
}

/// Packed and unpacked forms of a repeated scalar field: the bytes of one
/// record per value and the bytes of one packed record both decode, into any
/// message, by appending exactly those values to the field.
pub proof fn lemma_dynamic_packed_unpacked(
    plans: Seq<FieldPlan>,
    m: DynamicModel,
    i: nat,
    vs: Seq<RawValue>,
)
    requires
        schema_wf(plans),
        m.fields.len() == plans.len(),
        i < plans.len(),
        !is_singular_kind(plans[i as int].kind),
        plans[i as int].wire_type != WireType::LengthDelimited,
        m.fields[i as int] is Repeated,
        forall|j: int| 0 <= j < vs.len() ==> (#[trigger] vs[j]).wire_type() == plans[i as int].wire_type
            && raw_value_valid(vs[j]),
        raw_concat(vs).len() <= u64::MAX,
    ensures
        ({
            let n = plans[i as int].number;
            let old_vs = m.fields[i as int]->Repeated_0;
            let result = DynamicModel { fields: m.fields.update(i as int, FieldState::Repeated(old_vs + vs)), ..m };
            &&& dyn_decode(plans, m, records_enc(Seq::new(vs.len(), |j: int| (n, vs[j])))) == Some(result)
            &&& dyn_decode(plans, m, records_enc(seq![(n, RawValue::LengthDelimited(raw_concat(vs)))])) == Some(result)
        }),
{
    let p = plans[i as int];
    let n = p.number;
    let old_vs = m.fields[i as int]->Repeated_0;
    let result = DynamicModel { fields: m.fields.update(i as int, FieldState::Repeated(old_vs + vs)), ..m };
    let un = Seq::new(vs.len(), |j: int| (n, vs[j]));
    let pk = seq![(n, RawValue::LengthDelimited(raw_concat(vs)))];
    assert(valid_field_number(n as nat));
    assert(records_valid(un)) by {
        assert forall|j: int| 0 <= j < un.len() implies crate::laws::record_valid(#[trigger] un[j]) by {}
    }
    assert(records_valid(pk)) by {
        assert forall|j: int| 0 <= j < pk.len() implies crate::laws::record_valid(#[trigger] pk[j]) by {
            assert(pk[j] == pk[0]);
        }
    }
    crate::laws::lemma_records_round_trip(un);
    crate::laws::lemma_records_round_trip(pk);
    lemma_unpacked_append(plans, m, i, old_vs, vs, 0);
    assert(un.skip(0) =~= un);
    assert(vs.take(0) =~= Seq::<RawValue>::empty());
    assert(old_vs + Seq::<RawValue>::empty() =~= old_vs);
    assert(m.fields.update(i as int, FieldState::Repeated(old_vs)) =~= m.fields);
    let m0 = DynamicModel { fields: m.fields.update(i as int, FieldState::Repeated(old_vs + vs.take(0))), ..m };
    assert(m0 == m);
    lemma_plan_index_of(plans, i as int);
    lemma_packed_round_trip(vs, p.wire_type);
    assert(pk[0].1.wire_type() == WireType::LengthDelimited);
    assert(dyn_apply(plans, m, pk[0]) == Some(result));
    assert(pk.drop_first() =~= Seq::<(u32, RawValue)>::empty());
    assert(dyn_merge(plans, m, pk) == dyn_merge(plans, result, pk.drop_first()));
    assert(dyn_merge(plans, result, Seq::<(u32, RawValue)>::empty()) == Some(result));
    assert(un =~= Seq::new(vs.len(), |j: int| (plans[i as int].number, vs[j])));
    assert(dyn_merge(plans, m, un) == Some(result));
}

/// Stored content of one declared field.
#[derive(Debug, PartialEq, Eq)]
pub enum FieldValue {
    /// A singular field or oneof member: its value, if set.
    Singular(Option<UnknownValue>),
    /// A repeated or map field: its values in order.
    Repeated(Vec<UnknownValue>),
}

/// Mathematical form of stored values.
pub open spec fn values_view(v: Seq<UnknownValue>) -> Seq<RawValue> {
    v.map_values(|u: UnknownValue| u@)
}

impl View for FieldValue {
    type V = FieldState;

    open spec fn view(&self) -> FieldState {
        match self {
            FieldValue::Singular(o) => FieldState::Singular(
                match o {
                    Some(u) => Some(u@),
                    None => None,
                },
            ),
            FieldValue::Repeated(v) => FieldState::Repeated(values_view(v@)),
        }
    }
}

/// A message whose layout is given by a schema: one stored value per plan,
/// in the plans' order, and the fields the schema does not declare.
#[derive(Debug, PartialEq, Eq)]
pub struct DynamicMessage {
    pub fields: Vec<FieldValue>,
    pub unknown_fields: UnknownFields,
}

impl View for DynamicMessage {
    type V = DynamicModel;

    open spec fn view(&self) -> DynamicModel {
        DynamicModel { fields: self.fields@.map_values(|f: FieldValue| f@), unknown: self.unknown_fields@ }
    }
}

/// Nothing set: no value in a singular field, none in a repeated one.
pub open spec fn empty_state(p: FieldPlan) -> FieldState {
    if is_singular_kind(p.kind) {
        FieldState::Singular(None)
    } else {
        FieldState::Repeated(Seq::empty())
    }
}

/// The empty message of a schema.
pub open spec fn dyn_default(plans: Seq<FieldPlan>) -> DynamicModel {
    DynamicModel { fields: plans.map_values(|p: FieldPlan| empty_state(p)), unknown: Seq::empty() }
}

/// Index of the plan for field number `n`.
pub fn find_plan(plans: &[FieldPlan], n: u32) -> (r: Option<usize>)
    ensures
        r matches Some(i) ==> i < plans@.len() && plans@[i as int].number == n,
        match r {
            Some(i) => plan_index(plans@, n) == Some(i as nat),
            None => plan_index(plans@, n) is None,
        },
{
    let mut i: usize = 0;
    while i < plans.len()
        invariant
            i <= plans@.len(),
            plan_index(plans@, n) == plan_index_from(plans@, n, i as nat),
        decreases plans@.len() - i,
    {
        if plans[i].number == n {
            return Some(i);
        }
        i = i + 1;
    }
    proof {
        lemma_plan_index_from(plans@, n, 0);
    }
    None
}

pub proof fn lemma_packed_parse_step(s: Seq<u8>, wt: WireType)
    ensures
        s.len() == 0 ==> packed_parse(s, wt) == Some(Seq::<RawValue>::empty()),
        s.len() > 0 ==> packed_parse(s, wt) == match raw_value_read(s, wt) {
            None => None,
            Some((v, k)) => match packed_parse(s.skip(k as int), wt) {
                None => None,
                Some(rest) => Some(seq![v] + rest),
            },
        },
{
    reveal(packed_parse);
    crate::coded_input_stream::lemma_varint_end_bound(s, 0);
}

/// Values of wire type `wt` back to back in `bytes`.
pub fn packed_values(bytes: &Vec<u8>, wt: WireType) -> (r: Result<Vec<UnknownValue>, ProtobufError>)
    ensures
        match packed_parse(bytes@, wt) {
            Some(vs) => r matches Ok(v) && values_view(v@) == vs,
            None => r == Err::<Vec<UnknownValue>, ProtobufError>(packed_error(bytes@, wt)),
        },
{
    let mut input = CodedInputStream::from_bytes(bytes.as_slice());
    let ghost s0 = input.remaining();
    assert(s0 =~= bytes@);
    let mut out: Vec<UnknownValue> = Vec::new();
    proof {
        assert(values_view(out@) =~= Seq::<RawValue>::empty());
    }
    while !input.eof()
        invariant
            input.wf(),
            s0 == bytes@,
            packed_parse(s0, wt) is Some <==> packed_parse(input.remaining(), wt) is Some,
            packed_parse(input.remaining(), wt) is Some ==> packed_parse(s0, wt).unwrap() == values_view(
                out@,
            ) + packed_parse(input.remaining(), wt).unwrap(),
            packed_error(s0, wt) == packed_error(input.remaining(), wt),
        decreases input.remaining().len(),
    {
        let ghost rem = input.remaining();
        proof {
            lemma_packed_parse_step(rem, wt);
            lemma_packed_error_step(rem, wt);
        }
        let v = match input.read_raw_value(wt) {
            Ok(v) => v,
            Err(e) => {
                return Err(e);
            },
        };
        proof {
            let k = raw_value_read(rem, wt).unwrap().1;
            assert(input.remaining() =~= rem.skip(k as int));
        }
        let ghost before = out@;
        out.push(v);
        proof {
            assert(values_view(out@) =~= values_view(before).push(v@));
            if packed_parse(input.remaining(), wt) is Some {
                let rest = packed_parse(input.remaining(), wt).unwrap();
                assert(values_view(before).push(v@) + rest =~= values_view(before) + (seq![v@] + rest));
            }
        }
    }
    proof {
        lemma_packed_parse_step(input.remaining(), wt);
        assert(values_view(out@) + Seq::<RawValue>::empty() =~= values_view(out@));
    }
    Ok(out)
}

impl DynamicMessage {
    /// The empty message of the schema `plans`.
    pub fn new(plans: &[FieldPlan]) -> (r: DynamicMessage)
        ensures
            r@ == dyn_default(plans@),
            r.fields@.len() == plans@.len(),
            r.unknown_fields.wf(),
    {
        let mut fields: Vec<FieldValue> = Vec::new();
        let mut i: usize = 0;
        while i < plans.len()
            invariant
                i <= plans@.len(),
                fields@.len() == i,
                forall|j: int| 0 <= j < i ==> (#[trigger] fields@[j])@ == empty_state(plans@[j]),
            decreases plans@.len() - i,
        {
            let v = match plans[i].kind {
                FieldKind::Singular(_) | FieldKind::Oneof(_) => FieldValue::Singular(None),
                _ => FieldValue::Repeated(Vec::new()),
            };
            fields.push(v);
            proof {
                assert(values_view(Seq::<UnknownValue>::empty()) =~= Seq::<RawValue>::empty());
            }
            i = i + 1;
        }
        let r = DynamicMessage { fields, unknown_fields: UnknownFields::new() };
        assert(r@.fields =~= dyn_default(plans@).fields);
        r
    }

    /// Reads fields up to the end of the input's current frame into this
    /// message.
    pub fn merge_from(&mut self, plans: &[FieldPlan], input: &mut CodedInputStream) -> (r: Result<
        (),
        ProtobufError,
    >)
        requires
            schema_wf(plans@),
            old(self).fields@.len() == plans@.len(),
            old(self).unknown_fields.wf(),
            old(input).wf(),
        ensures
            final(input).wf(),
            final(self).fields@.len() == plans@.len(),
            final(self).unknown_fields.wf(),
            match dyn_decode(plans@, old(self)@, old(input).remaining()) {
                Some(m) => r is Ok && final(self)@ == m,
                None => r == Err::<(), ProtobufError>(
                    dyn_decode_error(plans@, old(self)@, old(input).remaining()),
                ),
            },
    {
        let ghost s0 = input.remaining();
        let ghost m0 = self@;
        while !input.eof()
            invariant
                input.wf(),
                input.same_frame(old(input)),
                schema_wf(plans@),
                self.fields@.len() == plans@.len(),
                self.unknown_fields.wf(),
                s0 == old(input).remaining(),
                m0 == old(self)@,
                dyn_decode(plans@, m0, s0) == dyn_decode(plans@, self@, input.remaining()),
                dyn_decode(plans@, m0, s0) is None ==> dyn_decode_error(plans@, m0, s0) == dyn_decode_error(
                    plans@,
                    self@,
                    input.remaining(),
                ),
            decreases input.remaining().len(),
        {
            let ghost rem = input.remaining();
            let ghost before = self@;
            proof {
                lemma_records_parse_step(rem);
                lemma_dyn_decode_error_step(plans@, before, rem);
            }
            let item = match input.read_field() {
                Ok(item) => item,
                Err(e) => {
                    return Err(e);
                },
            };
            proof {
                let k = field_read(rem).unwrap().1;
                assert(input.remaining() =~= rem.skip(k as int));
            }
            match item {
                Some((number, value)) => {
                    let ghost rv = value@;
                    let res = self.apply_record(plans, number, value);
                    proof {
                        if let Some(rest) = records_parse(input.remaining()) {
                            let rs = seq![(number, rv)] + rest;
                            assert(rs.drop_first() =~= rest);
                            assert(rs[0] == (number, rv));
                        }
                    }
                    match res {
                        Ok(()) => {},
                        Err(e) => {
                            return Err(e);
                        },
                    }
                },
                None => {},
            }
        }
        proof {
            lemma_records_parse_empty(input.remaining());
        }
        Ok(())
    }

    /// Decodes a message of the schema `plans` from a whole input.
    pub fn parse_from_bytes(plans: &[FieldPlan], bytes: &[u8]) -> (r: Result<DynamicMessage, ProtobufError>)
        requires
            schema_wf(plans@),
        ensures
            match dyn_decode(plans@, dyn_default(plans@), bytes@) {
                Some(m) => r matches Ok(v) && v@ == m,
                None => r == Err::<DynamicMessage, ProtobufError>(
                    dyn_decode_error(plans@, dyn_default(plans@), bytes@),
                ),
            },
    {
        let mut input = CodedInputStream::from_bytes(bytes);
        let mut v = DynamicMessage::new(plans);
        assert(input.remaining() =~= bytes@);
        v.merge_from(plans, &mut input)?;
        Ok(v)
    }

    /// The bytes of this message.
    pub fn write_to_bytes(&self, plans: &[FieldPlan]) -> (r: Vec<u8>)
        requires
            schema_wf(plans@),
            self.fields@.len() == plans@.len(),
            self.unknown_fields.wf(),
        ensures
            r@ == dyn_enc(plans@, self@),
    {
        let mut out: Vec<u8> = Vec::new();
        let mut i: usize = 0;
        while i < plans.len()
            invariant
                schema_wf(plans@),
                self.fields@.len() == plans@.len(),
                i <= plans@.len(),
                out@ == records_enc(dyn_records(plans@, self@.fields, i as nat)),
            decreases plans@.len() - i,
        {
            let mut b = field_bytes(plans[i], &self.fields[i]);
            proof {
                lemma_records_enc_concat(
                    dyn_records(plans@, self@.fields, i as nat),
                    field_records(plans@[i as int], self@.fields[i as int]),
                );
            }
            out.append(&mut b);
            i = i + 1;
        }
        let mut u = unknown_fields_bytes(&self.unknown_fields);
        proof {
            lemma_records_enc_concat(dyn_records(plans@, self@.fields, plans@.len()), self@.unknown);
        }
        out.append(&mut u);
        out
    }

    /// Number of bytes the message writes, saturating at `u64::MAX`.
    pub fn compute_size(&self, plans: &[FieldPlan]) -> (r: u64)
        requires
            schema_wf(plans@),
            self.fields@.len() == plans@.len(),
            self.unknown_fields.wf(),
        ensures
            r as nat == saturated(dyn_enc(plans@, self@).len()),
    {
        let b = self.write_to_bytes(plans);
        b.len() as u64
    }

    /// Writes the message's fields to `os`, all or nothing.
    pub fn write_to(&self, plans: &[FieldPlan], os: &mut CodedOutputStream) -> (r: Result<(), ProtobufError>)
        requires
            schema_wf(plans@),
            self.fields@.len() == plans@.len(),
            self.unknown_fields.wf(),
            old(os).wf(),
        ensures
            CodedOutputStream::wrote(old(os), final(os), dyn_enc(plans@, self@), r),
    {
        let b = self.write_to_bytes(plans);
        os.write_raw_bytes(b.as_slice())
    }

    /// Sets singular field `i` to `v`; setting a oneof member clears the others.
    pub fn set_field(&mut self, plans: &[FieldPlan], i: usize, v: UnknownValue)
        requires
            schema_wf(plans@),
            old(self).fields@.len() == plans@.len(),
            i < plans@.len(),
            is_singular_kind(plans@[i as int].kind),
        ensures
            final(self).fields@.len() == plans@.len(),
            final(self)@.fields == clear_siblings(plans@, old(self)@.fields, i as int).update(
                i as int,
                FieldState::Singular(Some(v@)),
            ),
            final(self)@.unknown == old(self)@.unknown,
    {
        let ghost m = self@;
        let ghost rv = v@;
        let p = plans[i];
        let is_oneof = match p.kind {
            FieldKind::Oneof(_) => true,
            _ => false,
        };
        if is_oneof {
            let mut j: usize = 0;
            while j < plans.len()
                invariant
                    (i as int) < plans@.len(),
                    p == plans@[i as int],
                    p.kind is Oneof,
                    j <= plans@.len(),
                    self.fields@.len() == plans@.len(),
                    self.unknown_fields@ == m.unknown,
                    forall|k: int| 0 <= k < plans@.len() ==> (#[trigger] self.fields@[k])@ == if k < j && k != i
                        && plans@[k].kind == p.kind {
                        FieldState::Singular(None)
                    } else {
                        m.fields[k]
                    },
                decreases plans@.len() - j,
            {
                if j != i && plans[j].kind == p.kind {
                    self.fields.set(j, FieldValue::Singular(None));
                }
                j = j + 1;
            }
        }
        self.fields.set(i, FieldValue::Singular(Some(v)));
        assert(self@.fields =~= clear_siblings(plans@, m.fields, i as int).update(
            i as int,
            FieldState::Singular(Some(rv)),
        ));
    }

    /// Removes and returns the value of singular field `i`, leaving it unset.
    pub fn take_field(&mut self, plans: &[FieldPlan], i: usize) -> (r: Option<UnknownValue>)
        requires
            old(self).fields@.len() == plans@.len(),
            i < plans@.len(),
        ensures
            final(self).fields@.len() == plans@.len(),
            old(self)@.fields[i as int] matches FieldState::Singular(o) ==> match r {
                Some(u) => o == Some(u@),
                None => o is None,
            },
            old(self)@.fields[i as int] is Repeated ==> r is None,
            final(self)@.fields == old(self)@.fields.update(i as int, FieldState::Singular(None)),
            final(self)@.unknown == old(self)@.unknown,
    {
        let mut slot = FieldValue::Singular(None);
        self.fields.set_and_swap(i, &mut slot);
        assert(self@.fields =~= old(self)@.fields.update(i as int, FieldState::Singular(None)));
        match slot {
            FieldValue::Singular(o) => o,
            FieldValue::Repeated(_) => None,
        }
    }

    /// Empties field `i`: unset, or no values.
    pub fn clear_field(&mut self, plans: &[FieldPlan], i: usize)
        requires
            old(self).fields@.len() == plans@.len(),
            i < plans@.len(),
        ensures
            final(self).fields@.len() == plans@.len(),
            final(self)@.fields == old(self)@.fields.update(i as int, empty_state(plans@[i as int])),
            final(self)@.unknown == old(self)@.unknown,
    {
        let v = match plans[i].kind {
            FieldKind::Singular(_) | FieldKind::Oneof(_) => FieldValue::Singular(None),
            _ => FieldValue::Repeated(Vec::new()),
        };
        self.fields.set(i, v);
        assert(values_view(Seq::<UnknownValue>::empty()) =~= Seq::<RawValue>::empty());
        assert(self@.fields =~= old(self)@.fields.update(i as int, empty_state(plans@[i as int])));
    }

    /// Applies one decoded field, as `dyn_apply` says.
    pub fn apply_record(&mut self, plans: &[FieldPlan], number: u32, value: UnknownValue) -> (r: Result<
        (),
        ProtobufError,
    >)
        requires
            schema_wf(plans@),
            old(self).fields@.len() == plans@.len(),
            old(self).unknown_fields.wf(),
            valid_field_number(number as nat),
        ensures
            final(self).fields@.len() == plans@.len(),
            final(self).unknown_fields.wf(),
            match dyn_apply(plans@, old(self)@, (number, value@)) {
                Some(m2) => r is Ok && final(self)@ == m2,
                None => r == Err::<(), ProtobufError>(dyn_apply_error(plans@, (number, value@))),
            },
    {
        let ghost m = self@;
        let ghost rv = value@;
        let i = match find_plan(plans, number) {
            None => {
                self.unknown_fields.add_value(number, value);
                return Ok(());
            },
            Some(i) => i,
        };
        let p = plans[i];
        let singular = match p.kind {
            FieldKind::Singular(_) | FieldKind::Oneof(_) => true,
            _ => false,
        };
        if singular {
            if value.wire_type() != p.wire_type {
                self.unknown_fields.add_value(number, value);
                return Ok(());
            }
            let merge = match p.kind {
                FieldKind::Singular(_) => p.proto_type == FieldType::Message,
                _ => false,
            };
            let mut slot = FieldValue::Singular(None);
            self.fields.set_and_swap(i, &mut slot);
            let ghost placed = self.fields@;
            let v = match (slot, value) {
                (FieldValue::Singular(Some(UnknownValue::LengthDelimited(old))), UnknownValue::LengthDelimited(b)) => {
                    if merge {
                        UnknownValue::LengthDelimited(concat(old, b))
                    } else {
                        UnknownValue::LengthDelimited(b)
                    }
                },
                (_, value) => value,
            };
            let is_oneof = match p.kind {
                FieldKind::Oneof(_) => true,
                _ => false,
            };
            if is_oneof {
                let mut j: usize = 0;
                while j < plans.len()
                    invariant
                        schema_wf(plans@),
                        (i as int) < plans@.len(),
                        p == plans@[i as int],
                        p.kind is Oneof,
                        j <= plans@.len(),
                        self.fields@.len() == plans@.len(),
                        placed.len() == plans@.len(),
                        self.unknown_fields@ == m.unknown,
                        self.unknown_fields.wf(),
                        forall|k: int| 0 <= k < plans@.len() ==> (#[trigger] self.fields@[k])@ == if k < j && k != i
                            && plans@[k].kind == p.kind {
                            FieldState::Singular(None)
                        } else {
                            placed[k]@
                        },
                    decreases plans@.len() - j,
                {
                    if j != i && plans[j].kind == p.kind {
                        self.fields.set(j, FieldValue::Singular(None));
                    }
                    j = j + 1;
                }
            }
            self.fields.set(i, FieldValue::Singular(Some(v)));
            proof {
                let expected = clear_siblings(plans@, m.fields, i as int).update(
                    i as int,
                    FieldState::Singular(Some(v@)),
                );
                assert(self@.fields =~= expected);
            }
            return Ok(());
        }
        if value.wire_type() == p.wire_type {
            let mut slot = FieldValue::Singular(None);
            self.fields.set_and_swap(i, &mut slot);
            let ghost old_state = slot@;
            assert(old_state == m.fields[i as int]);
            let mut vals: Vec<UnknownValue> = match slot {
                FieldValue::Repeated(vs) => vs,
                FieldValue::Singular(_) => Vec::new(),
            };
            let ghost before = vals@;
            assert(values_view(before) == match old_state {
                FieldState::Repeated(vs) => vs,
                FieldState::Singular(_) => Seq::<RawValue>::empty(),
            }) by {
                assert(values_view(Seq::<UnknownValue>::empty()) =~= Seq::<RawValue>::empty());
            }
            vals.push(value);
            self.fields.set(i, FieldValue::Repeated(vals));
            proof {
                assert(values_view(before.push(value)) =~= values_view(before).push(rv));
                assert(self@.fields =~= m.fields.update(
                    i as int,
                    FieldState::Repeated(
                        match m.fields[i as int] {
                            FieldState::Repeated(vs) => vs,
                            FieldState::Singular(_) => Seq::empty(),
                        }.push(rv),
                    ),
                ));
            }
            return Ok(());
        }
        let packable = match p.wire_type {
            WireType::LengthDelimited => false,
            _ => true,
        };
        match value {
            UnknownValue::LengthDelimited(b) => {
                if !packable {
                    self.unknown_fields.add_value(number, UnknownValue::LengthDelimited(b));
                    return Ok(());
                }
                let mut more = packed_values(&b, p.wire_type)?;
                let mut slot = FieldValue::Singular(None);
                self.fields.set_and_swap(i, &mut slot);
                let ghost old_state = slot@;
                assert(old_state == m.fields[i as int]);
                let mut vals: Vec<UnknownValue> = match slot {
                    FieldValue::Repeated(vs) => vs,
                    FieldValue::Singular(_) => Vec::new(),
                };
                let ghost before = vals@;
                assert(values_view(before) == match old_state {
                    FieldState::Repeated(vs) => vs,
                    FieldState::Singular(_) => Seq::<RawValue>::empty(),
                }) by {
                    assert(values_view(Seq::<UnknownValue>::empty()) =~= Seq::<RawValue>::empty());
                }
                let ghost added = more@;
                vals.append(&mut more);
                self.fields.set(i, FieldValue::Repeated(vals));
                proof {
                    assert(values_view(before + added) =~= values_view(before) + values_view(added));
                    assert(self@.fields =~= m.fields.update(
                        i as int,
                        FieldState::Repeated(
                            match m.fields[i as int] {
                                FieldState::Repeated(vs) => vs,
                                FieldState::Singular(_) => Seq::empty(),
                            } + packed_parse(rv->LengthDelimited_0, p.wire_type).unwrap(),
                        ),
                    ));
                }
                Ok(())
            },
            other => {
                self.unknown_fields.add_value(number, other);
                Ok(())
            },
        }
    }
}

/// The value is its type's default.
pub fn is_default(v: &UnknownValue) -> (r: bool)
    ensures
        r == is_default_value(v@),
{
    match v {
        UnknownValue::Varint(x) => *x == 0,
        UnknownValue::Fixed32(x) => *x == 0,
        UnknownValue::Fixed64(x) => *x == 0,
        UnknownValue::LengthDelimited(b) => b.len() == 0,
    }
}

/// Bytes of one record.
fn record_bytes(number: u32, v: &UnknownValue) -> (r: Vec<u8>)
    requires
        valid_field_number(number as nat),
    ensures
        r@ == records_enc(seq![(number, v@)]),
{
    let r = concat(tag_bytes(number, v.wire_type()), unknown_value_bytes(v));
    proof {
        assert(seq![(number, v@)].drop_first() =~= Seq::<(u32, RawValue)>::empty());
        assert(records_enc(Seq::<(u32, RawValue)>::empty()) == Seq::<u8>::empty());
        assert(r@ =~= records_enc(seq![(number, v@)]));
    }
    r
}

/// Bytes of the records one field encodes as.
pub fn field_bytes(p: FieldPlan, f: &FieldValue) -> (r: Vec<u8>)
    requires
        valid_field_number(p.number as nat),
    ensures
        r@ == records_enc(field_records(p, f@)),
{
    match f {
        FieldValue::Singular(None) => Vec::new(),
        FieldValue::Singular(Some(v)) => {
            if p.kind == FieldKind::Singular(SingularFieldFlag::WithoutFlag) && is_default(v) {
                Vec::new()
            } else {
                record_bytes(p.number, v)
            }
        },
        FieldValue::Repeated(vs) => {
            let packed = match p.kind {
                FieldKind::Repeated { packed } => packed,
                _ => false,
            };
            let mut out: Vec<u8> = Vec::new();
            let mut k: usize = 0;
            if packed {
                if vs.len() == 0 {
                    return Vec::new();
                }
                while k < vs.len()
                    invariant
                        k <= vs@.len(),
                        out@ == raw_concat(values_view(vs@.take(k as int))),
                    decreases vs@.len() - k,
                {
                    let mut b = unknown_value_bytes(&vs[k]);
                    proof {
                        assert(values_view(vs@.take(k + 1)).drop_last() =~= values_view(vs@.take(k as int)));
                    }
                    out.append(&mut b);
                    k = k + 1;
                }
                assert(vs@.take(k as int) =~= vs@);
                let r = concat(tag_bytes(p.number, WireType::LengthDelimited), length_delimited_bytes(out.as_slice()));
                proof {
                    let rec = (p.number, RawValue::LengthDelimited(raw_concat(values_view(vs@))));
                    assert(seq![rec].drop_first() =~= Seq::<(u32, RawValue)>::empty());
                    assert(records_enc(Seq::<(u32, RawValue)>::empty()) == Seq::<u8>::empty());
                    assert(r@ =~= records_enc(seq![rec]));
                }
                r
            } else {
                while k < vs.len()
                    invariant
                        valid_field_number(p.number as nat),
                        k <= vs@.len(),
                        out@ == records_enc(Seq::new(k as nat, |j: int| (p.number, values_view(vs@)[j]))),
                    decreases vs@.len() - k,
                {
                    let mut b = record_bytes(p.number, &vs[k]);
                    proof {
                        let prev = Seq::new(k as nat, |j: int| (p.number, values_view(vs@)[j]));
                        let next = Seq::new((k + 1) as nat, |j: int| (p.number, values_view(vs@)[j]));
                        assert(next =~= prev.push((p.number, vs@[k as int]@)));
                        lemma_records_enc_push(prev, (p.number, vs@[k as int]@));
                        assert(seq![(p.number, vs@[k as int]@)].drop_first() =~= Seq::<(u32, RawValue)>::empty());
                        assert(records_enc(Seq::<(u32, RawValue)>::empty()) == Seq::<u8>::empty());
                        assert(records_enc(seq![(p.number, vs@[k as int]@)]) =~= record_enc((p.number, vs@[k as int]@)));
                    }
                    out.append(&mut b);
                    k = k + 1;
                }
                proof {
                    assert(Seq::new(k as nat, |j: int| (p.number, values_view(vs@)[j])) =~= field_records(p, f@));
                }
                out
            }
        },
    }
}

} // verus!
