//! Well-known message types: `Duration` and `Timestamp`.
use vstd::prelude::*;
use crate::coded_input_stream::{
    field_read, lemma_records_error_step, lemma_records_parse_empty, lemma_records_parse_step,
    records_error, records_parse, u32_to_i32,
    u32_to_i32_exec, u64_to_i64, u64_to_i64_exec, CodedInputStream,
};
use crate::coded_output_stream::{
    concat, int32_bytes, int32_enc, int64_bytes, int64_enc, unknown_fields_bytes, CodedOutputStream,
};
use crate::error::ProtobufError;
use crate::message::{unknown_fields_size, Message};
use crate::laws::{lemma_records_round_trip, record_valid, records_valid};
use crate::unknown::{lemma_records_enc_concat, record_enc, records_enc, RawValue, UnknownFields, UnknownValue};
use crate::varint::{compute_raw_varint64_size, i64_bits, i64_to_bits, lemma_varint_enc, varint_size};
use crate::wire_format::{tag_bytes, tag_enc, WireType};

verus! {

/// Bytes of a seconds field (number 1, `int64`) and a nanos field (number 2,
/// `int32`), each only where it differs from zero.
pub open spec fn seconds_nanos_enc(seconds: i64, nanos: i32) -> Seq<u8> {
    (if seconds != 0 {
        tag_enc(1, WireType::Varint) + int64_enc(seconds)
    } else {
        Seq::empty()
    }) + (if nanos != 0 {
        tag_enc(2, WireType::Varint) + int32_enc(nanos)
    } else {
        Seq::empty()
    })
}

/// Bytes of a seconds field and a nanos field.
pub fn seconds_nanos_bytes(seconds: i64, nanos: i32) -> (r: Vec<u8>)
    ensures
        r@ == seconds_nanos_enc(seconds, nanos),
{
    let mut out: Vec<u8> = Vec::new();
    if seconds != 0 {
        out = concat(tag_bytes(1, WireType::Varint), int64_bytes(seconds));
    }
    if nanos != 0 {
        out = concat(out, concat(tag_bytes(2, WireType::Varint), int32_bytes(nanos)));
    }
    assert(out@ =~= seconds_nanos_enc(seconds, nanos));
    out
}

/// Number of bytes of a seconds field and a nanos field.
pub fn seconds_nanos_size(seconds: i64, nanos: i32) -> (r: u64)
    ensures
        r == seconds_nanos_enc(seconds, nanos).len(),
        r <= 22,
{
    proof {
        lemma_varint_enc(8);
        lemma_varint_enc(16);
        assert(varint_size(8) == 1);
        assert(varint_size(16) == 1);
    }
    let mut n: u64 = 0;
    if seconds != 0 {
        let b = i64_to_bits(seconds);
        proof {
            lemma_varint_enc(b as nat);
        }
        n = 1 + compute_raw_varint64_size(b);
    }
    if nanos != 0 {
        let b = i64_to_bits(nanos as i64);
        proof {
            lemma_varint_enc(b as nat);
        }
        n = n + 1 + compute_raw_varint64_size(b);
    }
    n
}

/// The records that a seconds field and a nanos field encode as.
pub open spec fn seconds_nanos_records(seconds: i64, nanos: i32) -> Seq<(u32, RawValue)> {
    (if seconds != 0 {
        seq![(1u32, RawValue::Varint(i64_bits(seconds) as u64))]
    } else {
        Seq::empty()
    }) + (if nanos != 0 {
        seq![(2u32, RawValue::Varint(i64_bits(nanos as i64) as u64))]
    } else {
        Seq::empty()
    })
}

proof fn lemma_seconds_nanos_records(seconds: i64, nanos: i32)
    ensures
        records_enc(seconds_nanos_records(seconds, nanos)) == seconds_nanos_enc(seconds, nanos),
        records_valid(seconds_nanos_records(seconds, nanos)),
        u64_to_i64(i64_bits(seconds) as u64) == seconds,
        u32_to_i32(((i64_bits(nanos as i64) as u64) % 0x1_0000_0000) as u32) == nanos,
{
    let a: Seq<(u32, RawValue)> = if seconds != 0 {
        seq![(1u32, RawValue::Varint(i64_bits(seconds) as u64))]
    } else {
        Seq::empty()
    };
    let b: Seq<(u32, RawValue)> = if nanos != 0 {
        seq![(2u32, RawValue::Varint(i64_bits(nanos as i64) as u64))]
    } else {
        Seq::empty()
    };
    lemma_records_enc_concat(a, b);
    if seconds != 0 {
        assert(a.drop_first() =~= Seq::<(u32, RawValue)>::empty());
        assert(records_enc(a.drop_first()) =~= Seq::<u8>::empty());
        assert(records_enc(a) =~= record_enc(a[0]));
    } else {
        assert(records_enc(a) =~= Seq::<u8>::empty());
    }
    if nanos != 0 {
        assert(b.drop_first() =~= Seq::<(u32, RawValue)>::empty());
        assert(records_enc(b.drop_first()) =~= Seq::<u8>::empty());
        assert(records_enc(b) =~= record_enc(b[0]));
    } else {
        assert(records_enc(b) =~= Seq::<u8>::empty());
    }
    assert(records_enc(a) + records_enc(b) =~= seconds_nanos_enc(seconds, nanos));
    let r = seconds_nanos_records(seconds, nanos);
    assert forall|i: int| 0 <= i < r.len() implies record_valid(#[trigger] r[i]) by {}
    let n = nanos as int;
    if n < 0 {
        let x = n + 0x1_0000_0000;
        vstd::arithmetic::div_mod::lemma_mod_multiples_vanish(0xffff_ffff, x, 0x1_0000_0000);
        vstd::arithmetic::div_mod::lemma_small_mod(x as nat, 0x1_0000_0000);
        assert(n + 0x1_0000_0000_0000_0000 == 0xffff_ffff * 0x1_0000_0000 + x);
    } else {
        vstd::arithmetic::div_mod::lemma_small_mod(n as nat, 0x1_0000_0000);
    }
}

/// Writes a seconds field, a nanos field and the unknown fields, all or nothing.
pub fn write_seconds_nanos(
    seconds: i64,
    nanos: i32,
    unknown: &UnknownFields,
    os: &mut CodedOutputStream,
) -> (r: Result<(), ProtobufError>)
    requires
        unknown.wf(),
        old(os).wf(),
    ensures
        CodedOutputStream::wrote(
            old(os),
            final(os),
            seconds_nanos_enc(seconds, nanos) + records_enc(unknown@),
            r,
        ),
{
    let bytes = concat(seconds_nanos_bytes(seconds, nanos), unknown_fields_bytes(unknown));
    os.write_raw_bytes(bytes.as_slice())
}

/// Mathematical form of a `Duration`.
pub struct DurationModel {
    pub seconds: i64,
    pub nanos: i32,
    pub unknown: Seq<(u32, RawValue)>,
}

/// A span of time: signed seconds and a signed fraction in nanoseconds.
#[derive(Debug, Clone, PartialEq, Eq)]
pub struct Duration {
    /// Signed seconds of the span.
    pub seconds: i64,
    /// Signed fraction of a second, in nanoseconds.
    pub nanos: i32,
    /// Fields that this type does not declare.
    pub unknown_fields: UnknownFields,
}

impl View for Duration {
    type V = DurationModel;

    open spec fn view(&self) -> DurationModel {
        DurationModel { seconds: self.seconds, nanos: self.nanos, unknown: self.unknown_fields@ }
    }
}

/// Bytes of a `Duration`: each field that differs from zero, in declaration
/// order, then the unknown fields.
pub open spec fn duration_enc(m: DurationModel) -> Seq<u8> {
    seconds_nanos_enc(m.seconds, m.nanos) + records_enc(m.unknown)
}

/// One decoded field applied to a `Duration`: a varint under field 1 or 2 sets
/// that field, anything else is kept as unknown.
pub open spec fn duration_apply(m: DurationModel, r: (u32, RawValue)) -> DurationModel {
    match r.1 {
        RawValue::Varint(v) => if r.0 == 1 {
            DurationModel { seconds: u64_to_i64(v), ..m }
        } else if r.0 == 2 {
            DurationModel { nanos: u32_to_i32((v % 0x1_0000_0000) as u32), ..m }
        } else {
            DurationModel { unknown: m.unknown.push(r), ..m }
        },
        _ => DurationModel { unknown: m.unknown.push(r), ..m },
    }
}

/// Decoded fields applied in order; the last occurrence of a field wins.
pub open spec fn duration_merge(m: DurationModel, rs: Seq<(u32, RawValue)>) -> DurationModel
    decreases rs.len(),
{
    if rs.len() == 0 {
        m
    } else {
        duration_merge(duration_apply(m, rs[0]), rs.drop_first())
    }
}

/// The value of a `Duration` that holds nothing.
pub open spec fn duration_default() -> DurationModel {
    DurationModel { seconds: 0, nanos: 0, unknown: Seq::empty() }
}

/// Merging `a` then `b` is merging their concatenation.
pub proof fn lemma_duration_merge_concat(
    m: DurationModel,
    a: Seq<(u32, RawValue)>,
    b: Seq<(u32, RawValue)>,
)
    ensures
        duration_merge(m, a + b) == duration_merge(duration_merge(m, a), b),
    decreases a.len(),
{
    if a.len() == 0 {
        assert(a + b =~= b);
    } else {
        assert((a + b).drop_first() =~= a.drop_first() + b);
        assert((a + b)[0] == a[0]);
        lemma_duration_merge_concat(duration_apply(m, a[0]), a.drop_first(), b);
    }
}

/// Fields that the type does not declare are appended to the unknown fields.
pub proof fn lemma_duration_merge_unknown(m: DurationModel, b: Seq<(u32, RawValue)>)
    requires
        forall|i: int| 0 <= i < b.len() ==> #[trigger] b[i].0 != 1 && b[i].0 != 2,
    ensures
        duration_merge(m, b) == (DurationModel { unknown: m.unknown + b, ..m }),
    decreases b.len(),
{
    if b.len() == 0 {
        assert(m.unknown + b =~= m.unknown);
    } else {
        let m1 = duration_apply(m, b[0]);
        assert(m1 == (DurationModel { unknown: m.unknown.push(b[0]), ..m }));
        assert forall|i: int| 0 <= i < b.drop_first().len() implies #[trigger] b.drop_first()[i].0 != 1
            && b.drop_first()[i].0 != 2 by {
            assert(b.drop_first()[i] == b[i + 1]);
        }
        lemma_duration_merge_unknown(m1, b.drop_first());
        assert(m.unknown.push(b[0]) + b.drop_first() =~= m.unknown + b);
    }
}

/// Round trip of `Duration`: decoding the bytes of a valid value into an empty
/// `Duration` gives the value back. Valid: its unknown fields can be carried
/// and none uses a declared field number.
pub proof fn lemma_duration_round_trip(m: DurationModel)
    requires
        records_valid(m.unknown),
        forall|i: int| 0 <= i < m.unknown.len() ==> #[trigger] m.unknown[i].0 != 1 && m.unknown[i].0 != 2,
    ensures
        records_parse(duration_enc(m)) is Some,
        duration_merge(duration_default(), records_parse(duration_enc(m)).unwrap()) == m,
{
    let k = seconds_nanos_records(m.seconds, m.nanos);
    lemma_seconds_nanos_records(m.seconds, m.nanos);
    let all = k + m.unknown;
    lemma_records_enc_concat(k, m.unknown);
    assert(records_valid(all)) by {
        assert forall|i: int| 0 <= i < all.len() implies record_valid(#[trigger] all[i]) by {
            if i < k.len() {
                assert(all[i] == k[i]);
            } else {
                assert(all[i] == m.unknown[i - k.len()]);
            }
        }
    }
    lemma_records_round_trip(all);
    lemma_duration_merge_concat(duration_default(), k, m.unknown);
    let m1 = duration_merge(duration_default(), k);
    let a: Seq<(u32, RawValue)> = if m.seconds != 0 {
        seq![(1u32, RawValue::Varint(i64_bits(m.seconds) as u64))]
    } else {
        Seq::empty()
    };
    let b: Seq<(u32, RawValue)> = if m.nanos != 0 {
        seq![(2u32, RawValue::Varint(i64_bits(m.nanos as i64) as u64))]
    } else {
        Seq::empty()
    };
    lemma_duration_merge_concat(duration_default(), a, b);
    let ma = duration_merge(duration_default(), a);
    let d = duration_default();
    if m.seconds != 0 {
        assert(a.drop_first() =~= Seq::<(u32, RawValue)>::empty());
        assert(ma == duration_merge(duration_apply(d, a[0]), a.drop_first()));
        assert(ma == duration_apply(d, a[0]));
    } else {
        assert(ma == d);
    }
    assert(ma.seconds == m.seconds && ma.nanos == 0 && ma.unknown == Seq::<(u32, RawValue)>::empty());
    lemma_duration_merge_concat(d, a, b);
    assert(m1 == duration_merge(ma, b));
    if m.nanos != 0 {
        assert(b.drop_first() =~= Seq::<(u32, RawValue)>::empty());
        assert(duration_merge(ma, b) == duration_merge(duration_apply(ma, b[0]), b.drop_first()));
        assert(duration_merge(ma, b) == duration_apply(ma, b[0]));
    } else {
        assert(duration_merge(ma, b) == ma);
    }
    assert(m1.seconds == m.seconds && m1.nanos == m.nanos && m1.unknown == Seq::<(u32, RawValue)>::empty());
    lemma_duration_merge_unknown(m1, m.unknown);
    assert(Seq::<(u32, RawValue)>::empty() + m.unknown =~= m.unknown);
}

impl Duration {
    pub open spec fn wf(&self) -> bool {
        self.unknown_fields.wf()
    }

    /// Zero duration with no unknown fields.
    pub fn new() -> (r: Duration)
        ensures
            r.seconds == 0,
            r.nanos == 0,
            r.unknown_fields@ == Seq::<(u32, RawValue)>::empty(),
            r.wf(),
    {
        Duration { seconds: 0, nanos: 0, unknown_fields: UnknownFields::new() }
    }

    /// Decodes a value from a whole input.
    pub fn parse_from_bytes(bytes: &[u8]) -> (r: Result<Duration, ProtobufError>)
        ensures
            match records_parse(bytes@) {
                Some(rs) => r matches Ok(v) && v@ == duration_merge(duration_default(), rs) && v.wf(),
                None => r == Err::<Duration, ProtobufError>(records_error(bytes@)),
            },
    {
        let mut input = CodedInputStream::from_bytes(bytes);
        let mut v = Duration::new();
        assert(input.remaining() =~= bytes@);
        assert(v@ == duration_default());
        v.merge_from(&mut input)?;
        Ok(v)
    }

    /// Reads fields up to the end of the input's current frame into this value.
    pub fn merge_from(&mut self, input: &mut CodedInputStream) -> (r: Result<(), ProtobufError>)
        requires
            old(self).wf(),
            old(input).wf(),
        ensures
            final(self).wf(),
            final(input).wf(),
            match records_parse(old(input).remaining()) {
                Some(rs) => r is Ok && final(self)@ == duration_merge(old(self)@, rs),
                None => r == Err::<(), ProtobufError>(records_error(old(input).remaining())),
            },
    {
        let ghost s0 = input.remaining();
        while !input.eof()
            invariant
                input.wf(),
                input.same_frame(old(input)),
                self.wf(),
                s0 == old(input).remaining(),
                records_parse(s0) is Some <==> records_parse(input.remaining()) is Some,
                records_parse(input.remaining()) is Some ==> duration_merge(old(self)@, records_parse(s0).unwrap())
                    == duration_merge(self@, records_parse(input.remaining()).unwrap()),
                records_parse(input.remaining()) is None ==> records_error(s0) == records_error(
                    input.remaining(),
                ),
            decreases input.remaining().len(),
        {
            let ghost rem = input.remaining();
            let ghost before = self@;
            proof {
                lemma_records_parse_step(rem);
                lemma_records_error_step(rem);
            }
            let item = match input.read_field() {
                Ok(item) => item,
                Err(e) => {
                    assert(records_parse(rem) is None);
                    return Err(e);
                },
            };
            proof {
                let k = field_read(rem).unwrap().1;
                assert(input.remaining() =~= rem.skip(k as int));
            }
            let (number, value) = match item {
                Some(rec) => rec,
                None => {
                    continue;
                },
            };
            match value {
                UnknownValue::Varint(v) => {
                    if number == 1 {
                        self.seconds = u64_to_i64_exec(v);
                    } else if number == 2 {
                        self.nanos = u32_to_i32_exec((v % 0x1_0000_0000) as u32);
                    } else {
                        self.unknown_fields.add_value(number, UnknownValue::Varint(v));
                    }
                },
                other => {
                    self.unknown_fields.add_value(number, other);
                },
            }
            proof {
                let rv = field_read(rem).unwrap().0.unwrap();
                assert(self@ == duration_apply(before, rv));
                if records_parse(input.remaining()) is Some {
                    let rest = records_parse(input.remaining()).unwrap();
                    assert((seq![rv] + rest).drop_first() =~= rest);
                    assert((seq![rv] + rest)[0] == rv);
                }
            }
        }
        proof {
            lemma_records_parse_empty(input.remaining());
        }
        Ok(())
    }
}

impl Message for Duration {
    open spec fn spec_wf(&self) -> bool {
        self.wf()
    }

    open spec fn spec_encoded(&self) -> Seq<u8> {
        duration_enc(self@)
    }

    fn compute_size(&self) -> (r: u64) {
        let known = seconds_nanos_size(self.seconds, self.nanos);
        let unknown = unknown_fields_size(&self.unknown_fields);
        known.saturating_add(unknown)
    }

    fn write_to_with_cached_sizes(&self, os: &mut CodedOutputStream) -> (r: Result<(), ProtobufError>) {
        write_seconds_nanos(self.seconds, self.nanos, &self.unknown_fields, os)
    }
}

/// Mathematical form of a `Timestamp`.
pub struct TimestampModel {
    pub seconds: i64,
    pub nanos: i32,
    pub unknown: Seq<(u32, RawValue)>,
}

/// A point in time: seconds since the Unix epoch and a non-negative fraction
/// in nanoseconds.
#[derive(Debug, Clone, PartialEq, Eq)]
pub struct Timestamp {
    /// Seconds since the Unix epoch.
    pub seconds: i64,
    /// Fraction of a second, in nanoseconds.
    pub nanos: i32,
    /// Fields that this type does not declare.
    pub unknown_fields: UnknownFields,
}

impl View for Timestamp {
    type V = TimestampModel;

    open spec fn view(&self) -> TimestampModel {
        TimestampModel { seconds: self.seconds, nanos: self.nanos, unknown: self.unknown_fields@ }
    }
}

/// Bytes of a `Timestamp`: each field that differs from zero, in declaration
/// order, then the unknown fields.
pub open spec fn timestamp_enc(m: TimestampModel) -> Seq<u8> {
    seconds_nanos_enc(m.seconds, m.nanos) + records_enc(m.unknown)
}

/// One decoded field applied to a `Timestamp`: a varint under field 1 or 2 sets
/// that field, anything else is kept as unknown.
pub open spec fn timestamp_apply(m: TimestampModel, r: (u32, RawValue)) -> TimestampModel {
    match r.1 {
        RawValue::Varint(v) => if r.0 == 1 {
            TimestampModel { seconds: u64_to_i64(v), ..m }
        } else if r.0 == 2 {
            TimestampModel { nanos: u32_to_i32((v % 0x1_0000_0000) as u32), ..m }
        } else {
            TimestampModel { unknown: m.unknown.push(r), ..m }
        },
        _ => TimestampModel { unknown: m.unknown.push(r), ..m },
    }
}

/// Decoded fields applied in order; the last occurrence of a field wins.
pub open spec fn timestamp_merge(m: TimestampModel, rs: Seq<(u32, RawValue)>) -> TimestampModel
    decreases rs.len(),
{
    if rs.len() == 0 {
        m
    } else {
        timestamp_merge(timestamp_apply(m, rs[0]), rs.drop_first())
    }
}

/// The value of a `Timestamp` that holds nothing.
pub open spec fn timestamp_default() -> TimestampModel {
    TimestampModel { seconds: 0, nanos: 0, unknown: Seq::empty() }
}

/// Merging `a` then `b` is merging their concatenation.
pub proof fn lemma_timestamp_merge_concat(
    m: TimestampModel,
    a: Seq<(u32, RawValue)>,
    b: Seq<(u32, RawValue)>,
)
    ensures
        timestamp_merge(m, a + b) == timestamp_merge(timestamp_merge(m, a), b),
    decreases a.len(),
{
    if a.len() == 0 {
        assert(a + b =~= b);
    } else {
        assert((a + b).drop_first() =~= a.drop_first() + b);
        assert((a + b)[0] == a[0]);
        lemma_timestamp_merge_concat(timestamp_apply(m, a[0]), a.drop_first(), b);
    }
}

/// Fields that the type does not declare are appended to the unknown fields.
pub proof fn lemma_timestamp_merge_unknown(m: TimestampModel, b: Seq<(u32, RawValue)>)
    requires
        forall|i: int| 0 <= i < b.len() ==> #[trigger] b[i].0 != 1 && b[i].0 != 2,
    ensures
        timestamp_merge(m, b) == (TimestampModel { unknown: m.unknown + b, ..m }),
    decreases b.len(),
{
    if b.len() == 0 {
        assert(m.unknown + b =~= m.unknown);
    } else {
        let m1 = timestamp_apply(m, b[0]);
        assert(m1 == (TimestampModel { unknown: m.unknown.push(b[0]), ..m }));
        assert forall|i: int| 0 <= i < b.drop_first().len() implies #[trigger] b.drop_first()[i].0 != 1
            && b.drop_first()[i].0 != 2 by {
            assert(b.drop_first()[i] == b[i + 1]);
        }
        lemma_timestamp_merge_unknown(m1, b.drop_first());
        assert(m.unknown.push(b[0]) + b.drop_first() =~= m.unknown + b);
    }
}

/// Round trip of `Timestamp`: decoding the bytes of a valid value into an empty
/// `Timestamp` gives the value back. Valid: its unknown fields can be carried
/// and none uses a declared field number.
pub proof fn lemma_timestamp_round_trip(m: TimestampModel)
    requires
        records_valid(m.unknown),
        forall|i: int| 0 <= i < m.unknown.len() ==> #[trigger] m.unknown[i].0 != 1 && m.unknown[i].0 != 2,
    ensures
        records_parse(timestamp_enc(m)) is Some,
        timestamp_merge(timestamp_default(), records_parse(timestamp_enc(m)).unwrap()) == m,
{
    let k = seconds_nanos_records(m.seconds, m.nanos);
    lemma_seconds_nanos_records(m.seconds, m.nanos);
    let all = k + m.unknown;
    lemma_records_enc_concat(k, m.unknown);
    assert(records_valid(all)) by {
        assert forall|i: int| 0 <= i < all.len() implies record_valid(#[trigger] all[i]) by {
            if i < k.len() {
                assert(all[i] == k[i]);
            } else {
                assert(all[i] == m.unknown[i - k.len()]);
            }
        }
    }
    lemma_records_round_trip(all);
    lemma_timestamp_merge_concat(timestamp_default(), k, m.unknown);
    let m1 = timestamp_merge(timestamp_default(), k);
    let a: Seq<(u32, RawValue)> = if m.seconds != 0 {
        seq![(1u32, RawValue::Varint(i64_bits(m.seconds) as u64))]
    } else {
        Seq::empty()
    };
    let b: Seq<(u32, RawValue)> = if m.nanos != 0 {
        seq![(2u32, RawValue::Varint(i64_bits(m.nanos as i64) as u64))]
    } else {
        Seq::empty()
    };
    lemma_timestamp_merge_concat(timestamp_default(), a, b);
    let ma = timestamp_merge(timestamp_default(), a);
    let d = timestamp_default();
    if m.seconds != 0 {
        assert(a.drop_first() =~= Seq::<(u32, RawValue)>::empty());
        assert(ma == timestamp_merge(timestamp_apply(d, a[0]), a.drop_first()));
        assert(ma == timestamp_apply(d, a[0]));
    } else {
        assert(ma == d);
    }
    assert(ma.seconds == m.seconds && ma.nanos == 0 && ma.unknown == Seq::<(u32, RawValue)>::empty());
    lemma_timestamp_merge_concat(d, a, b);
    assert(m1 == timestamp_merge(ma, b));
    if m.nanos != 0 {
        assert(b.drop_first() =~= Seq::<(u32, RawValue)>::empty());
        assert(timestamp_merge(ma, b) == timestamp_merge(timestamp_apply(ma, b[0]), b.drop_first()));
        assert(timestamp_merge(ma, b) == timestamp_apply(ma, b[0]));
    } else {
        assert(timestamp_merge(ma, b) == ma);
    }
    assert(m1.seconds == m.seconds && m1.nanos == m.nanos && m1.unknown == Seq::<(u32, RawValue)>::empty());
    lemma_timestamp_merge_unknown(m1, m.unknown);
    assert(Seq::<(u32, RawValue)>::empty() + m.unknown =~= m.unknown);
}

impl Timestamp {
    pub open spec fn wf(&self) -> bool {
        self.unknown_fields.wf()
    }

    /// The epoch, with no unknown fields.
    pub fn new() -> (r: Timestamp)
        ensures
            r.seconds == 0,
            r.nanos == 0,
            r.unknown_fields@ == Seq::<(u32, RawValue)>::empty(),
            r.wf(),
    {
        Timestamp { seconds: 0, nanos: 0, unknown_fields: UnknownFields::new() }
    }

    /// Decodes a value from a whole input.
    pub fn parse_from_bytes(bytes: &[u8]) -> (r: Result<Timestamp, ProtobufError>)
        ensures
            match records_parse(bytes@) {
                Some(rs) => r matches Ok(v) && v@ == timestamp_merge(timestamp_default(), rs) && v.wf(),
                None => r == Err::<Timestamp, ProtobufError>(records_error(bytes@)),
            },
    {
        let mut input = CodedInputStream::from_bytes(bytes);
        let mut v = Timestamp::new();
        assert(input.remaining() =~= bytes@);
        assert(v@ == timestamp_default());
        v.merge_from(&mut input)?;
        Ok(v)
    }

    /// Reads fields up to the end of the input's current frame into this value.
    pub fn merge_from(&mut self, input: &mut CodedInputStream) -> (r: Result<(), ProtobufError>)
        requires
            old(self).wf(),
            old(input).wf(),
        ensures
            final(self).wf(),
            final(input).wf(),
            match records_parse(old(input).remaining()) {
                Some(rs) => r is Ok && final(self)@ == timestamp_merge(old(self)@, rs),
                None => r == Err::<(), ProtobufError>(records_error(old(input).remaining())),
            },
    {
        let ghost s0 = input.remaining();
        while !input.eof()
            invariant
                input.wf(),
                input.same_frame(old(input)),
                self.wf(),
                s0 == old(input).remaining(),
                records_parse(s0) is Some <==> records_parse(input.remaining()) is Some,
                records_parse(input.remaining()) is Some ==> timestamp_merge(old(self)@, records_parse(s0).unwrap())
                    == timestamp_merge(self@, records_parse(input.remaining()).unwrap()),
                records_parse(input.remaining()) is None ==> records_error(s0) == records_error(
                    input.remaining(),
                ),
            decreases input.remaining().len(),
        {
            let ghost rem = input.remaining();
            let ghost before = self@;
            proof {
                lemma_records_parse_step(rem);
                lemma_records_error_step(rem);
            }
            let item = match input.read_field() {
                Ok(item) => item,
                Err(e) => {
                    assert(records_parse(rem) is None);
                    return Err(e);
                },
            };
            proof {
                let k = field_read(rem).unwrap().1;
                assert(input.remaining() =~= rem.skip(k as int));
            }
            let (number, value) = match item {
                Some(rec) => rec,
                None => {
                    continue;
                },
            };
            match value {
                UnknownValue::Varint(v) => {
                    if number == 1 {
                        self.seconds = u64_to_i64_exec(v);
                    } else if number == 2 {
                        self.nanos = u32_to_i32_exec((v % 0x1_0000_0000) as u32);
                    } else {
                        self.unknown_fields.add_value(number, UnknownValue::Varint(v));
                    }
                },
                other => {
                    self.unknown_fields.add_value(number, other);
                },
            }
            proof {
                let rv = field_read(rem).unwrap().0.unwrap();
                assert(self@ == timestamp_apply(before, rv));
                if records_parse(input.remaining()) is Some {
                    let rest = records_parse(input.remaining()).unwrap();
                    assert((seq![rv] + rest).drop_first() =~= rest);
                    assert((seq![rv] + rest)[0] == rv);
                }
            }
        }
        proof {
            lemma_records_parse_empty(input.remaining());
        }
        Ok(())
    }
}

impl Message for Timestamp {
    open spec fn spec_wf(&self) -> bool {
        self.wf()
    }

    open spec fn spec_encoded(&self) -> Seq<u8> {
        timestamp_enc(self@)
    }

    fn compute_size(&self) -> (r: u64) {
        let known = seconds_nanos_size(self.seconds, self.nanos);
        let unknown = unknown_fields_size(&self.unknown_fields);
        known.saturating_add(unknown)
    }

    fn write_to_with_cached_sizes(&self, os: &mut CodedOutputStream) -> (r: Result<(), ProtobufError>) {
        write_seconds_nanos(self.seconds, self.nanos, &self.unknown_fields, os)
    }
}

} // verus!
