//! What holds between encoding and decoding, for every input.
use vstd::prelude::*;
use crate::coded_input_stream::{
    field_read, lemma_field_read_bound, lemma_records_parse_empty, lemma_records_parse_step,
    lemma_varints_parse_step, raw_value_read, record_read, records_parse, tag_read, varints_parse,
};
use crate::coded_output_stream::{packed_enc, packed_field_enc, uint64_enc};
use crate::unknown::{lemma_records_enc_push, raw_value_enc, record_enc, records_enc, RawValue};
use crate::varint::{
    lemma_varint_enc, lemma_varint_size_max, varint_enc, varint_end, varint_end_from, varint_size,
    varint_value,
};
use crate::wire_format::{
    le32_enc, le32_value, le64_enc, lemma_le32_round_trip, lemma_le64_round_trip, tag_enc,
    tag_value, valid_field_number, Tag, WireType,
};

verus! {

/// A raw value that the wire format can carry: a length-delimited payload has a
/// length that fits in 64 bits.
pub open spec fn raw_value_valid(v: RawValue) -> bool {
    match v {
        RawValue::LengthDelimited(b) => b.len() <= u64::MAX,
        _ => true,
    }
}

/// A record that the wire format can carry.
pub open spec fn record_valid(r: (u32, RawValue)) -> bool {
    valid_field_number(r.0 as nat) && raw_value_valid(r.1)
}

/// Every record can be carried.
pub open spec fn records_valid(rs: Seq<(u32, RawValue)>) -> bool {
    forall|i: int| 0 <= i < rs.len() ==> record_valid(#[trigger] rs[i])
}

proof fn lemma_varint_end_of_enc(v: nat, rest: Seq<u8>, i: nat)
    requires
        v < 0x1_0000_0000_0000_0000,
        i < varint_size(v),
    ensures
        varint_end_from(varint_enc(v) + rest, i) == Some((varint_size(v) - 1) as nat),
    decreases varint_size(v) - i,
{
    lemma_varint_enc(v);
    lemma_varint_size_max(v);
    let s = varint_enc(v) + rest;
    assert(s[i as int] == varint_enc(v)[i as int]);
    if i < varint_size(v) - 1 {
        lemma_varint_end_of_enc(v, rest, i + 1);
    }
}

/// Reading a varint back from its encoding, whatever follows it, gives the value
/// and takes exactly the encoding's bytes.
pub proof fn lemma_varint_read_enc(v: nat, rest: Seq<u8>)
    requires
        v < 0x1_0000_0000_0000_0000,
    ensures
        varint_end(varint_enc(v) + rest) == Some((varint_size(v) - 1) as nat),
        varint_value(varint_enc(v) + rest, (varint_size(v) - 1) as nat) == v,
{
    lemma_varint_enc(v);
    lemma_varint_size_max(v);
    lemma_varint_end_of_enc(v, rest, 0);
    let s = varint_enc(v) + rest;
    assert(s.take(varint_size(v) as int) =~= varint_enc(v));
    vstd::arithmetic::div_mod::lemma_small_mod(v, 0x1_0000_0000_0000_0000);
}

proof fn lemma_varint_prefix_from(v: nat, j: nat, i: nat)
    requires
        v < 0x1_0000_0000_0000_0000,
        j < varint_size(v),
        i <= j,
    ensures
        varint_end_from(varint_enc(v).take(j as int), i) is None,
    decreases j - i,
{
    lemma_varint_enc(v);
    lemma_varint_size_max(v);
    if i < j {
        assert(varint_enc(v).take(j as int)[i as int] == varint_enc(v)[i as int]);
        lemma_varint_prefix_from(v, j, i + 1);
    }
}

/// A strict prefix of a varint's encoding holds no whole varint.
pub proof fn lemma_varint_prefix(v: nat, j: nat)
    requires
        v < 0x1_0000_0000_0000_0000,
        j < varint_size(v),
    ensures
        varint_end(varint_enc(v).take(j as int)) is None,
        j < 10,
{
    lemma_varint_size_max(v);
    lemma_varint_prefix_from(v, j, 0);
}

proof fn lemma_wire_type_code(wt: WireType)
    ensures
        WireType::spec_new(wt.spec_value()) == Some(wt),
        wt.spec_value() < 8,
{
}

/// Reading a tag back from its encoding gives the same field number and wire type.
pub proof fn lemma_tag_read_enc(n: nat, wt: WireType, rest: Seq<u8>)
    requires
        valid_field_number(n),
    ensures
        tag_read(tag_enc(n, wt) + rest) == Some(
            (Tag { field_number: n as u32, wire_type: wt }, varint_size(tag_value(n, wt))),
        ),
{
    let t = tag_value(n, wt);
    lemma_wire_type_code(wt);
    assert(t < 0x1_0000_0000);
    lemma_varint_read_enc(t, rest);
    assert(t / 8 == n && t % 8 == wt.spec_value()) by (nonlinear_arith)
        requires
            t == n * 8 + wt.spec_value(),
            wt.spec_value() < 8,
    ;
}

/// Reading a raw value back from its encoding, whatever follows it, gives the value.
pub proof fn lemma_raw_value_read_enc(v: RawValue, rest: Seq<u8>)
    requires
        raw_value_valid(v),
    ensures
        raw_value_read(raw_value_enc(v) + rest, v.wire_type()) == Some((v, raw_value_enc(v).len())),
{
    let s = raw_value_enc(v) + rest;
    match v {
        RawValue::Varint(x) => {
            lemma_varint_read_enc(x as nat, rest);
            lemma_varint_enc(x as nat);
        },
        RawValue::Fixed32(x) => {
            lemma_le32_round_trip(x);
            assert(s[0] == le32_enc(x)[0] && s[1] == le32_enc(x)[1] && s[2] == le32_enc(x)[2] && s[3]
                == le32_enc(x)[3]);
        },
        RawValue::Fixed64(x) => {
            lemma_le64_round_trip(x);
            let e = le64_enc(x);
            assert(s.take(4) =~= e.take(4));
            assert(s.skip(4).take(4) =~= e.skip(4).take(4));
            assert(le32_value(s.take(4)) == le32_value(e.take(4)));
            assert(le32_value(s.skip(4)) == le32_value(e.skip(4))) by {
                assert(s.skip(4)[0] == e.skip(4)[0]);
                assert(s.skip(4)[1] == e.skip(4)[1]);
                assert(s.skip(4)[2] == e.skip(4)[2]);
                assert(s.skip(4)[3] == e.skip(4)[3]);
            }
        },
        RawValue::LengthDelimited(b) => {
            let n = b.len();
            assert(s =~= varint_enc(n) + (b + rest));
            lemma_varint_read_enc(n, b + rest);
            lemma_varint_enc(n);
            let e = (varint_size(n) - 1) as nat;
            assert(s.subrange((e + 1) as int, (e + 1 + n) as int) =~= b);
        },
    }
}

/// Reading a record back from its encoding, whatever follows it, gives the record.
pub proof fn lemma_record_read_enc(r: (u32, RawValue), rest: Seq<u8>)
    requires
        record_valid(r),
    ensures
        record_read(record_enc(r) + rest) == Some((r, record_enc(r).len())),
{
    let te = tag_enc(r.0 as nat, r.1.wire_type());
    let ve = raw_value_enc(r.1);
    let s = record_enc(r) + rest;
    assert(s =~= te + (ve + rest));
    lemma_tag_read_enc(r.0 as nat, r.1.wire_type(), ve + rest);
    lemma_varint_enc(tag_value(r.0 as nat, r.1.wire_type()));
    assert(s.skip(te.len() as int) =~= ve + rest);
    lemma_raw_value_read_enc(r.1, rest);
}

/// A record's encoding, whatever follows it, reads back as that record.
pub proof fn lemma_field_read_enc(r: (u32, RawValue), rest: Seq<u8>)
    requires
        record_valid(r),
    ensures
        field_read(record_enc(r) + rest) == Some((Some(r), record_enc(r).len())),
{
    let te = tag_enc(r.0 as nat, r.1.wire_type());
    let ve = raw_value_enc(r.1);
    assert(record_enc(r) + rest =~= te + (ve + rest));
    lemma_tag_read_enc(r.0 as nat, r.1.wire_type(), ve + rest);
    lemma_record_read_enc(r, rest);
}

/// Round trip of the wire format: parsing the encoding of valid records gives
/// back exactly those records.
pub proof fn lemma_records_round_trip(rs: Seq<(u32, RawValue)>)
    requires
        records_valid(rs),
    ensures
        records_parse(records_enc(rs)) == Some(rs),
    decreases rs.len(),
{
    if rs.len() == 0 {
        lemma_records_parse_empty(records_enc(rs));
        assert(rs =~= Seq::<(u32, RawValue)>::empty());
    } else {
        let s = records_enc(rs);
        let rest = rs.drop_first();
        assert(records_valid(rest)) by {
            assert forall|i: int| 0 <= i < rest.len() implies record_valid(#[trigger] rest[i]) by {
                assert(rest[i] == rs[i + 1]);
            }
        }
        assert(record_valid(rs[0]));
        lemma_field_read_enc(rs[0], records_enc(rest));
        lemma_varint_enc(tag_value(rs[0].0 as nat, rs[0].1.wire_type()));
        assert(s.len() > 0);
        lemma_records_parse_step(s);
        assert(s.skip(record_enc(rs[0]).len() as int) =~= records_enc(rest));
        lemma_records_round_trip(rest);
        assert(seq![rs[0]] + rest =~= rs);
    }
}

/// Unknown fields survive decoding and re-encoding byte for byte: the records
/// parsed from an encoding re-encode to the same bytes.
pub proof fn lemma_unknown_fields_preserved(rs: Seq<(u32, RawValue)>)
    requires
        records_valid(rs),
    ensures
        records_parse(records_enc(rs)) is Some,
        records_enc(records_parse(records_enc(rs)).unwrap()) == records_enc(rs),
{
    lemma_records_round_trip(rs);
}

/// Every parsed record carries a valid field number.
pub proof fn lemma_records_parse_valid(s: Seq<u8>)
    ensures
        records_parse(s) matches Some(rs) ==> crate::unknown::records_wf(rs),
    decreases s.len(),
{
    if s.len() == 0 {
        lemma_records_parse_empty(s);
    } else {
        lemma_records_parse_step(s);
        lemma_field_read_bound(s);
        if let Some((o, k)) = field_read(s) {
            lemma_records_parse_valid(s.skip(k as int));
            if let Some(rest) = records_parse(s.skip(k as int)) {
                if let Some(r) = o {
                    let rs = seq![r] + rest;
                    assert(valid_field_number(r.0 as nat));
                    assert forall|i: int| 0 <= i < rs.len() implies valid_field_number(#[trigger] rs[i].0 as nat) by {
                        if i > 0 {
                            assert(rs[i] == rest[i - 1]);
                        }
                    }
                }
            }
        }
    }
}

/// Records in front of an input that does not parse leave it unparsable.
pub proof fn lemma_records_parse_prepend_none(a: Seq<(u32, RawValue)>, t: Seq<u8>)
    requires
        records_valid(a),
        records_parse(t) is None,
    ensures
        records_parse(records_enc(a) + t) is None,
    decreases a.len(),
{
    if a.len() == 0 {
        assert(records_enc(a) + t =~= t);
    } else {
        let rest = a.drop_first();
        assert(records_valid(rest)) by {
            assert forall|i: int| 0 <= i < rest.len() implies record_valid(#[trigger] rest[i]) by {
                assert(rest[i] == a[i + 1]);
            }
        }
        assert(record_valid(a[0]));
        let s = records_enc(a) + t;
        assert(s =~= record_enc(a[0]) + (records_enc(rest) + t));
        lemma_field_read_enc(a[0], records_enc(rest) + t);
        lemma_varint_enc(tag_value(a[0].0 as nat, a[0].1.wire_type()));
        lemma_records_parse_step(s);
        assert(s.skip(record_enc(a[0]).len() as int) =~= records_enc(rest) + t);
        lemma_records_parse_prepend_none(rest, t);
    }
}

/// A strict, non-empty prefix of one record's encoding is no record.
pub proof fn lemma_record_prefix(r: (u32, RawValue), j: nat)
    requires
        record_valid(r),
        0 < j < record_enc(r).len(),
    ensures
        record_read(record_enc(r).take(j as int)) is None,
        field_read(record_enc(r).take(j as int)) is None,
{
    let t = tag_value(r.0 as nat, r.1.wire_type());
    let te = tag_enc(r.0 as nat, r.1.wire_type());
    let ve = raw_value_enc(r.1);
    let p = record_enc(r).take(j as int);
    lemma_varint_enc(t);
    lemma_wire_type_code(r.1.wire_type());
    if j < te.len() {
        assert(p =~= te.take(j as int));
        lemma_varint_prefix(t, j);
    } else {
        let j2 = (j - te.len()) as nat;
        let vp = ve.take(j2 as int);
        assert(p =~= te + vp);
        lemma_tag_read_enc(r.0 as nat, r.1.wire_type(), vp);
        assert(r.1.wire_type() != WireType::StartGroup);
        assert(p.skip(te.len() as int) =~= vp);
        match r.1 {
            RawValue::Varint(x) => {
                lemma_varint_enc(x as nat);
                lemma_varint_prefix(x as nat, j2);
            },
            RawValue::Fixed32(x) => {
                lemma_le32_round_trip(x);
            },
            RawValue::Fixed64(x) => {
                lemma_le64_round_trip(x);
            },
            RawValue::LengthDelimited(b) => {
                let n = b.len();
                lemma_varint_enc(n);
                if j2 < varint_size(n) {
                    assert(vp =~= varint_enc(n).take(j2 as int));
                    lemma_varint_prefix(n, j2);
                } else {
                    let bp = b.take(j2 - varint_size(n));
                    assert(vp =~= varint_enc(n) + bp);
                    lemma_varint_read_enc(n, bp);
                }
            },
        }
    }
}

/// Truncation is detected: cutting the encoding of valid records anywhere
/// strictly inside the last record leaves an input that does not parse. (A cut
/// between two records leaves a valid, shorter sequence.)
pub proof fn lemma_truncation_detected(rs: Seq<(u32, RawValue)>, k: nat)
    requires
        records_valid(rs),
        rs.len() > 0,
        records_enc(rs.drop_last()).len() < k < records_enc(rs).len(),
    ensures
        records_parse(records_enc(rs).take(k as int)) is None,
{
    let a = rs.drop_last();
    let last = rs.last();
    assert(rs =~= a.push(last));
    lemma_records_enc_push(a, last);
    assert(records_valid(a)) by {
        assert forall|i: int| 0 <= i < a.len() implies record_valid(#[trigger] a[i]) by {
            assert(a[i] == rs[i]);
        }
    }
    assert(record_valid(rs[rs.len() - 1]));
    let j = (k - records_enc(a).len()) as nat;
    let tail = record_enc(last).take(j as int);
    assert(records_enc(rs).take(k as int) =~= records_enc(a) + tail);
    lemma_record_prefix(last, j);
    lemma_records_parse_step(tail);
    lemma_records_parse_prepend_none(a, tail);
}

/// Values of repeated varint field `n` among decoded records: an unpacked
/// record gives one value, a packed one all of its values; records of other
/// fields or other wire types give none.
pub open spec fn repeated_varint_values(rs: Seq<(u32, RawValue)>, n: u32) -> Option<Seq<u64>>
    decreases rs.len(),
{
    if rs.len() == 0 {
        Some(Seq::empty())
    } else {
        match repeated_varint_values(rs.drop_first(), n) {
            None => None,
            Some(rest) => if rs[0].0 != n {
                Some(rest)
            } else {
                match rs[0].1 {
                    RawValue::Varint(v) => Some(seq![v] + rest),
                    RawValue::LengthDelimited(b) => match varints_parse(b) {
                        Some(vs) => Some(vs + rest),
                        None => None,
                    },
                    _ => Some(rest),
                }
            },
        }
    }
}

/// Field `n` holding `vs` unpacked: one varint record per value.
pub open spec fn unpacked_records(n: u32, vs: Seq<u64>) -> Seq<(u32, RawValue)> {
    Seq::new(vs.len(), |i: int| (n, RawValue::Varint(vs[i])))
}

/// Field `n` holding `vs` packed: one length-delimited record.
pub open spec fn packed_records(n: u32, vs: Seq<u64>) -> Seq<(u32, RawValue)> {
    seq![(n, RawValue::LengthDelimited(packed_enc(vs, |v: u64| uint64_enc(v))))]
}

pub proof fn lemma_packed_enc_prepend(x: u64, vs: Seq<u64>)
    ensures
        packed_enc(seq![x] + vs, |v: u64| uint64_enc(v)) == uint64_enc(x) + packed_enc(
            vs,
            |v: u64| uint64_enc(v),
        ),
    decreases vs.len(),
{
    let f = |v: u64| uint64_enc(v);
    if vs.len() == 0 {
        assert((seq![x] + vs).drop_last() =~= Seq::<u64>::empty());
        assert(packed_enc(Seq::<u64>::empty(), f) == Seq::<u8>::empty());
        assert(packed_enc(seq![x] + vs, f) =~= uint64_enc(x) + packed_enc(vs, f));
    } else {
        assert((seq![x] + vs).drop_last() =~= seq![x] + vs.drop_last());
        lemma_packed_enc_prepend(x, vs.drop_last());
        assert((seq![x] + vs).last() == vs.last());
        assert(packed_enc(seq![x] + vs, f) =~= uint64_enc(x) + packed_enc(vs, f));
    }
}

/// Packed values take at most ten bytes each.
pub proof fn lemma_packed_enc_len(vs: Seq<u64>)
    ensures
        packed_enc(vs, |v: u64| uint64_enc(v)).len() <= 10 * vs.len(),
    decreases vs.len(),
{
    if vs.len() > 0 {
        lemma_packed_enc_len(vs.drop_last());
        lemma_varint_enc(vs.last() as nat);
        lemma_varint_size_max(vs.last() as nat);
    }
}

/// A packed run parses back to its values.
pub proof fn lemma_varints_parse_packed(vs: Seq<u64>)
    ensures
        varints_parse(packed_enc(vs, |v: u64| uint64_enc(v))) == Some(vs),
    decreases vs.len(),
{
    let f = |v: u64| uint64_enc(v);
    let s = packed_enc(vs, f);
    if vs.len() == 0 {
        lemma_varints_parse_step(s);
        assert(vs =~= Seq::<u64>::empty());
    } else {
        let x = vs[0];
        let rest = vs.drop_first();
        assert(vs =~= seq![x] + rest);
        lemma_packed_enc_prepend(x, rest);
        lemma_varint_read_enc(x as nat, packed_enc(rest, f));
        lemma_varint_enc(x as nat);
        lemma_varints_parse_step(s);
        assert(s.skip(varint_size(x as nat) as int) =~= packed_enc(rest, f));
        lemma_varints_parse_packed(rest);
    }
}

proof fn lemma_unpacked_values(n: u32, vs: Seq<u64>)
    ensures
        repeated_varint_values(unpacked_records(n, vs), n) == Some(vs),
    decreases vs.len(),
{
    if vs.len() == 0 {
        assert(vs =~= Seq::<u64>::empty());
    } else {
        assert(unpacked_records(n, vs).drop_first() =~= unpacked_records(n, vs.drop_first()));
        lemma_unpacked_values(n, vs.drop_first());
        assert(seq![vs[0]] + vs.drop_first() =~= vs);
    }
}

proof fn lemma_first_byte_of_tag(n: nat)
    requires
        valid_field_number(n),
    ensures
        tag_enc(n, WireType::Varint)[0] != tag_enc(n, WireType::LengthDelimited)[0],
{
    let a = n * 8;
    assert(a % 128 <= 120 && (a + 2) % 128 == a % 128 + 2) by (nonlinear_arith)
        requires
            a == n * 8,
    ;
    assert(tag_value(n, WireType::Varint) == a);
    assert(tag_value(n, WireType::LengthDelimited) == a + 2);
}

/// Packed and unpacked forms of the same values: both decode to the same
/// values, and their bytes differ. The bytes are what successive `write_uint64`
/// calls and one `write_repeated_packed_uint64` call write.
pub proof fn lemma_packed_unpacked_agree(n: u32, vs: Seq<u64>)
    requires
        valid_field_number(n as nat),
        vs.len() > 0,
        10 * vs.len() <= u64::MAX,
    ensures
        records_parse(records_enc(unpacked_records(n, vs))) == Some(unpacked_records(n, vs)),
        records_parse(records_enc(packed_records(n, vs))) == Some(packed_records(n, vs)),
        repeated_varint_values(unpacked_records(n, vs), n) == Some(vs),
        repeated_varint_values(packed_records(n, vs), n) == Some(vs),
        records_enc(packed_records(n, vs)) == packed_field_enc(n as nat, vs, |v: u64| uint64_enc(v)),
        records_enc(unpacked_records(n, vs)) != records_enc(packed_records(n, vs)),
{
    let un = unpacked_records(n, vs);
    let pk = packed_records(n, vs);
    lemma_packed_enc_len(vs);
    assert(records_valid(un)) by {
        assert forall|i: int| 0 <= i < un.len() implies record_valid(#[trigger] un[i]) by {}
    }
    assert(records_valid(pk)) by {
        assert forall|i: int| 0 <= i < pk.len() implies record_valid(#[trigger] pk[i]) by {
            assert(pk[i] == pk[0]);
        }
    }
    lemma_records_round_trip(un);
    lemma_records_round_trip(pk);
    lemma_unpacked_values(n, vs);
    lemma_varints_parse_packed(vs);
    assert(pk.drop_first() =~= Seq::<(u32, RawValue)>::empty());
    assert(repeated_varint_values(pk.drop_first(), n) == Some(Seq::<u64>::empty()));
    assert(vs + Seq::<u64>::empty() =~= vs);
    assert(records_enc(pk.drop_first()) == Seq::<u8>::empty());
    assert(records_enc(pk) =~= packed_field_enc(n as nat, vs, |v: u64| uint64_enc(v)));
    lemma_first_byte_of_tag(n as nat);
    lemma_varint_enc(tag_value(n as nat, WireType::Varint));
    lemma_varint_enc(tag_value(n as nat, WireType::LengthDelimited));
    assert(records_enc(un)[0] == tag_enc(n as nat, WireType::Varint)[0]);
    assert(records_enc(pk)[0] == tag_enc(n as nat, WireType::LengthDelimited)[0]);
}

} // verus!
