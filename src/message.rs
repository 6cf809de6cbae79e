//! Messages: the encode side shared by every type, and size computation.
use vstd::prelude::*;
use crate::coded_output_stream::{CodedOutputStream, raw_value_enc_len_bytes};
use crate::error::ProtobufError;
use crate::unknown::{lemma_records_enc_push, record_enc, records_enc, UnknownFields, UnknownValue};
use crate::varint::{compute_raw_varint32_size, lemma_varint_enc};
use crate::wire_format::{valid_field_number, Tag};

verus! {

/// `x`, or `u64::MAX` where `x` is larger.
pub open spec fn saturated(x: nat) -> nat {
    if x > u64::MAX {
        u64::MAX as nat
    } else {
        x
    }
}

/// A message type: what it writes, and how large that is.
pub trait Message: Sized {
    /// The message can be written: every stored field number is valid.
    spec fn spec_wf(&self) -> bool;

    /// The bytes `write_to_with_cached_sizes` writes.
    spec fn spec_encoded(&self) -> Seq<u8>;

    /// Number of bytes the message writes, saturating at `u64::MAX`.
    fn compute_size(&self) -> (r: u64)
        requires
            self.spec_wf(),
        ensures
            r as nat == saturated(self.spec_encoded().len()),
    ;

    /// Writes the message's fields, without a length prefix.
    fn write_to_with_cached_sizes(&self, os: &mut CodedOutputStream) -> (r: Result<(), ProtobufError>)
        requires
            self.spec_wf(),
            old(os).wf(),
        ensures
            CodedOutputStream::wrote(old(os), final(os), self.spec_encoded(), r),
    ;
}

/// The bytes of a message, in a new vector.
pub fn write_to_bytes<M: Message>(msg: &M) -> (r: Vec<u8>)
    requires
        msg.spec_wf(),
    ensures
        r@ == msg.spec_encoded(),
{
    let mut os = CodedOutputStream::vec(Vec::new());
    let res = msg.write_to_with_cached_sizes(&mut os);
    assert(Seq::<u8>::empty() + msg.spec_encoded() =~= msg.spec_encoded());
    os.into_inner()
}

/// Number of bytes of one stored field, saturating.
pub fn record_size(number: u32, value: &UnknownValue) -> (r: u64)
    requires
        valid_field_number(number as nat),
    ensures
        r as nat == saturated(record_enc((number, value@)).len()),
{
    let t = Tag::make(number, value.wire_type()).value();
    let ts = compute_raw_varint32_size(t);
    proof {
        lemma_varint_enc(t as nat);
    }
    let vs = raw_value_enc_len_bytes(value);
    ts.saturating_add(vs)
}

/// Number of bytes of every stored field, saturating.
pub fn unknown_fields_size(fields: &UnknownFields) -> (r: u64)
    requires
        fields.wf(),
    ensures
        r as nat == saturated(records_enc(fields@).len()),
{
    let mut total: u64 = 0;
    let mut i: usize = 0;
    proof {
        assert(fields@.take(0) =~= Seq::<(u32, crate::unknown::RawValue)>::empty());
    }
    while i < fields.len()
        invariant
            fields.wf(),
            i <= fields@.len(),
            total as nat == saturated(records_enc(fields@.take(i as int)).len()),
        decreases fields@.len() - i,
    {
        let rec = fields.get_at(i);
        assert(valid_field_number(fields@[i as int].0 as nat));
        let s = record_size(rec.0, &rec.1);
        proof {
            assert(fields@.take(i + 1) =~= fields@.take(i as int).push(fields@[i as int]));
            lemma_records_enc_push(fields@.take(i as int), fields@[i as int]);
        }
        total = total.saturating_add(s);
        i = i + 1;
    }
    assert(fields@.take(i as int) =~= fields@);
    total
}

} // verus!
