//! A message whose oneof member holds another message of the same type, boxed:
//! its decoding goes through the reader's nesting limit.
use vstd::prelude::*;
use crate::coded_input_stream::{
    field_error, field_read, lemma_field_read_bound, raw_value_read, record_read, tag_read, CodedInputStream,
};
use crate::coded_output_stream::{
    concat, length_delimited_bytes, length_delimited_enc, unknown_fields_bytes, CodedOutputStream,
};
use crate::error::ProtobufError;
use crate::message::Message;
use crate::laws::{lemma_field_read_enc, record_valid};
use crate::unknown::{record_enc, records_enc, RawValue, UnknownFields};
use crate::varint::{lemma_varint_enc, varint_end};
use crate::wire_format::{tag_bytes, tag_enc, tag_value, WireType};

verus! {

/// Mathematical form of a `RecursiveMessage`.
pub struct RecursiveModel {
    pub child: Option<Box<RecursiveModel>>,
    pub unknown: Seq<(u32, RawValue)>,
}

/// The value of a message that holds nothing.
pub open spec fn recursive_default() -> RecursiveModel {
    RecursiveModel { child: None, unknown: Seq::empty() }
}

/// One decoded field applied to `m`, where `level` messages enclose it and at
/// most `limit` may: a length-delimited field 1 replaces the child with the
/// message its payload decodes to, one level deeper; any other field is kept
/// as unknown. `None` where the payload does not decode or nesting would pass
/// the limit.
pub open spec fn recursive_apply(m: RecursiveModel, r: (u32, RawValue), level: nat, limit: nat) -> Option<
    RecursiveModel,
>
    decreases limit - level, 0nat,
{
    match r.1 {
        RawValue::LengthDelimited(b) => if r.0 == 1 {
            if level >= limit {
                None
            } else {
                match recursive_merge(recursive_default(), b, level + 1, limit) {
                    Some(c) => Some(RecursiveModel { child: Some(Box::new(c)), ..m }),
                    None => None,
                }
            }
        } else {
            Some(RecursiveModel { unknown: m.unknown.push(r), ..m })
        },
        _ => Some(RecursiveModel { unknown: m.unknown.push(r), ..m }),
    }
}

/// Fields of `s` applied to `m` in order, for a message that `level`
/// messages enclose; `None` where `level` has reached `limit`, where `s` is no
/// sequence of fields, or where one of them cannot be applied.
#[verifier::opaque]
pub open spec fn recursive_merge(m: RecursiveModel, s: Seq<u8>, level: nat, limit: nat) -> Option<
    RecursiveModel,
>
    decreases limit - level, s.len(),
{
    if level >= limit {
        None
    } else if s.len() == 0 {
        Some(m)
    } else {
        match field_read(s) {
            None => None,
            Some((o, k)) => if 0 < k <= s.len() {
                let next = match o {
                    Some(r) => recursive_apply(m, r, level, limit),
                    None => Some(m),
                };
                match next {
                    None => None,
                    Some(m2) => recursive_merge(m2, s.skip(k as int), level, limit),
                }
            } else {
                None
            },
        }
    }
}

/// Applying a length-delimited field 1: the child is replaced by the payload's
/// message, decoded one level deeper.
pub proof fn lemma_recursive_apply_child(m: RecursiveModel, b: Seq<u8>, level: nat, limit: nat)
    ensures
        recursive_apply(m, (1u32, RawValue::LengthDelimited(b)), level, limit) == if level >= limit {
            None
        } else {
            match recursive_merge(recursive_default(), b, level + 1, limit) {
                Some(c) => Some(RecursiveModel { child: Some(Box::new(c)), ..m }),
                None => None,
            }
        },
{
    reveal(recursive_merge);
    reveal_with_fuel(recursive_apply, 2);
}

/// The error of applying a length-delimited field 1: the payload's own error
/// one level deeper.
pub proof fn lemma_recursive_apply_error_child(b: Seq<u8>, level: nat, limit: nat)
    ensures
        recursive_apply_error((1u32, RawValue::LengthDelimited(b)), level, limit) == if level < limit {
            recursive_merge_error(recursive_default(), b, level + 1, limit)
        } else {
            ProtobufError::RecursionLimitExceeded
        },
{
    reveal(recursive_merge_error);
    reveal_with_fuel(recursive_apply_error, 2);
}

/// Applying any other field keeps it as unknown.
pub proof fn lemma_recursive_apply_other(m: RecursiveModel, r: (u32, RawValue), level: nat, limit: nat)
    requires
        !(r.0 == 1 && r.1 is LengthDelimited),
    ensures
        recursive_apply(m, r, level, limit) == Some(RecursiveModel { unknown: m.unknown.push(r), ..m }),
{
    reveal_with_fuel(recursive_apply, 2);
}

/// The error of applying `r` where that fails: the nested message's own
/// error, or the nesting limit.
pub open spec fn recursive_apply_error(r: (u32, RawValue), level: nat, limit: nat) -> ProtobufError
    decreases limit - level, 0nat,
{
    match r.1 {
        RawValue::LengthDelimited(b) => if r.0 == 1 && level < limit {
            recursive_merge_error(recursive_default(), b, level + 1, limit)
        } else {
            ProtobufError::RecursionLimitExceeded
        },
        _ => ProtobufError::RecursionLimitExceeded,
    }
}

/// The error of `recursive_merge` where it fails: `RecursionLimitExceeded`
/// where `level` has reached `limit`, else the error of the first field that
/// cannot be read or applied.
#[verifier::opaque]
pub open spec fn recursive_merge_error(m: RecursiveModel, s: Seq<u8>, level: nat, limit: nat) -> ProtobufError
    decreases limit - level, s.len(),
{
    if level >= limit {
        ProtobufError::RecursionLimitExceeded
    } else {
        match field_read(s) {
            None => field_error(s),
            Some((o, k)) => if 0 < k <= s.len() {
                match o {
                    None => recursive_merge_error(m, s.skip(k as int), level, limit),
                    Some(r) => match recursive_apply(m, r, level, limit) {
                        None => recursive_apply_error(r, level, limit),
                        Some(m2) => recursive_merge_error(m2, s.skip(k as int), level, limit),
                    },
                }
            } else {
                ProtobufError::InvalidTag
            },
        }
    }
}

/// One step of `recursive_merge_error` below the limit.
pub proof fn lemma_recursive_merge_error_step(m: RecursiveModel, s: Seq<u8>, level: nat, limit: nat)
    ensures
        level >= limit ==> recursive_merge_error(m, s, level, limit) == ProtobufError::RecursionLimitExceeded,
        level < limit ==> recursive_merge_error(m, s, level, limit) == match field_read(s) {
            None => field_error(s),
            Some((o, k)) => match o {
                None => recursive_merge_error(m, s.skip(k as int), level, limit),
                Some(r) => match recursive_apply(m, r, level, limit) {
                    None => recursive_apply_error(r, level, limit),
                    Some(m2) => recursive_merge_error(m2, s.skip(k as int), level, limit),
                },
            },
        },
{
    reveal(recursive_merge_error);
    lemma_field_read_bound(s);
}

/// One step of `recursive_merge`.
pub proof fn lemma_recursive_merge_step(m: RecursiveModel, s: Seq<u8>, level: nat, limit: nat)
    ensures
        level >= limit ==> recursive_merge(m, s, level, limit) is None,
        level < limit && s.len() == 0 ==> recursive_merge(m, s, level, limit) == Some(m),
        level < limit && s.len() > 0 ==> recursive_merge(m, s, level, limit) == match field_read(s) {
            None => None,
            Some((o, k)) => match (match o {
                Some(r) => recursive_apply(m, r, level, limit),
                None => Some(m),
            }) {
                None => None,
                Some(m2) => recursive_merge(m2, s.skip(k as int), level, limit),
            },
        },
{
    reveal(recursive_merge);
    lemma_field_read_bound(s);
}

/// Bytes of a `RecursiveMessage`: the child, if any, as a length-delimited
/// field 1, then the unknown fields.
pub open spec fn recursive_enc(m: RecursiveModel) -> Seq<u8>
    decreases m,
{
    (match m.child {
        Some(c) => tag_enc(1, WireType::LengthDelimited) + length_delimited_enc(recursive_enc(*c)),
        None => Seq::empty(),
    }) + records_enc(m.unknown)
}

/// A chain of `n` messages nested in each other under an outer one.
pub open spec fn chain(n: nat) -> RecursiveModel
    decreases n,
{
    if n == 0 {
        recursive_default()
    } else {
        RecursiveModel { child: Some(Box::new(chain((n - 1) as nat))), unknown: Seq::empty() }
    }
}

proof fn lemma_chain_enc_len(n: nat)
    requires
        n <= 0x1_0000_0000,
    ensures
        recursive_enc(chain(n)).len() <= 11 * n,
    decreases n,
{
    let e = recursive_enc(chain(n));
    assert(records_enc(Seq::<(u32, RawValue)>::empty()) == Seq::<u8>::empty());
    if n > 0 {
        lemma_chain_enc_len((n - 1) as nat);
        let inner = recursive_enc(chain((n - 1) as nat));
        lemma_varint_enc(tag_value(1, WireType::LengthDelimited));
        assert(crate::varint::varint_size(tag_value(1, WireType::LengthDelimited)) == 1);
        crate::varint::lemma_varint_size_max(inner.len());
        lemma_varint_enc(inner.len());
        assert(e == tag_enc(1, WireType::LengthDelimited) + length_delimited_enc(inner) + Seq::<u8>::empty());
    } else {
        assert(e =~= Seq::<u8>::empty());
    }
}

/// Nesting limit: a chain of `n` nested messages, read where `level` messages
/// already enclose it, decodes back to itself exactly when `level + n` stays
/// below the limit; otherwise it fails with `RecursionLimitExceeded`.
pub proof fn lemma_recursion_limit(n: nat, level: nat, limit: nat)
    requires
        n <= 0x1_0000_0000,
    ensures
        recursive_merge(recursive_default(), recursive_enc(chain(n)), level, limit) == if level + n
            < limit {
            Some(chain(n))
        } else {
            None
        },
        level + n >= limit ==> recursive_merge_error(recursive_default(), recursive_enc(chain(n)), level, limit)
            == ProtobufError::RecursionLimitExceeded,
    decreases n,
{
    let s = recursive_enc(chain(n));
    assert(records_enc(Seq::<(u32, RawValue)>::empty()) == Seq::<u8>::empty());
    lemma_recursive_merge_step(recursive_default(), s, level, limit);
    lemma_recursive_merge_error_step(recursive_default(), s, level, limit);
    if level >= limit {
    } else if n == 0 {
        assert(s =~= Seq::<u8>::empty());
        lemma_recursive_merge_step(recursive_default(), s, level, limit);
    } else {
        let inner = recursive_enc(chain((n - 1) as nat));
        lemma_chain_enc_len((n - 1) as nat);
        let r = (1u32, RawValue::LengthDelimited(inner));
        assert(s =~= record_enc(r));
        assert(record_valid(r));
        lemma_field_read_enc(r, Seq::empty());
        assert(record_enc(r) + Seq::<u8>::empty() =~= s);
        lemma_varint_enc(tag_value(1, WireType::LengthDelimited));
        lemma_recursive_apply_child(recursive_default(), inner, level, limit);
        lemma_recursion_limit((n - 1) as nat, level + 1, limit);
        assert(s.skip(s.len() as int) =~= Seq::<u8>::empty());
        if level + n < limit {
            let m2 = RecursiveModel { child: Some(Box::new(chain((n - 1) as nat))), ..recursive_default() };
            lemma_recursive_merge_step(m2, Seq::<u8>::empty(), level, limit);
            assert(m2 == chain(n));
        } else {
            assert(recursive_apply(recursive_default(), r, level, limit) is None);
            lemma_recursive_apply_error_child(inner, level, limit);
        }
    }
}

/// A message with a oneof whose only member, field 1, is a message of the
/// same type; the member is boxed because the type contains itself.
#[derive(Debug, PartialEq, Eq)]
pub struct RecursiveMessage {
    /// The oneof's active member, if any.
    pub child: Option<Box<RecursiveMessage>>,
    /// Fields that this type does not declare.
    pub unknown_fields: UnknownFields,
}

impl View for RecursiveMessage {
    type V = RecursiveModel;

    open spec fn view(&self) -> RecursiveModel
        decreases self,
    {
        RecursiveModel {
            child: match self.child {
                Some(c) => Some(Box::new((*c).view())),
                None => None,
            },
            unknown: self.unknown_fields@,
        }
    }
}

impl RecursiveMessage {
    pub open spec fn wf(&self) -> bool
        decreases self,
    {
        &&& self.unknown_fields.wf()
        &&& match self.child {
            Some(c) => (*c).wf(),
            None => true,
        }
    }

    /// Message with no member set and no unknown fields.
    pub fn new() -> (r: RecursiveMessage)
        ensures
            r@ == recursive_default(),
            r.wf(),
    {
        RecursiveMessage { child: None, unknown_fields: UnknownFields::new() }
    }

    /// Reads one field and applies it to this message.
    #[verifier::rlimit(60)]
    fn merge_field(&mut self, input: &mut CodedInputStream) -> (r: Result<(), ProtobufError>)
        requires
            old(self).wf(),
            old(input).wf(),
            old(input).depth() < old(input).depth_limit(),
        ensures
            final(input).wf(),
            final(self).wf(),
            final(input).data() == old(input).data(),
            final(input).depth_limit() == old(input).depth_limit(),
            match field_read(old(input).remaining()) {
                None => r == Err::<(), ProtobufError>(field_error(old(input).remaining())),
                Some((o, k)) => match (match o {
                    Some(rec) => recursive_apply(old(self)@, rec, old(input).depth(), old(input).depth_limit()),
                    None => Some(old(self)@),
                }) {
                    None => r == Err::<(), ProtobufError>(
                        match o {
                            Some(rec) => recursive_apply_error(rec, old(input).depth(), old(input).depth_limit()),
                            None => ProtobufError::RecursionLimitExceeded,
                        },
                    ),
                    Some(m2) => r is Ok && final(self)@ == m2 && CodedInputStream::advanced(
                        old(input),
                        final(input),
                        k,
                    ),
                },
            },
        decreases old(input).depth_limit() - old(input).depth(), old(input).remaining().len(), 0nat,
    {
        let ghost rem = input.remaining();
        let ghost before = self@;
        let ghost level = input.depth();
        let ghost limit = input.depth_limit();
        let tag = input.read_tag()?;
        let ghost k_tag = tag_read(rem).unwrap().1;
        let ghost mid = input.remaining();
        proof {
            assert(mid =~= rem.skip(k_tag as int));
        }
        if tag.wire_type == WireType::StartGroup {
            input.skip_group(tag.field_number)?;
            return Ok(());
        }
        if tag.field_number == 1 && tag.wire_type == WireType::LengthDelimited {
            let ghost frame = input.frame_end();
            let len = input.read_raw_varint64()?;
            let ghost e = varint_end(mid).unwrap();
            let old_limit = input.push_limit(len)?;
            let ghost payload = input.remaining();
            let ghost k = (k_tag + e + 1 + len) as nat;
            proof {
                assert(payload =~= mid.subrange((e + 1) as int, (e + 1 + len) as int));
                assert(raw_value_read(mid, WireType::LengthDelimited) == Some(
                    (RawValue::LengthDelimited(payload), (e + 1 + len) as nat),
                ));
                assert(record_read(rem) == Some(((1u32, RawValue::LengthDelimited(payload)), k)));
                assert(field_read(rem) == Some((Some((1u32, RawValue::LengthDelimited(payload))), k)));
                assert(old_limit == frame);
                assert(input.frame_end() <= frame);
                assert(frame <= input.data().len());
            }
            input.incr_recursion()?;
            let mut child = RecursiveMessage::new();
            let ghost inner = *input;
            assert(inner.remaining() == payload);
            assert(inner.depth() == level + 1);
            assert(level < limit);
            match child.merge_from(input) {
                Ok(()) => {},
                Err(err) => {
                    proof {
                        lemma_recursive_apply_child(before, payload, level, limit);
                        lemma_recursive_apply_error_child(payload, level, limit);
                    }
                    return Err(err);
                },
            }
            assert(input.frame_end() == inner.frame_end());
            input.decr_recursion();
            input.pop_limit(old_limit);
            self.child = Some(Box::new(child));
            proof {
                lemma_recursive_apply_child(before, payload, level, limit);
                assert(input.remaining() =~= rem.skip(k as int));
            }
            Ok(())
        } else {
            let value = input.read_raw_value(tag.wire_type)?;
            self.unknown_fields.add_value(tag.field_number, value);
            proof {
                lemma_recursive_apply_other(before, record_read(rem).unwrap().0, level, limit);
                assert(field_read(rem) == Some((Some(record_read(rem).unwrap().0), record_read(rem).unwrap().1)));
            }
            Ok(())
        }
    }

    /// Reads fields up to the end of the input's current frame into this
    /// message, entering one nesting level of the input for each child.
    pub fn merge_from(&mut self, input: &mut CodedInputStream) -> (r: Result<(), ProtobufError>)
        requires
            old(self).wf(),
            old(input).wf(),
        ensures
            final(input).wf(),
            final(self).wf(),
            final(input).data() == old(input).data(),
            final(input).depth_limit() == old(input).depth_limit(),
            r is Ok ==> final(input).depth() == old(input).depth() && final(input).frame_end()
                == old(input).frame_end() && final(input).position() == old(input).frame_end(),
            match recursive_merge(
                old(self)@,
                old(input).remaining(),
                old(input).depth(),
                old(input).depth_limit(),
            ) {
                Some(m) => r is Ok && final(self)@ == m,
                None => r == Err::<(), ProtobufError>(
                    recursive_merge_error(
                        old(self)@,
                        old(input).remaining(),
                        old(input).depth(),
                        old(input).depth_limit(),
                    ),
                ),
            },
        decreases old(input).depth_limit() - old(input).depth(), old(input).remaining().len(), 1nat,
    {
        if input.recursion_depth() >= input.recursion_limit() {
            proof {
                lemma_recursive_merge_step(self@, input.remaining(), input.depth(), input.depth_limit());
                lemma_recursive_merge_error_step(self@, input.remaining(), input.depth(), input.depth_limit());
            }
            return Err(ProtobufError::RecursionLimitExceeded);
        }
        let ghost level = input.depth();
        let ghost limit = input.depth_limit();
        let ghost s0 = input.remaining();
        let ghost m0 = self@;
        proof {
            lemma_recursive_merge_step(m0, s0, level, limit);
        }
        while !input.eof()
            invariant
                input.wf(),
                self.wf(),
                input.data() == old(input).data(),
                input.frame_end() == old(input).frame_end(),
                input.depth() == level,
                input.depth_limit() == limit,
                level == old(input).depth(),
                limit == old(input).depth_limit(),
                level < limit,
                s0 == old(input).remaining(),
                m0 == old(self)@,
                input.remaining().len() <= s0.len(),
                recursive_merge(m0, s0, level, limit) == recursive_merge(
                    self@,
                    input.remaining(),
                    level,
                    limit,
                ),
                recursive_merge(m0, s0, level, limit) is None ==> recursive_merge_error(m0, s0, level, limit)
                    == recursive_merge_error(self@, input.remaining(), level, limit),
            decreases input.remaining().len(),
        {
            let ghost rem = input.remaining();
            let ghost before = self@;
            proof {
                lemma_field_read_bound(rem);
                lemma_recursive_merge_step(before, rem, level, limit);
                lemma_recursive_merge_error_step(before, rem, level, limit);
            }
            self.merge_field(input)?;
            proof {
                let k = field_read(rem).unwrap().1;
                assert(input.remaining() =~= rem.skip(k as int));
            }
        }
        proof {
            lemma_recursive_merge_step(self@, input.remaining(), level, limit);
        }
        Ok(())
    }

    /// Decodes a message from a whole input, allowing `limit` nested levels.
    pub fn parse_from_bytes_with_limit(bytes: &[u8], limit: u32) -> (r: Result<RecursiveMessage, ProtobufError>)
        ensures
            match recursive_merge(recursive_default(), bytes@, 0, limit as nat) {
                Some(m) => r matches Ok(v) && v@ == m,
                None => r == Err::<RecursiveMessage, ProtobufError>(
                    recursive_merge_error(recursive_default(), bytes@, 0, limit as nat),
                ),
            },
    {
        let mut input = CodedInputStream::from_bytes(bytes);
        input.set_recursion_limit(limit);
        let mut v = RecursiveMessage::new();
        assert(input.remaining() =~= bytes@);
        v.merge_from(&mut input)?;
        Ok(v)
    }
}

impl RecursiveMessage {
    /// The bytes of this message.
    pub fn encoded_bytes(&self) -> (r: Vec<u8>)
        requires
            self.wf(),
        ensures
            r@ == recursive_enc(self@),
        decreases self,
    {
        let head = match &self.child {
            Some(c) => {
                let inner = c.encoded_bytes();
                concat(tag_bytes(1, WireType::LengthDelimited), length_delimited_bytes(inner.as_slice()))
            },
            None => Vec::new(),
        };
        concat(head, unknown_fields_bytes(&self.unknown_fields))
    }
}

impl Message for RecursiveMessage {
    open spec fn spec_wf(&self) -> bool {
        self.wf()
    }

    open spec fn spec_encoded(&self) -> Seq<u8> {
        recursive_enc(self@)
    }

    fn compute_size(&self) -> (r: u64) {
        let b = self.encoded_bytes();
        b.len() as u64
    }

    fn write_to_with_cached_sizes(&self, os: &mut CodedOutputStream) -> (r: Result<(), ProtobufError>) {
        let b = self.encoded_bytes();
        os.write_raw_bytes(b.as_slice())
    }
}

} // verus!
