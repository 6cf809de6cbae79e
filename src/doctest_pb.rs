//! A message type that declares no field: everything it reads is kept as
//! unknown fields and written back unchanged.
use vstd::prelude::*;
use crate::coded_input_stream::{records_error, records_parse, CodedInputStream};
use crate::coded_output_stream::CodedOutputStream;
use crate::error::ProtobufError;
use crate::laws::{lemma_records_round_trip, records_valid};
use crate::message::{unknown_fields_size, Message};
use crate::unknown::{records_enc, RawValue, UnknownFields};

verus! {

/// Message with no declared field.
#[derive(Debug, Clone, PartialEq, Eq)]
pub struct MyMessage {
    /// Every field read.
    pub unknown_fields: UnknownFields,
}

impl MyMessage {
    pub open spec fn wf(&self) -> bool {
        self.unknown_fields.wf()
    }

    /// Empty message.
    pub fn new() -> (r: MyMessage)
        ensures
            r.unknown_fields@ == Seq::<(u32, RawValue)>::empty(),
            r.wf(),
    {
        MyMessage { unknown_fields: UnknownFields::new() }
    }

    /// Reads fields up to the end of the input's current frame, appending them
    /// to the unknown fields.
    pub fn merge_from(&mut self, input: &mut CodedInputStream) -> (r: Result<(), ProtobufError>)
        requires
            old(self).wf(),
            old(input).wf(),
        ensures
            final(input).wf(),
            match records_parse(old(input).remaining()) {
                Some(rs) => r is Ok && final(self).unknown_fields@ == old(self).unknown_fields@ + rs
                    && final(self).wf(),
                None => r == Err::<(), ProtobufError>(records_error(old(input).remaining())),
            },
    {
        let r = input.read_unknown_fields(&mut self.unknown_fields);
        proof {
            if let Some(rs) = records_parse(old(input).remaining()) {
                assert forall|i: int| 0 <= i < self.unknown_fields@.len() implies crate::wire_format::valid_field_number(
                    #[trigger] self.unknown_fields@[i].0 as nat,
                ) by {
                    if i >= old(self).unknown_fields@.len() {
                        crate::laws::lemma_records_parse_valid(old(input).remaining());
                        assert(self.unknown_fields@[i] == rs[i - old(self).unknown_fields@.len()]);
                    }
                }
            }
        }
        r
    }

    /// Decodes a message from a whole input.
    pub fn parse_from_bytes(bytes: &[u8]) -> (r: Result<MyMessage, ProtobufError>)
        ensures
            match records_parse(bytes@) {
                Some(rs) => r matches Ok(v) && v.unknown_fields@ == rs && v.wf(),
                None => r == Err::<MyMessage, ProtobufError>(records_error(bytes@)),
            },
    {
        let mut input = CodedInputStream::from_bytes(bytes);
        let mut v = MyMessage::new();
        assert(input.remaining() =~= bytes@);
        v.merge_from(&mut input)?;
        assert(Seq::<(u32, RawValue)>::empty() + records_parse(bytes@).unwrap() =~= records_parse(bytes@).unwrap());
        Ok(v)
    }
}

impl Message for MyMessage {
    open spec fn spec_wf(&self) -> bool {
        self.wf()
    }

    open spec fn spec_encoded(&self) -> Seq<u8> {
        records_enc(self.unknown_fields@)
    }

    fn compute_size(&self) -> (r: u64) {
        unknown_fields_size(&self.unknown_fields)
    }

    fn write_to_with_cached_sizes(&self, os: &mut CodedOutputStream) -> (r: Result<(), ProtobufError>) {
        os.write_unknown_fields(&self.unknown_fields)
    }
}

/// Round trip of a message without declared fields: decoding its bytes gives
/// back exactly its fields.
pub proof fn lemma_my_message_round_trip(m: &MyMessage)
    requires
        records_valid(m.unknown_fields@),
    ensures
        records_parse(m.spec_encoded()) == Some(m.unknown_fields@),
{
    lemma_records_round_trip(m.unknown_fields@);
}

} // verus!
