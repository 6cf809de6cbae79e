//! Store of fields that the schema does not declare, kept as raw wire values.
use vstd::prelude::*;
use crate::varint::varint_enc;
use crate::wire_format::{le32_enc, le64_enc, tag_enc, valid_field_number, WireType};

verus! {

/// A raw wire value, never interpreted.
#[derive(Debug, Clone, PartialEq, Eq)]
pub enum UnknownValue {
    Fixed32(u32),
    Fixed64(u64),
    Varint(u64),
    LengthDelimited(Vec<u8>),
}

impl UnknownValue {
    /// Wire type under which the value travels.
    pub fn wire_type(&self) -> (r: WireType)
        ensures
            r == self@.wire_type(),
    {
        match self {
            UnknownValue::Fixed32(_) => WireType::Fixed32,
            UnknownValue::Fixed64(_) => WireType::Fixed64,
            UnknownValue::Varint(_) => WireType::Varint,
            UnknownValue::LengthDelimited(_) => WireType::LengthDelimited,
        }
    }
}

/// Mathematical form of a raw wire value.
pub enum RawValue {
    Fixed32(u32),
    Fixed64(u64),
    Varint(u64),
    LengthDelimited(Seq<u8>),
}

impl RawValue {
    pub open spec fn wire_type(self) -> WireType {
        match self {
            RawValue::Fixed32(_) => WireType::Fixed32,
            RawValue::Fixed64(_) => WireType::Fixed64,
            RawValue::Varint(_) => WireType::Varint,
            RawValue::LengthDelimited(_) => WireType::LengthDelimited,
        }
    }
}

impl View for UnknownValue {
    type V = RawValue;

    open spec fn view(&self) -> RawValue {
        match self {
            UnknownValue::Fixed32(x) => RawValue::Fixed32(*x),
            UnknownValue::Fixed64(x) => RawValue::Fixed64(*x),
            UnknownValue::Varint(x) => RawValue::Varint(*x),
            UnknownValue::LengthDelimited(b) => RawValue::LengthDelimited(b@),
        }
    }
}

/// Bytes of a raw value without its tag.
pub open spec fn raw_value_enc(v: RawValue) -> Seq<u8> {
    match v {
        RawValue::Fixed32(x) => le32_enc(x),
        RawValue::Fixed64(x) => le64_enc(x),
        RawValue::Varint(x) => varint_enc(x as nat),
        RawValue::LengthDelimited(b) => varint_enc(b.len()) + b,
    }
}

/// Bytes of one field: its tag, then its value.
pub open spec fn record_enc(r: (u32, RawValue)) -> Seq<u8> {
    tag_enc(r.0 as nat, r.1.wire_type()) + raw_value_enc(r.1)
}

/// Bytes of a sequence of fields, in order.
pub open spec fn records_enc(s: Seq<(u32, RawValue)>) -> Seq<u8>
    decreases s.len(),
{
    if s.len() == 0 {
        Seq::empty()
    } else {
        record_enc(s[0]) + records_enc(s.drop_first())
    }
}

/// Appending a record appends its bytes.
pub proof fn lemma_records_enc_push(s: Seq<(u32, RawValue)>, r: (u32, RawValue))
    ensures
        records_enc(s.push(r)) == records_enc(s) + record_enc(r),
    decreases s.len(),
{
    if s.len() == 0 {
        assert(s.push(r).drop_first() =~= Seq::<(u32, RawValue)>::empty());
        assert(s.push(r)[0] == r);
        assert(records_enc(Seq::<(u32, RawValue)>::empty()) == Seq::<u8>::empty());
        assert(records_enc(s.push(r)) =~= records_enc(s) + record_enc(r));
    } else {
        assert(s.push(r).drop_first() =~= s.drop_first().push(r));
        lemma_records_enc_push(s.drop_first(), r);
        assert(s.push(r)[0] == s[0]);
        assert(records_enc(s.push(r)) == record_enc(s[0]) + records_enc(s.drop_first().push(r)));
        assert(records_enc(s.push(r)) =~= records_enc(s) + record_enc(r));
    }
}

/// Encoding a concatenation of records concatenates their encodings.
pub proof fn lemma_records_enc_concat(a: Seq<(u32, RawValue)>, b: Seq<(u32, RawValue)>)
    ensures
        records_enc(a + b) == records_enc(a) + records_enc(b),
    decreases a.len(),
{
    if a.len() == 0 {
        assert(a + b =~= b);
        assert(records_enc(a) + records_enc(b) =~= records_enc(b));
    } else {
        assert((a + b).drop_first() =~= a.drop_first() + b);
        assert((a + b)[0] == a[0]);
        lemma_records_enc_concat(a.drop_first(), b);
        assert(records_enc(a + b) =~= records_enc(a) + records_enc(b));
    }
}

/// Every record carries a valid field number.
pub open spec fn records_wf(s: Seq<(u32, RawValue)>) -> bool {
    forall|i: int| 0 <= i < s.len() ==> valid_field_number(#[trigger] s[i].0 as nat)
}

/// Fields not declared by the schema, in the order they were met or added.
/// One field number may occur several times.
#[derive(Debug, Clone, PartialEq, Eq)]
pub struct UnknownFields {
    fields: Vec<(u32, UnknownValue)>,
}

impl View for UnknownFields {
    type V = Seq<(u32, RawValue)>;

    closed spec fn view(&self) -> Seq<(u32, RawValue)> {
        self.fields@.map_values(|p: (u32, UnknownValue)| (p.0, p.1@))
    }
}

impl UnknownFields {
    pub open spec fn wf(&self) -> bool {
        records_wf(self@)
    }

    /// Empty store.
    pub fn new() -> (r: UnknownFields)
        ensures
            r@ == Seq::<(u32, RawValue)>::empty(),
            r.wf(),
    {
        let r = UnknownFields { fields: Vec::new() };
        assert(r@ =~= Seq::<(u32, RawValue)>::empty());
        r
    }

    /// Appends a raw value under `number`.
    pub fn add_value(&mut self, number: u32, value: UnknownValue)
        requires
            valid_field_number(number as nat),
        ensures
            final(self)@ == old(self)@.push((number, value@)),
            old(self).wf() ==> final(self).wf(),
    {
        self.fields.push((number, value));
        assert(self@ =~= old(self)@.push((number, value@)));
    }

    /// Appends a `fixed32` value under `number`.
    pub fn add_fixed32(&mut self, number: u32, value: u32)
        requires
            valid_field_number(number as nat),
        ensures
            final(self)@ == old(self)@.push((number, RawValue::Fixed32(value))),
            old(self).wf() ==> final(self).wf(),
    {
        self.add_value(number, UnknownValue::Fixed32(value));
    }

    /// Appends a `fixed64` value under `number`.
    pub fn add_fixed64(&mut self, number: u32, value: u64)
        requires
            valid_field_number(number as nat),
        ensures
            final(self)@ == old(self)@.push((number, RawValue::Fixed64(value))),
            old(self).wf() ==> final(self).wf(),
    {
        self.add_value(number, UnknownValue::Fixed64(value));
    }

    /// Appends a varint value under `number`.
    pub fn add_varint(&mut self, number: u32, value: u64)
        requires
            valid_field_number(number as nat),
        ensures
            final(self)@ == old(self)@.push((number, RawValue::Varint(value))),
            old(self).wf() ==> final(self).wf(),
    {
        self.add_value(number, UnknownValue::Varint(value));
    }

    /// Appends a length-delimited value under `number`.
    pub fn add_length_delimited(&mut self, number: u32, value: Vec<u8>)
        requires
            valid_field_number(number as nat),
        ensures
            final(self)@ == old(self)@.push((number, RawValue::LengthDelimited(value@))),
            old(self).wf() ==> final(self).wf(),
    {
        self.add_value(number, UnknownValue::LengthDelimited(value));
    }

    /// Removes every field.
    pub fn clear(&mut self)
        ensures
            final(self)@ == Seq::<(u32, RawValue)>::empty(),
    {
        self.fields.clear();
        assert(self@ =~= Seq::<(u32, RawValue)>::empty());
    }

    /// No field is stored.
    pub fn is_empty(&self) -> (r: bool)
        ensures
            r == (self@.len() == 0),
    {
        self.fields.len() == 0
    }

    /// Number of stored values.
    pub fn len(&self) -> (r: usize)
        ensures
            r == self@.len(),
    {
        self.fields.len()
    }

    /// The `i`-th stored value with its field number.
    pub fn get_at(&self, i: usize) -> (r: &(u32, UnknownValue))
        requires
            i < self@.len(),
        ensures
            r.0 == self@[i as int].0,
            r.1@ == self@[i as int].1,
    {
        &self.fields[i]
    }

    /// First value stored under `number`.
    pub fn get(&self, number: u32) -> (r: Option<&UnknownValue>)
        ensures
            r is None <==> forall|i: int| 0 <= i < self@.len() ==> #[trigger] self@[i].0 != number,
            r matches Some(v) ==> exists|i: int|
                0 <= i < self@.len() && #[trigger] self@[i].0 == number && self@[i].1 == v@
                    && forall|j: int| 0 <= j < i ==> self@[j].0 != number,
    {
        let mut i: usize = 0;
        while i < self.fields.len()
            invariant
                i <= self@.len(),
                forall|j: int| 0 <= j < i ==> #[trigger] self@[j].0 != number,
            decreases self@.len() - i,
        {
            if self.fields[i].0 == number {
                assert(self@[i as int].0 == number);
                return Some(&self.fields[i].1);
            }
            i += 1;
        }
        None
    }
}

/// Number of bytes of the given fields when written.
pub open spec fn unknown_fields_size(f: &UnknownFields) -> nat {
    records_enc(f@).len()
}

} // verus!
