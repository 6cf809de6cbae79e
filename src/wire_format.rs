//! Wire types, tags, and the byte-level encodings that the writer emits.
use vstd::prelude::*;
use crate::varint::{encode_varint32, varint_enc};

verus! {

/// The largest field number a tag can carry.
pub const FIELD_NUMBER_MAX: u32 = 0x1fff_ffff;

/// Physical encoding category of a field value.
#[derive(Debug, Clone, Copy, PartialEq, Eq, Structural)]
pub enum WireType {
    Varint,
    Fixed64,
    LengthDelimited,
    StartGroup,
    EndGroup,
    Fixed32,
}

impl WireType {
    /// The three-bit code of the wire type.
    pub open spec fn spec_value(self) -> nat {
        match self {
            WireType::Varint => 0,
            WireType::Fixed64 => 1,
            WireType::LengthDelimited => 2,
            WireType::StartGroup => 3,
            WireType::EndGroup => 4,
            WireType::Fixed32 => 5,
        }
    }

    /// The three-bit code of the wire type.
    pub fn value(self) -> (r: u32)
        ensures
            r as nat == self.spec_value(),
    {
        match self {
            WireType::Varint => 0,
            WireType::Fixed64 => 1,
            WireType::LengthDelimited => 2,
            WireType::StartGroup => 3,
            WireType::EndGroup => 4,
            WireType::Fixed32 => 5,
        }
    }

    /// The wire type with the given code, if any.
    pub open spec fn spec_new(v: nat) -> Option<WireType> {
        if v == 0 {
            Some(WireType::Varint)
        } else if v == 1 {
            Some(WireType::Fixed64)
        } else if v == 2 {
            Some(WireType::LengthDelimited)
        } else if v == 3 {
            Some(WireType::StartGroup)
        } else if v == 4 {
            Some(WireType::EndGroup)
        } else if v == 5 {
            Some(WireType::Fixed32)
        } else {
            None
        }
    }

    /// The wire type with the given code, if any.
    pub fn new(v: u32) -> (r: Option<WireType>)
        ensures
            r == WireType::spec_new(v as nat),
    {
        if v == 0 {
            Some(WireType::Varint)
        } else if v == 1 {
            Some(WireType::Fixed64)
        } else if v == 2 {
            Some(WireType::LengthDelimited)
        } else if v == 3 {
            Some(WireType::StartGroup)
        } else if v == 4 {
            Some(WireType::EndGroup)
        } else if v == 5 {
            Some(WireType::Fixed32)
        } else {
            None
        }
    }
}

/// A field number is valid in a tag.
pub open spec fn valid_field_number(n: nat) -> bool {
    1 <= n <= FIELD_NUMBER_MAX
}

/// Numeric value of the tag of field `n` with wire type `wt`.
pub open spec fn tag_value(n: nat, wt: WireType) -> nat {
    n * 8 + wt.spec_value()
}

/// Bytes of the tag of field `n` with wire type `wt`.
pub open spec fn tag_enc(n: nat, wt: WireType) -> Seq<u8> {
    varint_enc(tag_value(n, wt))
}

/// Field number and wire type read from one varint.
#[derive(Debug, Clone, Copy, PartialEq, Eq, Structural)]
pub struct Tag {
    pub field_number: u32,
    pub wire_type: WireType,
}

impl Tag {
    /// The tag is well formed: its field number lies in `1..=FIELD_NUMBER_MAX`.
    pub open spec fn wf(self) -> bool {
        valid_field_number(self.field_number as nat)
    }

    /// Tag of the given field number and wire type.
    pub fn make(field_number: u32, wire_type: WireType) -> (r: Tag)
        requires
            valid_field_number(field_number as nat),
        ensures
            r.field_number == field_number,
            r.wire_type == wire_type,
            r.wf(),
    {
        Tag { field_number, wire_type }
    }

    /// Numeric value of the tag: the field number shifted left by three, or'd
    /// with the wire type's code.
    pub fn value(self) -> (r: u32)
        requires
            self.wf(),
        ensures
            r as nat == tag_value(self.field_number as nat, self.wire_type),
    {
        self.field_number * 8 + self.wire_type.value()
    }

    /// The tag a raw value stands for: `None` where its field number is zero
    /// or its wire type code is unknown.
    pub fn new(value: u32) -> (r: Option<Tag>)
        ensures
            r is Some <==> (value / 8 != 0 && WireType::spec_new((value % 8) as nat) is Some),
            r matches Some(t) ==> t.wf() && t.field_number == value / 8
                && t.wire_type == WireType::spec_new((value % 8) as nat).unwrap()
                && tag_value(t.field_number as nat, t.wire_type) == value,
    {
        let n = value / 8;
        if n == 0 {
            return None;
        }
        match WireType::new(value % 8) {
            Some(wire_type) => Some(Tag { field_number: n, wire_type }),
            None => None,
        }
    }
}

/// Little-endian bytes of a 32-bit value.
pub open spec fn le32_enc(v: u32) -> Seq<u8> {
    seq![(v % 256) as u8, ((v / 256) % 256) as u8, ((v / 65536) % 256) as u8, (v / 16777216) as u8]
}

/// Little-endian bytes of a 64-bit value.
pub open spec fn le64_enc(v: u64) -> Seq<u8> {
    le32_enc((v % 0x1_0000_0000) as u32) + le32_enc((v / 0x1_0000_0000) as u32)
}

/// Value of four little-endian bytes.
pub open spec fn le32_value(s: Seq<u8>) -> u32 {
    (s[0] + 256 * s[1] + 65536 * s[2] + 16777216 * s[3]) as u32
}

/// Value of eight little-endian bytes.
pub open spec fn le64_value(s: Seq<u8>) -> u64 {
    (le32_value(s.take(4)) + 0x1_0000_0000 * le32_value(s.skip(4))) as u64
}

pub proof fn lemma_le32_round_trip(v: u32)
    ensures
        le32_value(le32_enc(v)) == v,
        le32_enc(v).len() == 4,
{
}

pub proof fn lemma_le64_round_trip(v: u64)
    ensures
        le64_value(le64_enc(v)) == v,
        le64_enc(v).len() == 8,
{
    let lo = (v % 0x1_0000_0000) as u32;
    let hi = (v / 0x1_0000_0000) as u32;
    assert(le64_enc(v).take(4) =~= le32_enc(lo));
    assert(le64_enc(v).skip(4) =~= le32_enc(hi));
    lemma_le32_round_trip(lo);
    lemma_le32_round_trip(hi);
}

/// Bytes of the tag of field `field_number` with wire type `wire_type`.
pub fn tag_bytes(field_number: u32, wire_type: WireType) -> (r: Vec<u8>)
    requires
        valid_field_number(field_number as nat),
    ensures
        r@ == tag_enc(field_number as nat, wire_type),
{
    encode_varint32(Tag::make(field_number, wire_type).value())
}

/// Little-endian bytes of a 32-bit value.
pub fn le32_bytes(v: u32) -> (r: Vec<u8>)
    ensures
        r@ == le32_enc(v),
{
    let mut r: Vec<u8> = Vec::with_capacity(4);
    r.push((v % 256) as u8);
    r.push(((v / 256) % 256) as u8);
    r.push(((v / 65536) % 256) as u8);
    r.push((v / 16777216) as u8);
    assert(r@ =~= le32_enc(v));
    r
}

/// Little-endian bytes of a 64-bit value.
pub fn le64_bytes(v: u64) -> (r: Vec<u8>)
    ensures
        r@ == le64_enc(v),
{
    let mut r = le32_bytes((v % 0x1_0000_0000) as u32);
    let mut hi = le32_bytes((v / 0x1_0000_0000) as u32);
    r.append(&mut hi);
    r
}

} // verus!
