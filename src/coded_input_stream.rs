//! Bounds-checked, recursion-limited reader of the wire format.
use vstd::prelude::*;
use crate::error::ProtobufError;
use crate::unknown::{RawValue, UnknownFields, UnknownValue};
use crate::varint::{
    base128_value, decode_zig_zag_32, decode_zig_zag_64, lemma_base128_push, lemma_pow128_step,
    lemma_pow128_values, pow128, unzigzag, varint_end, varint_end_from, varint_value,
};
use crate::wire_format::{le32_value, le64_value, valid_field_number, Tag, WireType};

verus! {

/// Nesting depth allowed by default.
pub const DEFAULT_RECURSION_LIMIT: u32 = 100;

/// The tag at the front of `s`, with the number of bytes it takes.
pub open spec fn tag_read(s: Seq<u8>) -> Option<(Tag, nat)> {
    match varint_end(s) {
        None => None,
        Some(e) => {
            let v = varint_value(s, e);
            if v > u32::MAX || v / 8 == 0 || WireType::spec_new((v % 8) as nat) is None {
                None
            } else {
                Some(
                    (
                        Tag {
                            field_number: (v / 8) as u32,
                            wire_type: WireType::spec_new((v % 8) as nat).unwrap(),
                        },
                        e + 1,
                    ),
                )
            }
        },
    }
}

/// The raw value of wire type `wt` at the front of `s`, with the number of
/// bytes it takes. Groups have no raw value.
pub open spec fn raw_value_read(s: Seq<u8>, wt: WireType) -> Option<(RawValue, nat)> {
    match wt {
        WireType::Varint => match varint_end(s) {
            Some(e) => Some((RawValue::Varint(varint_value(s, e)), e + 1)),
            None => None,
        },
        WireType::Fixed32 => if s.len() >= 4 {
            Some((RawValue::Fixed32(le32_value(s)), 4))
        } else {
            None
        },
        WireType::Fixed64 => if s.len() >= 8 {
            Some((RawValue::Fixed64(le64_value(s)), 8))
        } else {
            None
        },
        WireType::LengthDelimited => match varint_end(s) {
            Some(e) => {
                let n = varint_value(s, e) as nat;
                if e + 1 + n <= s.len() {
                    Some((RawValue::LengthDelimited(s.subrange((e + 1) as int, (e + 1 + n) as int)), e + 1 + n))
                } else {
                    None
                }
            },
            None => None,
        },
        _ => None,
    }
}

/// One field at the front of `s`: its number and raw value, with the number of
/// bytes they take.
pub open spec fn record_read(s: Seq<u8>) -> Option<((u32, RawValue), nat)> {
    match tag_read(s) {
        None => None,
        Some((t, k)) => match raw_value_read(s.skip(k as int), t.wire_type) {
            None => None,
            Some((v, j)) => Some(((t.field_number, v), k + j)),
        },
    }
}

/// The varint at the front of `s`, with the number of bytes it takes.
pub open spec fn varint_read(s: Seq<u8>) -> Option<(u64, nat)> {
    match varint_end(s) {
        Some(e) => Some((varint_value(s, e), e + 1)),
        None => None,
    }
}

/// A 64-bit pattern read as a two's complement signed value.
pub open spec fn u64_to_i64(v: u64) -> i64 {
    if v < 0x8000_0000_0000_0000 {
        v as i64
    } else {
        (v - 0x1_0000_0000_0000_0000) as i64
    }
}

/// A 32-bit pattern read as a two's complement signed value.
pub open spec fn u32_to_i32(v: u32) -> i32 {
    if v < 0x8000_0000 {
        v as i32
    } else {
        (v - 0x1_0000_0000) as i32
    }
}

/// A 64-bit pattern read as a two's complement signed value.
pub fn u64_to_i64_exec(v: u64) -> (r: i64)
    ensures
        r == u64_to_i64(v),
{
    if v < 0x8000_0000_0000_0000 {
        v as i64
    } else {
        -((0xffff_ffff_ffff_ffff - v) as i64) - 1
    }
}

/// A 32-bit pattern read as a two's complement signed value.
pub fn u32_to_i32_exec(v: u32) -> (r: i32)
    ensures
        r == u32_to_i32(v),
{
    if v < 0x8000_0000 {
        v as i32
    } else {
        -((0xffff_ffff - v) as i32) - 1
    }
}

/// Varints back to back, where `s` is a whole sequence of them.
#[verifier::opaque]
pub open spec fn varints_parse(s: Seq<u8>) -> Option<Seq<u64>>
    decreases s.len(),
{
    if s.len() == 0 {
        Some(Seq::empty())
    } else {
        match varint_read(s) {
            None => None,
            Some((v, k)) => if 0 < k <= s.len() {
                match varints_parse(s.skip(k as int)) {
                    None => None,
                    Some(rest) => Some(seq![v] + rest),
                }
            } else {
                None
            },
        }
    }
}

/// One step of `varints_parse`.
pub proof fn lemma_varints_parse_step(s: Seq<u8>)
    ensures
        s.len() == 0 ==> varints_parse(s) == Some(Seq::<u64>::empty()),
        s.len() > 0 ==> varints_parse(s) == match varint_read(s) {
            None => None,
            Some((v, k)) => match varints_parse(s.skip(k as int)) {
                None => None,
                Some(rest) => Some(seq![v] + rest),
            },
        },
        varint_read(s) matches Some((_, k)) ==> 0 < k <= s.len(),
{
    reveal(varints_parse);
    lemma_varint_end_bound(s, 0);
}

/// Values of a repeated varint field at the front of `s`, as the wire type
/// says: one value, or a length-delimited run of packed values. Also the
/// number of bytes taken.
pub open spec fn repeated_varints_read(s: Seq<u8>, wt: WireType) -> Option<(Seq<u64>, nat)> {
    match wt {
        WireType::Varint => match varint_read(s) {
            Some((v, k)) => Some((seq![v], k)),
            None => None,
        },
        WireType::LengthDelimited => match raw_value_read(s, WireType::LengthDelimited) {
            Some((RawValue::LengthDelimited(b), k)) => match varints_parse(b) {
                Some(vs) => Some((vs, k)),
                None => None,
            },
            _ => None,
        },
        _ => None,
    }
}

/// Bytes that close the groups open in `stack` (innermost last): everything up
/// to and including the end-group tag of the outermost. Fields in between are
/// passed over; nested groups must close in order.
#[verifier::opaque]
pub open spec fn group_skip_scan(s: Seq<u8>, stack: Seq<u32>) -> Option<nat>
    decreases s.len(),
{
    if stack.len() == 0 {
        Some(0)
    } else {
        match tag_read(s) {
            None => None,
            Some((t, k)) => if 0 < k <= s.len() {
                let step: Option<(Seq<u32>, nat)> = if t.wire_type == WireType::EndGroup {
                    if t.field_number == stack.last() {
                        Some((stack.drop_last(), k))
                    } else {
                        None
                    }
                } else if t.wire_type == WireType::StartGroup {
                    Some((stack.push(t.field_number), k))
                } else {
                    match raw_value_read(s.skip(k as int), t.wire_type) {
                        Some((_, j)) => if k + j <= s.len() {
                            Some((stack, k + j))
                        } else {
                            None
                        },
                        None => None,
                    }
                };
                match step {
                    None => None,
                    Some((st, c)) => match group_skip_scan(s.skip(c as int), st) {
                        Some(m) => Some(c + m),
                        None => None,
                    },
                }
            } else {
                None
            },
        }
    }
}

/// One item at the front of `s`, with the number of bytes it takes: a field,
/// or a whole group that no field stands for and that is passed over.
pub open spec fn field_read(s: Seq<u8>) -> Option<(Option<(u32, RawValue)>, nat)> {
    match tag_read(s) {
        None => None,
        Some((t, k)) => if t.wire_type == WireType::StartGroup {
            match group_skip_scan(s.skip(k as int), seq![t.field_number]) {
                Some(j) => Some((None, k + j)),
                None => None,
            }
        } else {
            match record_read(s) {
                Some((r, n)) => Some((Some(r), n)),
                None => None,
            }
        },
    }
}

/// All fields of `s`, in order, where `s` is a whole sequence of fields;
/// groups are passed over.
#[verifier::opaque]
pub open spec fn records_parse(s: Seq<u8>) -> Option<Seq<(u32, RawValue)>>
    decreases s.len(),
{
    if s.len() == 0 {
        Some(Seq::empty())
    } else {
        match field_read(s) {
            None => None,
            Some((o, k)) => if 0 < k <= s.len() {
                match records_parse(s.skip(k as int)) {
                    None => None,
                    Some(rest) => Some(
                        match o {
                            Some(r) => seq![r] + rest,
                            None => rest,
                        },
                    ),
                }
            } else {
                None
            },
        }
    }
}

/// The varint at the front of `s` ends inside `s`.
pub proof fn lemma_varint_end_bound(s: Seq<u8>, i: nat)
    ensures
        varint_end_from(s, i) matches Some(e) ==> i <= e < s.len() && e < 10 && s[e as int] < 128,
    decreases 10 - i,
{
    if i < 10 && i < s.len() && s[i as int] >= 128 {
        lemma_varint_end_bound(s, i + 1);
    }
}

/// A field takes at least one byte and no more than the input holds.
pub proof fn lemma_record_read_bound(s: Seq<u8>)
    ensures
        record_read(s) matches Some((_, k)) ==> 0 < k <= s.len(),
{
    lemma_varint_end_bound(s, 0);
    if let Some((t, k)) = tag_read(s) {
        let rest = s.skip(k as int);
        lemma_varint_end_bound(rest, 0);
    }
}

/// Passing over groups takes no more than the input holds, and at least one
/// byte while a group is open.
pub proof fn lemma_group_skip_bound(s: Seq<u8>, stack: Seq<u32>)
    ensures
        group_skip_scan(s, stack) matches Some(m) ==> m <= s.len() && (stack.len() > 0 ==> m > 0),
    decreases s.len(),
{
    reveal(group_skip_scan);
    lemma_varint_end_bound(s, 0);
    if stack.len() > 0 {
        if let Some((t, k)) = tag_read(s) {
            if 0 < k <= s.len() {
                lemma_varint_end_bound(s.skip(k as int), 0);
                if let Some((_, j)) = raw_value_read(s.skip(k as int), t.wire_type) {
                    if k + j <= s.len() {
                        lemma_group_skip_bound(s.skip((k + j) as int), stack);
                    }
                }
                if t.wire_type == WireType::EndGroup && t.field_number == stack.last() {
                    lemma_group_skip_bound(s.skip(k as int), stack.drop_last());
                }
                if t.wire_type == WireType::StartGroup {
                    lemma_group_skip_bound(s.skip(k as int), stack.push(t.field_number));
                }
            }
        }
    }
}

/// One step of `group_skip_scan` while a group is open.
pub proof fn lemma_group_skip_step(s: Seq<u8>, stack: Seq<u32>)
    requires
        stack.len() > 0,
    ensures
        group_skip_scan(s, stack) == match tag_read(s) {
            None => None,
            Some((t, k)) => {
                let step: Option<(Seq<u32>, nat)> = if t.wire_type == WireType::EndGroup {
                    if t.field_number == stack.last() {
                        Some((stack.drop_last(), k))
                    } else {
                        None
                    }
                } else if t.wire_type == WireType::StartGroup {
                    Some((stack.push(t.field_number), k))
                } else {
                    match raw_value_read(s.skip(k as int), t.wire_type) {
                        Some((_, j)) => Some((stack, k + j)),
                        None => None,
                    }
                };
                match step {
                    None => None,
                    Some((st, c)) => match group_skip_scan(s.skip(c as int), st) {
                        Some(m) => Some(c + m),
                        None => None,
                    },
                }
            },
        },
{
    reveal(group_skip_scan);
    lemma_varint_end_bound(s, 0);
    if let Some((t, k)) = tag_read(s) {
        lemma_varint_end_bound(s.skip(k as int), 0);
    }
}

/// An item takes at least one byte and no more than the input holds.
pub proof fn lemma_field_read_bound(s: Seq<u8>)
    ensures
        field_read(s) matches Some((_, k)) ==> 0 < k <= s.len(),
{
    lemma_record_read_bound(s);
    lemma_varint_end_bound(s, 0);
    if let Some((t, k)) = tag_read(s) {
        lemma_group_skip_bound(s.skip(k as int), seq![t.field_number]);
    }
}

/// The error of reading a varint at the front of `s` where none ends there:
/// the input ran out, or ten bytes passed without an end.
pub open spec fn varint_error(s: Seq<u8>) -> ProtobufError {
    if s.len() < 10 {
        ProtobufError::Truncated
    } else {
        ProtobufError::MalformedVarint
    }
}

/// The error of reading a tag at the front of `s` where none can be read.
pub open spec fn tag_error(s: Seq<u8>) -> ProtobufError {
    if varint_end(s) is None {
        varint_error(s)
    } else {
        ProtobufError::InvalidTag
    }
}

/// The error of reading a raw value of wire type `wt` at the front of `s`
/// where none can be read.
pub open spec fn raw_value_error(s: Seq<u8>, wt: WireType) -> ProtobufError {
    match wt {
        WireType::Varint => varint_error(s),
        WireType::Fixed32 | WireType::Fixed64 => ProtobufError::Truncated,
        WireType::LengthDelimited => if varint_end(s) is None {
            varint_error(s)
        } else {
            ProtobufError::Truncated
        },
        _ => ProtobufError::UnmatchedGroup,
    }
}

/// The error of passing over the groups open in `stack`, where that fails.
#[verifier::opaque]
pub open spec fn group_skip_error(s: Seq<u8>, stack: Seq<u32>) -> ProtobufError
    decreases s.len(),
{
    match tag_read(s) {
        None => tag_error(s),
        Some((t, k)) => if 0 < k <= s.len() && stack.len() > 0 {
            if t.wire_type == WireType::EndGroup {
                if t.field_number == stack.last() {
                    group_skip_error(s.skip(k as int), stack.drop_last())
                } else {
                    ProtobufError::UnmatchedGroup
                }
            } else if t.wire_type == WireType::StartGroup {
                group_skip_error(s.skip(k as int), stack.push(t.field_number))
            } else {
                match raw_value_read(s.skip(k as int), t.wire_type) {
                    Some((_, j)) => if k + j <= s.len() {
                        group_skip_error(s.skip((k + j) as int), stack)
                    } else {
                        ProtobufError::Truncated
                    },
                    None => raw_value_error(s.skip(k as int), t.wire_type),
                }
            }
        } else {
            ProtobufError::InvalidTag
        },
    }
}

/// The error of reading one item at the front of `s` where none can be read.
pub open spec fn field_error(s: Seq<u8>) -> ProtobufError {
    match tag_read(s) {
        None => tag_error(s),
        Some((t, k)) => if t.wire_type == WireType::StartGroup {
            group_skip_error(s.skip(k as int), seq![t.field_number])
        } else {
            raw_value_error(s.skip(k as int), t.wire_type)
        },
    }
}

/// The error of reading `s` as a whole sequence of fields, where that fails:
/// the error of the first item that cannot be read.
#[verifier::opaque]
pub open spec fn records_error(s: Seq<u8>) -> ProtobufError
    decreases s.len(),
{
    match field_read(s) {
        None => field_error(s),
        Some((_, k)) => if 0 < k <= s.len() {
            records_error(s.skip(k as int))
        } else {
            ProtobufError::InvalidTag
        },
    }
}

/// One step of `records_error`.
pub proof fn lemma_records_error_step(s: Seq<u8>)
    ensures
        records_error(s) == match field_read(s) {
            None => field_error(s),
            Some((_, k)) => records_error(s.skip(k as int)),
        },
{
    reveal(records_error);
    lemma_field_read_bound(s);
}

/// One step of `group_skip_error` while a group is open.
pub proof fn lemma_group_skip_error_step(s: Seq<u8>, stack: Seq<u32>)
    requires
        stack.len() > 0,
    ensures
        group_skip_error(s, stack) == match tag_read(s) {
            None => tag_error(s),
            Some((t, k)) => if t.wire_type == WireType::EndGroup {
                if t.field_number == stack.last() {
                    group_skip_error(s.skip(k as int), stack.drop_last())
                } else {
                    ProtobufError::UnmatchedGroup
                }
            } else if t.wire_type == WireType::StartGroup {
                group_skip_error(s.skip(k as int), stack.push(t.field_number))
            } else {
                match raw_value_read(s.skip(k as int), t.wire_type) {
                    Some((_, j)) => group_skip_error(s.skip((k + j) as int), stack),
                    None => raw_value_error(s.skip(k as int), t.wire_type),
                }
            },
        },
{
    reveal(group_skip_error);
    lemma_varint_end_bound(s, 0);
    if let Some((t, k)) = tag_read(s) {
        lemma_varint_end_bound(s.skip(k as int), 0);
    }
}

/// One step of `records_parse`: a non-empty input is one item, then the rest.
pub proof fn lemma_records_parse_step(s: Seq<u8>)
    requires
        s.len() > 0,
    ensures
        records_parse(s) == match field_read(s) {
            None => None,
            Some((o, k)) => match records_parse(s.skip(k as int)) {
                None => None,
                Some(rest) => Some(
                    match o {
                        Some(r) => seq![r] + rest,
                        None => rest,
                    },
                ),
            },
        },
{
    reveal(records_parse);
    lemma_field_read_bound(s);
}

pub proof fn lemma_records_parse_empty(s: Seq<u8>)
    requires
        s.len() == 0,
    ensures
        records_parse(s) == Some(Seq::<(u32, RawValue)>::empty()),
{
    reveal(records_parse);
}

pub proof fn lemma_pow128_mono(a: nat, b: nat)
    requires
        a <= b,
    ensures
        pow128(a) <= pow128(b),
    decreases b - a,
{
    if a < b {
        lemma_pow128_mono(a, (b - 1) as nat);
        lemma_pow128_step((b - 1) as nat);
    }
}

/// Past the 64th bit only the lowest bit of the tenth byte survives.
proof fn lemma_tenth_byte(r: nat, c: nat)
    requires
        r < 0x8000_0000_0000_0000,
        c < 128,
    ensures
        (r + c * 0x8000_0000_0000_0000) % 0x1_0000_0000_0000_0000 == r + (c % 2)
            * 0x8000_0000_0000_0000,
{
    let h = c / 2;
    let l = c % 2;
    assert(c * 0x8000_0000_0000_0000 == h * 0x1_0000_0000_0000_0000 + l * 0x8000_0000_0000_0000)
        by (nonlinear_arith)
        requires
            c == 2 * h + l,
    ;
    let x = r + l * 0x8000_0000_0000_0000;
    assert(x < 0x1_0000_0000_0000_0000);
    vstd::arithmetic::div_mod::lemma_mod_multiples_vanish(h as int, x as int, 0x1_0000_0000_0000_0000);
    vstd::arithmetic::div_mod::lemma_small_mod(x, 0x1_0000_0000_0000_0000);
}

/// Reader over a byte buffer, with a current framing limit and a nesting counter.
#[derive(Debug)]
pub struct CodedInputStream {
    buf: Vec<u8>,
    pos: usize,
    limit: usize,
    recursion_level: u32,
    recursion_limit: u32,
}

impl CodedInputStream {
    pub open spec fn wf(&self) -> bool {
        self.position() <= self.frame_end() <= self.data().len() <= usize::MAX
    }

    /// The whole input.
    pub closed spec fn data(&self) -> Seq<u8> {
        self.buf@
    }

    /// Position of the cursor in the input.
    pub closed spec fn position(&self) -> nat {
        self.pos as nat
    }

    /// End of the current frame.
    pub closed spec fn frame_end(&self) -> nat {
        self.limit as nat
    }

    /// Current nesting depth.
    pub closed spec fn depth(&self) -> nat {
        self.recursion_level as nat
    }

    /// Largest nesting depth allowed.
    pub closed spec fn depth_limit(&self) -> nat {
        self.recursion_limit as nat
    }

    /// What is left of the current frame.
    pub open spec fn remaining(&self) -> Seq<u8> {
        self.data().subrange(self.position() as int, self.frame_end() as int)
    }

    /// Same input, frame and nesting state; only the cursor may differ.
    pub open spec fn same_frame(&self, other: &Self) -> bool {
        &&& self.data() == other.data()
        &&& self.frame_end() == other.frame_end()
        &&& self.depth() == other.depth()
        &&& self.depth_limit() == other.depth_limit()
    }

    /// `new` is `old` with the cursor moved `n` bytes on.
    pub open spec fn advanced(old: &Self, new: &Self, n: nat) -> bool {
        &&& new.wf()
        &&& new.same_frame(old)
        &&& new.position() == old.position() + n
    }

    /// Reader over a copy of `bytes`.
    pub fn from_bytes(bytes: &[u8]) -> (r: CodedInputStream)
        ensures
            r.wf(),
            r.data() == bytes@,
            r.position() == 0,
            r.frame_end() == bytes@.len(),
            r.depth() == 0,
            r.depth_limit() == DEFAULT_RECURSION_LIMIT,
    {
        CodedInputStream::from_vec(vstd::slice::slice_to_vec(bytes))
    }

    /// Reader over `bytes`.
    pub fn from_vec(bytes: Vec<u8>) -> (r: CodedInputStream)
        ensures
            r.wf(),
            r.data() == bytes@,
            r.position() == 0,
            r.frame_end() == bytes@.len(),
            r.depth() == 0,
            r.depth_limit() == DEFAULT_RECURSION_LIMIT,
    {
        let n = bytes.len();
        CodedInputStream {
            buf: bytes,
            pos: 0,
            limit: n,
            recursion_level: 0,
            recursion_limit: DEFAULT_RECURSION_LIMIT,
        }
    }

    /// Sets the largest nesting depth allowed.
    pub fn set_recursion_limit(&mut self, limit: u32)
        requires
            old(self).wf(),
        ensures
            final(self).wf(),
            final(self).data() == old(self).data(),
            final(self).position() == old(self).position(),
            final(self).frame_end() == old(self).frame_end(),
            final(self).depth() == old(self).depth(),
            final(self).depth_limit() == limit,
    {
        self.recursion_limit = limit;
    }

    /// Current nesting depth.
    pub fn recursion_depth(&self) -> (r: u32)
        ensures
            r as nat == self.depth(),
    {
        self.recursion_level
    }

    /// Largest nesting depth allowed.
    pub fn recursion_limit(&self) -> (r: u32)
        ensures
            r as nat == self.depth_limit(),
    {
        self.recursion_limit
    }

    /// Enters one nesting level; fails where that would pass the limit.
    pub fn incr_recursion(&mut self) -> (r: Result<(), ProtobufError>)
        requires
            old(self).wf(),
        ensures
            final(self).wf(),
            final(self).data() == old(self).data(),
            final(self).position() == old(self).position(),
            final(self).frame_end() == old(self).frame_end(),
            final(self).depth_limit() == old(self).depth_limit(),
            old(self).depth() >= old(self).depth_limit() ==> r == Err::<(), ProtobufError>(
                ProtobufError::RecursionLimitExceeded,
            ) && final(self).depth() == old(self).depth(),
            old(self).depth() < old(self).depth_limit() ==> r is Ok && final(self).depth()
                == old(self).depth() + 1,
    {
        if self.recursion_level >= self.recursion_limit {
            return Err(ProtobufError::RecursionLimitExceeded);
        }
        self.recursion_level = self.recursion_level + 1;
        Ok(())
    }

    /// Leaves one nesting level.
    pub fn decr_recursion(&mut self)
        requires
            old(self).wf(),
            old(self).depth() > 0,
        ensures
            final(self).wf(),
            final(self).data() == old(self).data(),
            final(self).position() == old(self).position(),
            final(self).frame_end() == old(self).frame_end(),
            final(self).depth_limit() == old(self).depth_limit(),
            final(self).depth() == old(self).depth() - 1,
    {
        self.recursion_level = self.recursion_level - 1;
    }

    /// No byte is left in the current frame.
    pub fn eof(&self) -> (r: bool)
        requires
            self.wf(),
        ensures
            r == (self.remaining().len() == 0),
    {
        self.pos == self.limit
    }

    /// Number of bytes left in the current frame.
    pub fn bytes_until_limit(&self) -> (r: usize)
        requires
            self.wf(),
        ensures
            r == self.remaining().len(),
    {
        self.limit - self.pos
    }

    /// Reads a varint of up to ten bytes; bits past the 64th are dropped.
    pub fn read_raw_varint64(&mut self) -> (r: Result<u64, ProtobufError>)
        requires
            old(self).wf(),
        ensures
            match varint_end(old(self).remaining()) {
                Some(e) => r == Ok::<u64, ProtobufError>(varint_value(old(self).remaining(), e))
                    && Self::advanced(old(self), final(self), e + 1),
                None => *final(self) == *old(self) && r == Err::<u64, ProtobufError>(
                    if old(self).remaining().len() < 10 {
                        ProtobufError::Truncated
                    } else {
                        ProtobufError::MalformedVarint
                    },
                ),
            },
    {
        let ghost s = self.remaining();
        let mut r: u64 = 0;
        let mut mult: u64 = 1;
        let mut i: usize = 0;
        proof {
            lemma_pow128_values();
            reveal_with_fuel(pow128, 10);
            assert(s.take(0) =~= Seq::<u8>::empty());
        }
        loop
            invariant
                self.wf(),
                *self == *old(self),
                s == self.remaining(),
                i <= 9,
                i <= s.len(),
                mult == pow128(i as nat),
                r == base128_value(s.take(i as int)),
                r < mult,
                pow128(8) == 0x0100_0000_0000_0000,
                pow128(9) == 0x8000_0000_0000_0000,
                varint_end(s) == varint_end_from(s, i as nat),
            decreases 9 - i,
        {
            if i >= self.limit - self.pos {
                return Err(ProtobufError::Truncated);
            }
            let b = self.buf[self.pos + i];
            assert(b == s[i as int]);
            assert(s.take(i + 1) =~= s.take(i as int).push(b));
            proof {
                lemma_base128_push(s.take(i as int), b);
            }
            if i == 9 {
                if b < 128 {
                    proof {
                        lemma_tenth_byte(r as nat, (b % 128) as nat);
                        assert((b % 128) % 2 == b % 2);
                    }
                    let v = r + (b % 2) as u64 * 0x8000_0000_0000_0000;
                    self.pos = self.pos + 10;
                    return Ok(v);
                }
                assert(varint_end_from(s, 10) is None);
                return Err(ProtobufError::MalformedVarint);
            }
            proof {
                lemma_pow128_mono(i as nat, 8);
                lemma_pow128_step(i as nat);
                assert((b % 128) as nat * mult + r < 128 * mult) by (nonlinear_arith)
                    requires
                        r < mult,
                        (b % 128) as nat <= 127,
                ;
            }
            let v = r + (b % 128) as u64 * mult;
            if b < 128 {
                proof {
                    lemma_pow128_mono((i + 1) as nat, 9);
                    vstd::arithmetic::div_mod::lemma_small_mod(v as nat, 0x1_0000_0000_0000_0000);
                }
                self.pos = self.pos + i + 1;
                return Ok(v);
            }
            r = v;
            mult = mult * 128;
            i = i + 1;
        }
    }

    /// Reads a tag: a varint of at most 32 bits whose field number is not zero
    /// and whose wire type code is known.
    pub fn read_tag(&mut self) -> (r: Result<Tag, ProtobufError>)
        requires
            old(self).wf(),
        ensures
            final(self).wf(),
            final(self).same_frame(old(self)),
            match tag_read(old(self).remaining()) {
                Some((t, k)) => r == Ok::<Tag, ProtobufError>(t) && Self::advanced(old(self), final(self), k),
                None => r == Err::<Tag, ProtobufError>(tag_error(old(self).remaining())),
            },
    {
        let v = self.read_raw_varint64()?;
        if v > 0xffff_ffff {
            return Err(ProtobufError::InvalidTag);
        }
        match Tag::new(v as u32) {
            Some(t) => Ok(t),
            None => Err(ProtobufError::InvalidTag),
        }
    }

    /// Value of the four bytes at `i`.
    fn le32_at(&self, i: usize) -> (r: u32)
        requires
            self.wf(),
            i + 4 <= self.buf@.len(),
        ensures
            r == le32_value(self.buf@.subrange(i as int, i + 4)),
    {
        let len = self.buf.len();
        let b0 = self.buf[i] as u32;
        let b1 = self.buf[i + 1] as u32;
        let b2 = self.buf[i + 2] as u32;
        let b3 = self.buf[i + 3] as u32;
        b0 + 256 * b1 + 65536 * b2 + 16777216 * b3
    }

    /// Reads a 32-bit little-endian value.
    pub fn read_raw_little_endian32(&mut self) -> (r: Result<u32, ProtobufError>)
        requires
            old(self).wf(),
        ensures
            old(self).remaining().len() >= 4 ==> r == Ok::<u32, ProtobufError>(le32_value(old(self).remaining()))
                && Self::advanced(old(self), final(self), 4),
            old(self).remaining().len() < 4 ==> r == Err::<u32, ProtobufError>(ProtobufError::Truncated)
                && *final(self) == *old(self),
    {
        if self.limit - self.pos < 4 {
            return Err(ProtobufError::Truncated);
        }
        let v = self.le32_at(self.pos);
        proof {
            let s = old(self).remaining();
            assert(self.buf@.subrange(self.pos as int, self.pos + 4) =~= s.take(4));
        }
        self.pos = self.pos + 4;
        Ok(v)
    }

    /// Reads a 64-bit little-endian value.
    pub fn read_raw_little_endian64(&mut self) -> (r: Result<u64, ProtobufError>)
        requires
            old(self).wf(),
        ensures
            old(self).remaining().len() >= 8 ==> r == Ok::<u64, ProtobufError>(le64_value(old(self).remaining()))
                && Self::advanced(old(self), final(self), 8),
            old(self).remaining().len() < 8 ==> r == Err::<u64, ProtobufError>(ProtobufError::Truncated)
                && *final(self) == *old(self),
    {
        if self.limit - self.pos < 8 {
            return Err(ProtobufError::Truncated);
        }
        let lo = self.le32_at(self.pos);
        let hi = self.le32_at(self.pos + 4);
        proof {
            let s = old(self).remaining();
            assert(self.buf@.subrange(self.pos as int, self.pos + 4) =~= s.take(4).take(4));
            assert(self.buf@.subrange(self.pos + 4, self.pos + 8) =~= s.skip(4).take(4));
        }
        self.pos = self.pos + 8;
        Ok(lo as u64 + (hi as u64) * 0x1_0000_0000)
    }

    /// Copy of the input bytes in `from..to`.
    fn copy_range(&self, from: usize, to: usize) -> (r: Vec<u8>)
        requires
            from <= to <= self.buf@.len(),
        ensures
            r@ == self.buf@.subrange(from as int, to as int),
    {
        let mut out: Vec<u8> = Vec::with_capacity(to - from);
        let mut i: usize = from;
        while i < to
            invariant
                from <= i <= to,
                to <= self.buf@.len(),
                out@ == self.buf@.subrange(from as int, i as int),
            decreases to - i,
        {
            out.push(self.buf[i]);
            i = i + 1;
            assert(out@ =~= self.buf@.subrange(from as int, i as int));
        }
        out
    }

    /// Reads a length-delimited payload: a varint length, then that many bytes.
    pub fn read_bytes(&mut self) -> (r: Result<Vec<u8>, ProtobufError>)
        requires
            old(self).wf(),
        ensures
            final(self).wf(),
            final(self).same_frame(old(self)),
            match raw_value_read(old(self).remaining(), WireType::LengthDelimited) {
                Some((RawValue::LengthDelimited(b), k)) => r matches Ok(v) && v@ == b
                    && Self::advanced(old(self), final(self), k),
                _ => r == Err::<Vec<u8>, ProtobufError>(
                    raw_value_error(old(self).remaining(), WireType::LengthDelimited),
                ),
            },
    {
        let n = self.read_raw_varint64()?;
        if n > (self.limit - self.pos) as u64 {
            return Err(ProtobufError::Truncated);
        }
        let from = self.pos;
        let to = self.pos + n as usize;
        let v = self.copy_range(from, to);
        proof {
            let s = old(self).remaining();
            let e = varint_end(s).unwrap();
            assert(v@ =~= s.subrange((e + 1) as int, (e + 1 + n) as int));
        }
        self.pos = to;
        Ok(v)
    }

    /// Reads a raw value of wire type `wire_type`; groups have none.
    pub fn read_raw_value(&mut self, wire_type: WireType) -> (r: Result<UnknownValue, ProtobufError>)
        requires
            old(self).wf(),
        ensures
            final(self).wf(),
            final(self).same_frame(old(self)),
            match raw_value_read(old(self).remaining(), wire_type) {
                Some((v, k)) => r matches Ok(u) && u@ == v && Self::advanced(old(self), final(self), k),
                None => r == Err::<UnknownValue, ProtobufError>(
                    raw_value_error(old(self).remaining(), wire_type),
                ),
            },
    {
        match wire_type {
            WireType::Varint => {
                let v = self.read_raw_varint64()?;
                Ok(UnknownValue::Varint(v))
            },
            WireType::Fixed32 => {
                let v = self.read_raw_little_endian32()?;
                Ok(UnknownValue::Fixed32(v))
            },
            WireType::Fixed64 => {
                let v = self.read_raw_little_endian64()?;
                Ok(UnknownValue::Fixed64(v))
            },
            WireType::LengthDelimited => {
                let v = self.read_bytes()?;
                Ok(UnknownValue::LengthDelimited(v))
            },
            _ => Err(ProtobufError::UnmatchedGroup),
        }
    }

    /// Reads a `int64` value.
    pub fn read_int64(&mut self) -> (r: Result<i64, ProtobufError>)
        requires
            old(self).wf(),
        ensures
            match varint_read(old(self).remaining()) {
                Some((v, k)) => r == Ok::<i64, ProtobufError>(u64_to_i64(v)) && Self::advanced(old(self), final(self), k),
                None => r is Err && *final(self) == *old(self),
            },
    {
        let v = self.read_raw_varint64()?;
        Ok(u64_to_i64_exec(v))
    }

    /// Reads a `int32` value.
    pub fn read_int32(&mut self) -> (r: Result<i32, ProtobufError>)
        requires
            old(self).wf(),
        ensures
            match varint_read(old(self).remaining()) {
                Some((v, k)) => r == Ok::<i32, ProtobufError>(u32_to_i32((v % 0x1_0000_0000) as u32)) && Self::advanced(old(self), final(self), k),
                None => r is Err && *final(self) == *old(self),
            },
    {
        let v = self.read_raw_varint64()?;
        Ok(u32_to_i32_exec((v % 0x1_0000_0000) as u32))
    }

    /// Reads a `uint64` value.
    pub fn read_uint64(&mut self) -> (r: Result<u64, ProtobufError>)
        requires
            old(self).wf(),
        ensures
            match varint_read(old(self).remaining()) {
                Some((v, k)) => r == Ok::<u64, ProtobufError>(v) && Self::advanced(old(self), final(self), k),
                None => r is Err && *final(self) == *old(self),
            },
    {
        let v = self.read_raw_varint64()?;
        Ok(v)
    }

    /// Reads a `uint32` value.
    pub fn read_uint32(&mut self) -> (r: Result<u32, ProtobufError>)
        requires
            old(self).wf(),
        ensures
            match varint_read(old(self).remaining()) {
                Some((v, k)) => r == Ok::<u32, ProtobufError>((v % 0x1_0000_0000) as u32) && Self::advanced(old(self), final(self), k),
                None => r is Err && *final(self) == *old(self),
            },
    {
        let v = self.read_raw_varint64()?;
        Ok((v % 0x1_0000_0000) as u32)
    }

    /// Reads a `sint64` value.
    pub fn read_sint64(&mut self) -> (r: Result<i64, ProtobufError>)
        requires
            old(self).wf(),
        ensures
            match varint_read(old(self).remaining()) {
                Some((v, k)) => r == Ok::<i64, ProtobufError>(unzigzag(v as nat) as i64) && Self::advanced(old(self), final(self), k),
                None => r is Err && *final(self) == *old(self),
            },
    {
        let v = self.read_raw_varint64()?;
        Ok(decode_zig_zag_64(v))
    }

    /// Reads a `sint32` value.
    pub fn read_sint32(&mut self) -> (r: Result<i32, ProtobufError>)
        requires
            old(self).wf(),
        ensures
            match varint_read(old(self).remaining()) {
                Some((v, k)) => r == Ok::<i32, ProtobufError>(unzigzag((v % 0x1_0000_0000) as nat) as i32) && Self::advanced(old(self), final(self), k),
                None => r is Err && *final(self) == *old(self),
            },
    {
        let v = self.read_raw_varint64()?;
        Ok(decode_zig_zag_32((v % 0x1_0000_0000) as u32))
    }

    /// Reads a `bool` value.
    pub fn read_bool(&mut self) -> (r: Result<bool, ProtobufError>)
        requires
            old(self).wf(),
        ensures
            match varint_read(old(self).remaining()) {
                Some((v, k)) => r == Ok::<bool, ProtobufError>(v != 0) && Self::advanced(old(self), final(self), k),
                None => r is Err && *final(self) == *old(self),
            },
    {
        let v = self.read_raw_varint64()?;
        Ok(v != 0)
    }

    /// Reads a `enum` value.
    pub fn read_enum(&mut self) -> (r: Result<i32, ProtobufError>)
        requires
            old(self).wf(),
        ensures
            match varint_read(old(self).remaining()) {
                Some((v, k)) => r == Ok::<i32, ProtobufError>(u32_to_i32((v % 0x1_0000_0000) as u32)) && Self::advanced(old(self), final(self), k),
                None => r is Err && *final(self) == *old(self),
            },
    {
        let v = self.read_raw_varint64()?;
        Ok(u32_to_i32_exec((v % 0x1_0000_0000) as u32))
    }

    /// Reads a `fixed32` value.
    pub fn read_fixed32(&mut self) -> (r: Result<u32, ProtobufError>)
        requires
            old(self).wf(),
        ensures
            old(self).remaining().len() >= 4 ==> {
                let v = le32_value(old(self).remaining());
                r == Ok::<u32, ProtobufError>(v) && Self::advanced(old(self), final(self), 4)
            },
            old(self).remaining().len() < 4 ==> r == Err::<u32, ProtobufError>(ProtobufError::Truncated)
                && *final(self) == *old(self),
    {
        let v = self.read_raw_little_endian32()?;
        Ok(v)
    }

    /// Reads a `fixed64` value.
    pub fn read_fixed64(&mut self) -> (r: Result<u64, ProtobufError>)
        requires
            old(self).wf(),
        ensures
            old(self).remaining().len() >= 8 ==> {
                let v = le64_value(old(self).remaining());
                r == Ok::<u64, ProtobufError>(v) && Self::advanced(old(self), final(self), 8)
            },
            old(self).remaining().len() < 8 ==> r == Err::<u64, ProtobufError>(ProtobufError::Truncated)
                && *final(self) == *old(self),
    {
        let v = self.read_raw_little_endian64()?;
        Ok(v)
    }

    /// Reads a `sfixed32` value.
    pub fn read_sfixed32(&mut self) -> (r: Result<i32, ProtobufError>)
        requires
            old(self).wf(),
        ensures
            old(self).remaining().len() >= 4 ==> {
                let v = le32_value(old(self).remaining());
                r == Ok::<i32, ProtobufError>(u32_to_i32(v)) && Self::advanced(old(self), final(self), 4)
            },
            old(self).remaining().len() < 4 ==> r == Err::<i32, ProtobufError>(ProtobufError::Truncated)
                && *final(self) == *old(self),
    {
        let v = self.read_raw_little_endian32()?;
        Ok(u32_to_i32_exec(v))
    }

    /// Reads a `sfixed64` value.
    pub fn read_sfixed64(&mut self) -> (r: Result<i64, ProtobufError>)
        requires
            old(self).wf(),
        ensures
            old(self).remaining().len() >= 8 ==> {
                let v = le64_value(old(self).remaining());
                r == Ok::<i64, ProtobufError>(u64_to_i64(v)) && Self::advanced(old(self), final(self), 8)
            },
            old(self).remaining().len() < 8 ==> r == Err::<i64, ProtobufError>(ProtobufError::Truncated)
                && *final(self) == *old(self),
    {
        let v = self.read_raw_little_endian64()?;
        Ok(u64_to_i64_exec(v))
    }

    /// Narrows the frame to the next `len` bytes; returns the frame end to
    /// restore with `pop_limit`.
    pub fn push_limit(&mut self, len: u64) -> (r: Result<usize, ProtobufError>)
        requires
            old(self).wf(),
        ensures
            len <= old(self).remaining().len() ==> {
                &&& r == Ok::<usize, ProtobufError>(old(self).frame_end() as usize)
                &&& final(self).wf()
                &&& final(self).data() == old(self).data()
                &&& final(self).position() == old(self).position()
                &&& final(self).frame_end() == old(self).position() + len
                &&& final(self).depth() == old(self).depth()
                &&& final(self).depth_limit() == old(self).depth_limit()
            },
            len > old(self).remaining().len() ==> r == Err::<usize, ProtobufError>(
                ProtobufError::Truncated,
            ) && *final(self) == *old(self),
    {
        if len > (self.limit - self.pos) as u64 {
            return Err(ProtobufError::Truncated);
        }
        let old_limit = self.limit;
        self.limit = self.pos + len as usize;
        Ok(old_limit)
    }

    /// Restores a frame end returned by `push_limit`.
    pub fn pop_limit(&mut self, old_limit: usize)
        requires
            old(self).wf(),
            old(self).frame_end() <= old_limit <= old(self).data().len(),
        ensures
            final(self).wf(),
            final(self).data() == old(self).data(),
            final(self).position() == old(self).position(),
            final(self).frame_end() == old_limit,
            final(self).depth() == old(self).depth(),
            final(self).depth_limit() == old(self).depth_limit(),
    {
        self.limit = old_limit;
    }

    /// Reads the values of a repeated `uint64` field whose tag had wire type
    /// `wire_type`, packed or not, appending them to `target`.
    pub fn read_repeated_uint64_into(&mut self, wire_type: WireType, target: &mut Vec<u64>) -> (r:
        Result<(), ProtobufError>)
        requires
            old(self).wf(),
        ensures
            final(self).wf(),
            match repeated_varints_read(old(self).remaining(), wire_type) {
                Some((vs, k)) => r is Ok && final(target)@ == old(target)@ + vs && Self::advanced(
                    old(self),
                    final(self),
                    k,
                ),
                None => r is Err,
            },
    {
        match wire_type {
            WireType::Varint => {
                let v = self.read_raw_varint64()?;
                target.push(v);
                assert(target@ =~= old(target)@ + seq![v]);
                Ok(())
            },
            WireType::LengthDelimited => {
                let ghost s = self.remaining();
                let len = self.read_raw_varint64()?;
                let ghost after_len = *self;
                let old_limit = self.push_limit(len)?;
                let ghost payload = self.remaining();
                proof {
                    let e = varint_end(s).unwrap();
                    assert(payload =~= s.subrange((e + 1) as int, (e + 1 + len) as int));
                    assert(raw_value_read(s, WireType::LengthDelimited) == Some(
                        (
                            RawValue::LengthDelimited(payload),
                            (after_len.position() - old(self).position() + len) as nat,
                        ),
                    ));
                }
                let ghost mut acc: Seq<u64> = Seq::empty();
                while !self.eof()
                    invariant
                        self.wf(),
                        self.data() == after_len.data(),
                        self.depth() == after_len.depth(),
                        self.depth_limit() == after_len.depth_limit(),
                        self.frame_end() == after_len.position() + len,
                        old_limit == after_len.frame_end(),
                        after_len.wf(),
                        after_len.same_frame(old(self)),
                        wire_type == WireType::LengthDelimited,
                        after_len.position() >= old(self).position(),
                        s == old(self).remaining(),
                        raw_value_read(s, WireType::LengthDelimited) == Some(
                            (
                                RawValue::LengthDelimited(payload),
                                (after_len.position() - old(self).position() + len) as nat,
                            ),
                        ),
                        self.frame_end() <= after_len.frame_end(),
                        target@ == old(target)@ + acc,
                        varints_parse(payload) is Some <==> varints_parse(self.remaining()) is Some,
                        varints_parse(self.remaining()) is Some ==> varints_parse(payload).unwrap()
                            == acc + varints_parse(self.remaining()).unwrap(),
                    decreases self.remaining().len(),
                {
                    let ghost rem = self.remaining();
                    proof {
                        lemma_varints_parse_step(rem);
                    }
                    let v = match self.read_raw_varint64() {
                        Ok(v) => v,
                        Err(e) => {
                            assert(varints_parse(rem) is None);
                            return Err(e);
                        },
                    };
                    proof {
                        let k = varint_read(rem).unwrap().1;
                        assert(self.remaining() =~= rem.skip(k as int));
                    }
                    target.push(v);
                    proof {
                        if varints_parse(self.remaining()) is Some {
                            assert(acc.push(v) + varints_parse(self.remaining()).unwrap() =~= acc + (
                            seq![v] + varints_parse(self.remaining()).unwrap()));
                        }
                        acc = acc.push(v);
                        assert(target@ =~= old(target)@ + acc);
                    }
                }
                proof {
                    lemma_varints_parse_step(self.remaining());
                    assert(acc + Seq::<u64>::empty() =~= acc);
                }
                self.pop_limit(old_limit);
                Ok(())
            },
            _ => Err(ProtobufError::UnmatchedGroup),
        }
    }

    /// Passes over the rest of a group opened with `field_number`, through
    /// its matching end-group tag; nested groups must close in order.
    pub fn skip_group(&mut self, field_number: u32) -> (r: Result<(), ProtobufError>)
        requires
            old(self).wf(),
        ensures
            final(self).wf(),
            final(self).same_frame(old(self)),
            match group_skip_scan(old(self).remaining(), seq![field_number]) {
                Some(j) => r is Ok && Self::advanced(old(self), final(self), j),
                None => r == Err::<(), ProtobufError>(
                    group_skip_error(old(self).remaining(), seq![field_number]),
                ),
            },
    {
        let ghost s0 = self.remaining();
        let mut stack: Vec<u32> = Vec::new();
        stack.push(field_number);
        let ghost mut used: nat = 0;
        proof {
            assert(stack@ =~= seq![field_number]);
        }
        while stack.len() > 0
            invariant
                self.wf(),
                self.same_frame(old(self)),
                s0 == old(self).remaining(),
                self.position() == old(self).position() + used,
                group_skip_scan(s0, seq![field_number]) == match group_skip_scan(
                    self.remaining(),
                    stack@,
                ) {
                    Some(m) => Some(used + m),
                    None => None,
                },
                stack@.len() > 0 ==> (group_skip_scan(self.remaining(), stack@) is None
                    ==> group_skip_error(s0, seq![field_number]) == group_skip_error(
                    self.remaining(),
                    stack@,
                )),
            decreases self.remaining().len(),
        {
            let ghost rem = self.remaining();
            proof {
                lemma_group_skip_step(rem, stack@);
                lemma_group_skip_error_step(rem, stack@);
                lemma_varint_end_bound(rem, 0);
            }
            let t = match self.read_tag() {
                Ok(t) => t,
                Err(e) => {
                    return Err(e);
                },
            };
            let ghost k = tag_read(rem).unwrap().1;
            proof {
                assert(self.remaining() =~= rem.skip(k as int));
            }
            if t.wire_type == WireType::EndGroup {
                let top = stack[stack.len() - 1];
                if t.field_number != top {
                    return Err(ProtobufError::UnmatchedGroup);
                }
                let ghost before = stack@;
                stack.pop();
                proof {
                    assert(stack@ == before.drop_last());
                    used = used + k;
                }
            } else if t.wire_type == WireType::StartGroup {
                stack.push(t.field_number);
                proof {
                    used = used + k;
                }
            } else {
                let ghost mid = self.remaining();
                let _ = match self.read_raw_value(t.wire_type) {
                    Ok(v) => v,
                    Err(e) => {
                        return Err(e);
                    },
                };
                proof {
                    let j = raw_value_read(mid, t.wire_type).unwrap().1;
                    assert(self.remaining() =~= rem.skip((k + j) as int));
                    used = used + k + j;
                }
            }
        }
        proof {
            reveal(group_skip_scan);
            assert(stack@ =~= Seq::<u32>::empty());
        }
        Ok(())
    }

    /// Reads one item: a field, or a group passed over whole (`None`).
    pub fn read_field(&mut self) -> (r: Result<Option<(u32, UnknownValue)>, ProtobufError>)
        requires
            old(self).wf(),
        ensures
            final(self).wf(),
            final(self).same_frame(old(self)),
            match field_read(old(self).remaining()) {
                Some((o, k)) => r matches Ok(x) && Self::advanced(old(self), final(self), k) && match o {
                    Some(rec) => x matches Some(p) && p.0 == rec.0 && p.1@ == rec.1 && valid_field_number(
                        rec.0 as nat,
                    ),
                    None => x is None,
                },
                None => r == Err::<Option<(u32, UnknownValue)>, ProtobufError>(
                    field_error(old(self).remaining()),
                ),
            },
    {
        let ghost s = self.remaining();
        let t = self.read_tag()?;
        let ghost k = tag_read(s).unwrap().1;
        proof {
            assert(self.remaining() =~= s.skip(k as int));
        }
        if t.wire_type == WireType::StartGroup {
            self.skip_group(t.field_number)?;
            return Ok(None);
        }
        let v = self.read_raw_value(t.wire_type)?;
        Ok(Some((t.field_number, v)))
    }

    /// Reads every field up to the end of the current frame into `fields`;
    /// groups are passed over.
    pub fn read_unknown_fields(&mut self, fields: &mut UnknownFields) -> (r: Result<(), ProtobufError>)
        requires
            old(self).wf(),
        ensures
            final(self).wf(),
            final(self).same_frame(old(self)),
            match records_parse(old(self).remaining()) {
                Some(rs) => r is Ok && final(fields)@ == old(fields)@ + rs
                    && final(self).position() == old(self).frame_end(),
                None => r == Err::<(), ProtobufError>(records_error(old(self).remaining())),
            },
    {
        let ghost s0 = self.remaining();
        let ghost mut acc: Seq<(u32, RawValue)> = Seq::empty();
        proof {
            assert(fields@ =~= old(fields)@ + acc);
        }
        while !self.eof()
            invariant
                self.wf(),
                self.same_frame(old(self)),
                s0 == old(self).remaining(),
                fields@ == old(fields)@ + acc,
                records_parse(s0) is Some <==> records_parse(self.remaining()) is Some,
                records_parse(self.remaining()) is Some ==> records_parse(s0).unwrap() == acc
                    + records_parse(self.remaining()).unwrap(),
                records_parse(self.remaining()) is None ==> records_error(s0) == records_error(
                    self.remaining(),
                ),
            decreases self.remaining().len(),
        {
            let ghost rem = self.remaining();
            proof {
                lemma_records_parse_step(rem);
                lemma_records_error_step(rem);
            }
            let item = match self.read_field() {
                Ok(item) => item,
                Err(e) => {
                    assert(records_parse(rem) is None);
                    return Err(e);
                },
            };
            proof {
                let k = field_read(rem).unwrap().1;
                assert(self.remaining() =~= rem.skip(k as int));
            }
            match item {
                Some(rec) => {
                    fields.add_value(rec.0, rec.1);
                    proof {
                        let rv = field_read(rem).unwrap().0.unwrap();
                        if records_parse(self.remaining()) is Some {
                            assert(acc.push(rv) + records_parse(self.remaining()).unwrap() =~= acc + (
                            seq![rv] + records_parse(self.remaining()).unwrap()));
                        }
                        acc = acc.push(rv);
                    }
                },
                None => {},
            }
        }
        proof {
            lemma_records_parse_empty(self.remaining());
            assert(acc + Seq::<(u32, RawValue)>::empty() =~= acc);
        }
        Ok(())
    }
}

} // verus!
