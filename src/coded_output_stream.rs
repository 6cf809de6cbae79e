//! Buffered writer of the wire format.
use vstd::prelude::*;
use vstd::string::StringSliceAdditionalSpecFns;
use crate::enums::{Enum, EnumOrUnknown};
use crate::error::ProtobufError;
use crate::message::Message;
use crate::unknown::{
    lemma_records_enc_push, raw_value_enc, records_enc, records_wf, UnknownFields, UnknownValue,
};
use crate::varint::{
    compute_raw_varint64_size, encode_varint32, encode_varint64, encode_zig_zag_32,
    encode_zig_zag_64, i64_bits, i64_to_bits, lemma_varint_enc, varint_enc, zigzag,
};
use crate::wire_format::{
    le32_bytes, le32_enc, le64_bytes, le64_enc, tag_bytes, tag_enc, valid_field_number, WireType,
};

verus! {

/// Initial size of the buffer of a stream that feeds a writer.
pub const OUTPUT_STREAM_BUFFER_SIZE: usize = 8192;

/// Two's complement bits of a signed 32-bit value, read as unsigned.
pub open spec fn i32_bits(v: i32) -> nat {
    if v >= 0 {
        v as nat
    } else {
        (v + 0x1_0000_0000) as nat
    }
}

/// Two's complement bits of a signed 32-bit value, read as unsigned.
pub fn i32_to_bits(v: i32) -> (r: u32)
    ensures
        r as nat == i32_bits(v),
{
    if v >= 0 {
        v as u32
    } else {
        let m: u32 = (-(v + 1)) as u32;
        0xffff_ffff - m
    }
}

/// Bytes of an `int32` or enum value: its sign-extended 64-bit form as a varint.
pub open spec fn int32_enc(v: i32) -> Seq<u8> {
    varint_enc(i64_bits(v as i64))
}

/// Bytes of an `int64` value.
pub open spec fn int64_enc(v: i64) -> Seq<u8> {
    varint_enc(i64_bits(v))
}

/// Bytes of a `uint32` value.
pub open spec fn uint32_enc(v: u32) -> Seq<u8> {
    varint_enc(v as nat)
}

/// Bytes of a `uint64` value.
pub open spec fn uint64_enc(v: u64) -> Seq<u8> {
    varint_enc(v as nat)
}

/// Bytes of a `sint32` value.
pub open spec fn sint32_enc(v: i32) -> Seq<u8> {
    varint_enc(zigzag(v as int))
}

/// Bytes of a `sint64` value.
pub open spec fn sint64_enc(v: i64) -> Seq<u8> {
    varint_enc(zigzag(v as int))
}

/// Bytes of a `sfixed32` value.
pub open spec fn sfixed32_enc(v: i32) -> Seq<u8> {
    le32_enc(i32_bits(v) as u32)
}

/// Bytes of a `sfixed64` value.
pub open spec fn sfixed64_enc(v: i64) -> Seq<u8> {
    le64_enc(i64_bits(v) as u64)
}

/// Bytes of a `bool` value.
pub open spec fn bool_enc(v: bool) -> Seq<u8> {
    varint_enc(if v { 1 } else { 0 })
}

/// Bytes of a length-delimited payload: its length as a varint, then the payload.
pub open spec fn length_delimited_enc(b: Seq<u8>) -> Seq<u8> {
    varint_enc(b.len()) + b
}

/// Concatenated encodings of a sequence of values, one after another.
pub open spec fn packed_enc<T>(vs: Seq<T>, f: spec_fn(T) -> Seq<u8>) -> Seq<u8>
    decreases vs.len(),
{
    if vs.len() == 0 {
        Seq::empty()
    } else {
        packed_enc(vs.drop_last(), f) + f(vs.last())
    }
}

/// A packed repeated field: nothing for no values, else one length-delimited
/// field holding the values' encodings back to back.
pub open spec fn packed_field_enc<T>(n: nat, vs: Seq<T>, f: spec_fn(T) -> Seq<u8>) -> Seq<u8> {
    if vs.len() == 0 {
        Seq::empty()
    } else {
        tag_enc(n, WireType::LengthDelimited) + length_delimited_enc(packed_enc(vs, f))
    }
}

/// Where the bytes of a stream go.
#[derive(Debug, Clone, Copy, PartialEq, Eq, Structural)]
pub enum OutputTarget {
    /// Buffered for a writer outside the library; `flush` hands the bytes out.
    Write,
    /// Appended to a growable vector.
    Vec,
    /// Written into a fixed-size byte buffer.
    Bytes,
}

/// Buffered writer of protobuf values.
#[derive(Debug)]
pub struct CodedOutputStream {
    target: OutputTarget,
    /// The vector or byte buffer written into, or the bytes pending for a writer.
    buffer: Vec<u8>,
    /// Number of meaningful bytes at the front of `buffer`.
    pos: usize,
    /// Length of the vector before this stream wrote to it.
    start: usize,
    /// Bytes already handed out by `flush`.
    flushed: u64,
}

impl CodedOutputStream {
    pub closed spec fn wf(&self) -> bool {
        &&& self.pos <= self.buffer@.len()
        &&& self.start <= self.pos
        &&& self.target != OutputTarget::Bytes ==> self.pos == self.buffer@.len()
        &&& self.target != OutputTarget::Vec ==> self.start == 0
        &&& self.target != OutputTarget::Write ==> self.flushed == 0
    }

    /// Where the stream writes.
    pub closed spec fn kind(&self) -> OutputTarget {
        self.target
    }

    /// The bytes the stream holds: the vector, the written part of the fixed
    /// buffer, or what is pending for the writer.
    pub closed spec fn held(&self) -> Seq<u8> {
        self.buffer@.take(self.pos as int)
    }

    /// The whole underlying buffer, including the unwritten tail of a fixed buffer.
    pub closed spec fn contents(&self) -> Seq<u8> {
        self.buffer@
    }

    /// Where this stream's own output starts in `held`.
    pub closed spec fn start_pos(&self) -> nat {
        self.start as nat
    }

    /// Bytes already handed out to the writer.
    pub closed spec fn flushed_count(&self) -> nat {
        self.flushed as nat
    }

    /// There is room for `n` more bytes.
    pub open spec fn room_for(&self, n: nat) -> bool {
        self.kind() != OutputTarget::Bytes || self.held().len() + n <= self.contents().len()
    }

    /// Same target and bookkeeping, whatever the bytes.
    pub open spec fn same_setup(&self, other: &Self) -> bool {
        &&& self.kind() == other.kind()
        &&& self.start_pos() == other.start_pos()
        &&& self.flushed_count() == other.flushed_count()
        &&& self.contents().len() == other.contents().len() || self.kind() != OutputTarget::Bytes
    }

    /// `new` is `old` after an attempt to write `bytes` that returned `r`: where
    /// there is room, the bytes were appended and `r` is `Ok`; else nothing
    /// changed and `r` is `BufferTooSmall`.
    pub open spec fn wrote(
        old: &Self,
        new: &Self,
        bytes: Seq<u8>,
        r: Result<(), ProtobufError>,
    ) -> bool {
        &&& new.wf()
        &&& new.same_setup(old)
        &&& if old.room_for(bytes.len()) {
            &&& r is Ok
            &&& new.held() == old.held() + bytes
            &&& new.kind() == OutputTarget::Bytes ==> new.contents() == new.held() + old.contents().skip(
                new.held().len() as int,
            )
        } else {
            &&& r == Err::<(), ProtobufError>(ProtobufError::BufferTooSmall)
            &&& new.held() == old.held()
            &&& new.contents() == old.contents()
        }
    }

    /// A stream that buffers bytes for a writer: `flush` hands them out.
    pub fn new() -> (r: CodedOutputStream)
        ensures
            r.wf(),
            r.kind() == OutputTarget::Write,
            r.held() == Seq::<u8>::empty(),
            r.flushed_count() == 0,
            r.start_pos() == 0,
    {
        let buffer: Vec<u8> = Vec::with_capacity(OUTPUT_STREAM_BUFFER_SIZE);
        CodedOutputStream { target: OutputTarget::Write, buffer, pos: 0, start: 0, flushed: 0 }
    }

    /// A stream that writes into the fixed buffer `bytes`, from its start;
    /// writing past its end fails.
    pub fn bytes(bytes: Vec<u8>) -> (r: CodedOutputStream)
        ensures
            r.wf(),
            r.kind() == OutputTarget::Bytes,
            r.held() == Seq::<u8>::empty(),
            r.contents() == bytes@,
            r.flushed_count() == 0,
            r.start_pos() == 0,
    {
        CodedOutputStream { target: OutputTarget::Bytes, buffer: bytes, pos: 0, start: 0, flushed: 0 }
    }

    /// A stream that appends to `vec`.
    pub fn vec(vec: Vec<u8>) -> (r: CodedOutputStream)
        ensures
            r.wf(),
            r.kind() == OutputTarget::Vec,
            r.held() == vec@,
            r.start_pos() == vec@.len(),
            r.flushed_count() == 0,
    {
        let n = vec.len();
        CodedOutputStream { target: OutputTarget::Vec, buffer: vec, pos: n, start: n, flushed: 0 }
    }

    /// The underlying vector or fixed buffer, or the bytes not yet flushed.
    pub fn into_inner(self) -> (r: Vec<u8>)
        requires
            self.wf(),
        ensures
            r@ == self.contents(),
            self.kind() != OutputTarget::Bytes ==> r@ == self.held(),
    {
        self.buffer
    }

    /// Total number of bytes written through this stream, saturating at `u64::MAX`.
    pub fn total_bytes_written(&self) -> (r: u64)
        requires
            self.wf(),
        ensures
            r as nat == if self.flushed_count() + self.held().len() - self.start_pos() > u64::MAX {
                u64::MAX as nat
            } else {
                (self.flushed_count() + self.held().len() - self.start_pos()) as nat
            },
    {
        let own = (self.pos - self.start) as u64;
        self.flushed.saturating_add(own)
    }

    /// Marks the point where a fixed buffer must be filled exactly: only a
    /// fixed buffer has an end, and a caller may reach here only with every
    /// byte of it written.
    pub fn check_eof(&self)
        requires
            self.wf(),
            self.kind() == OutputTarget::Bytes,
            self.held().len() == self.contents().len(),
    {
    }

    /// Hands out the bytes pending for a writer; a vector or fixed buffer keeps
    /// its bytes and gives back nothing.
    pub fn flush(&mut self) -> (r: Vec<u8>)
        requires
            old(self).wf(),
        ensures
            final(self).wf(),
            final(self).kind() == old(self).kind(),
            final(self).start_pos() == old(self).start_pos(),
            old(self).kind() == OutputTarget::Write ==> {
                &&& r@ == old(self).held()
                &&& final(self).held() == Seq::<u8>::empty()
                &&& final(self).flushed_count() == if old(self).flushed_count() + r@.len() > u64::MAX {
                    u64::MAX as nat
                } else {
                    old(self).flushed_count() + r@.len()
                }
            },
            old(self).kind() != OutputTarget::Write ==> {
                &&& r@ == Seq::<u8>::empty()
                &&& *final(self) == *old(self)
            },
    {
        match self.target {
            OutputTarget::Write => {
                let mut out: Vec<u8> = Vec::new();
                out.append(&mut self.buffer);
                self.flushed = self.flushed.saturating_add(out.len() as u64);
                self.pos = 0;
                out
            },
            _ => Vec::new(),
        }
    }

    /// The bytes pending for a writer have reached the buffer size: time to
    /// hand them out with `flush`.
    pub fn needs_flush(&self) -> (r: bool)
        requires
            self.wf(),
        ensures
            r == (self.kind() == OutputTarget::Write && self.held().len() >= OUTPUT_STREAM_BUFFER_SIZE),
    {
        match self.target {
            OutputTarget::Write => self.pos >= OUTPUT_STREAM_BUFFER_SIZE,
            _ => false,
        }
    }

    /// Whether `n` more bytes fit.
    pub fn has_room(&self, n: u64) -> (r: bool)
        requires
            self.wf(),
        ensures
            r == self.room_for(n as nat),
    {
        match self.target {
            OutputTarget::Bytes => n <= (self.buffer.len() - self.pos) as u64,
            _ => true,
        }
    }

    /// Writing nothing succeeds and changes nothing.
    pub proof fn lemma_wrote_nothing(s: &Self)
        requires
            s.wf(),
        ensures
            Self::wrote(s, s, Seq::empty(), Ok(())),
    {
        assert(s.held() + Seq::<u8>::empty() =~= s.held());
        assert(s.contents() =~= s.held() + s.contents().skip(s.held().len() as int));
    }

    /// Two successful writes in a row are one write of both byte runs.
    pub proof fn lemma_wrote_twice(
        a: &Self,
        b: &Self,
        c: &Self,
        x: Seq<u8>,
        y: Seq<u8>,
    )
        requires
            a.wf(),
            a.room_for(x.len() + y.len()),
            Self::wrote(a, b, x, Ok(())),
            Self::wrote(b, c, y, Ok(())),
        ensures
            Self::wrote(a, c, x + y, Ok(())),
    {
        assert(c.held() =~= a.held() + (x + y));
        if a.kind() == OutputTarget::Bytes {
            assert(c.contents() =~= c.held() + a.contents().skip(c.held().len() as int));
        }
    }

    /// Writes a message with its length in front, without a tag. A message
    /// longer than `u32::MAX` bytes is refused.
    pub fn write_message_no_tag<M: Message>(&mut self, msg: &M) -> (r: Result<(), ProtobufError>)
        requires
            old(self).wf(),
            msg.spec_wf(),
        ensures
            msg.spec_encoded().len() > u32::MAX ==> r == Err::<(), ProtobufError>(
                ProtobufError::MessageTooLarge,
            ) && *final(self) == *old(self),
            msg.spec_encoded().len() <= u32::MAX ==> Self::wrote(
                old(self),
                final(self),
                length_delimited_enc(msg.spec_encoded()),
                r,
            ),
    {
        let size = msg.compute_size();
        if size > 0xffff_ffff {
            return Err(ProtobufError::MessageTooLarge);
        }
        let head = encode_varint64(size);
        proof {
            lemma_varint_enc(size as nat);
            crate::varint::lemma_varint_size_max(size as nat);
        }
        if !self.has_room(head.len() as u64 + size) {
            return Err(ProtobufError::BufferTooSmall);
        }
        let ghost s0 = *self;
        let ghost h = head@;
        self.write_vec(head)?;
        let ghost s1 = *self;
        msg.write_to_with_cached_sizes(self)?;
        proof {
            Self::lemma_wrote_twice(&s0, &s1, self, h, msg.spec_encoded());
        }
        Ok(())
    }

    /// Writes a `message` field: its tag, its length, then its fields. A
    /// message longer than `u32::MAX` bytes is refused.
    pub fn write_message<M: Message>(&mut self, field_number: u32, msg: &M) -> (r: Result<(), ProtobufError>)
        requires
            old(self).wf(),
            msg.spec_wf(),
            valid_field_number(field_number as nat),
        ensures
            msg.spec_encoded().len() > u32::MAX ==> r == Err::<(), ProtobufError>(
                ProtobufError::MessageTooLarge,
            ) && *final(self) == *old(self),
            msg.spec_encoded().len() <= u32::MAX ==> Self::wrote(
                old(self),
                final(self),
                tag_enc(field_number as nat, WireType::LengthDelimited) + length_delimited_enc(
                    msg.spec_encoded(),
                ),
                r,
            ),
    {
        let size = msg.compute_size();
        if size > 0xffff_ffff {
            return Err(ProtobufError::MessageTooLarge);
        }
        let tag = tag_bytes(field_number, WireType::LengthDelimited);
        let head = concat(tag, encode_varint64(size));
        proof {
            lemma_varint_enc(size as nat);
            crate::varint::lemma_varint_size_max(size as nat);
            let t = crate::wire_format::tag_value(field_number as nat, WireType::LengthDelimited);
            lemma_varint_enc(t);
            crate::varint::lemma_varint_size_max(t);
        }
        if !self.has_room(head.len() as u64 + size) {
            return Err(ProtobufError::BufferTooSmall);
        }
        let ghost s0 = *self;
        let ghost h = head@;
        self.write_vec(head)?;
        let ghost s1 = *self;
        msg.write_to_with_cached_sizes(self)?;
        proof {
            Self::lemma_wrote_twice(&s0, &s1, self, h, msg.spec_encoded());
            assert(h + msg.spec_encoded() =~= tag_enc(field_number as nat, WireType::LengthDelimited)
                + length_delimited_enc(msg.spec_encoded()));
        }
        Ok(())
    }

    /// Writes raw bytes.
    pub fn write_raw_bytes(&mut self, bytes: &[u8]) -> (r: Result<(), ProtobufError>)
        requires
            old(self).wf(),
        ensures
            Self::wrote(old(self), final(self), bytes@, r),
    {
        let ghost old_buf = self.buffer@;
        let ghost old_pos = self.pos;
        let ghost old_start = self.start;
        let ghost old_flushed = self.flushed;
        let ghost old_target = self.target;
        match self.target {
            OutputTarget::Bytes => {
                if bytes.len() > self.buffer.len() - self.pos {
                    return Err(ProtobufError::BufferTooSmall);
                }
                let mut i: usize = 0;
                while i < bytes.len()
                    invariant
                        self.target == OutputTarget::Bytes,
                        self.start == 0,
                        self.flushed == 0,
                        old_buf.len() <= usize::MAX,
                        i <= bytes@.len(),
                        self.pos == old_pos + i,
                        old_pos + bytes@.len() <= old_buf.len(),
                        self.buffer@.len() == old_buf.len(),
                        self.buffer@ == old_buf.take(old_pos as int) + bytes@.take(i as int)
                            + old_buf.skip(old_pos + i),
                    decreases bytes@.len() - i,
                {
                    let ghost prev = self.buffer@;
                    self.buffer.set(self.pos, bytes[i]);
                    self.pos = self.pos + 1;
                    i = i + 1;
                    assert(self.buffer@ =~= old_buf.take(old_pos as int) + bytes@.take(i as int)
                        + old_buf.skip(old_pos + i));
                }
                assert(bytes@.take(i as int) =~= bytes@);
                assert(self.buffer@.take(self.pos as int) =~= old_buf.take(old_pos as int) + bytes@);
                assert(self.buffer@.skip(self.pos as int) =~= old_buf.skip(self.pos as int));
                Ok(())
            },
            _ => {
                let mut i: usize = 0;
                while i < bytes.len()
                    invariant
                        self.target == old_target,
                        self.target != OutputTarget::Bytes,
                        self.start == old_start,
                        self.flushed == old_flushed,
                        self.start <= old_pos,
                        i <= bytes@.len(),
                        old_pos == old_buf.len(),
                        self.buffer@ == old_buf + bytes@.take(i as int),
                    decreases bytes@.len() - i,
                {
                    self.buffer.push(bytes[i]);
                    i = i + 1;
                    assert(self.buffer@ =~= old_buf + bytes@.take(i as int));
                }
                self.pos = self.buffer.len();
                assert(bytes@.take(i as int) =~= bytes@);
                assert(self.buffer@.take(self.pos as int) =~= self.buffer@);
                assert(old_buf.take(old_pos as int) =~= old_buf);
                Ok(())
            },
        }
    }

    /// Writes the bytes of a vector built by the caller.
    fn write_vec(&mut self, bytes: Vec<u8>) -> (r: Result<(), ProtobufError>)
        requires
            old(self).wf(),
        ensures
            Self::wrote(old(self), final(self), bytes@, r),
    {
        self.write_raw_bytes(bytes.as_slice())
    }

    /// Writes one byte.
    pub fn write_raw_byte(&mut self, byte: u8) -> (r: Result<(), ProtobufError>)
        requires
            old(self).wf(),
        ensures
            Self::wrote(old(self), final(self), seq![byte], r),
    {
        let mut v: Vec<u8> = Vec::new();
        v.push(byte);
        assert(v@ =~= seq![byte]);
        self.write_vec(v)
    }

    /// Writes the tag of field `field_number` with wire type `wire_type`.
    pub fn write_tag(&mut self, field_number: u32, wire_type: WireType) -> (r: Result<(), ProtobufError>)
        requires
            old(self).wf(),
            valid_field_number(field_number as nat),
        ensures
            Self::wrote(old(self), final(self), tag_enc(field_number as nat, wire_type), r),
    {
        self.write_vec(tag_bytes(field_number, wire_type))
    }

    /// Writes a varint.
    pub fn write_raw_varint32(&mut self, value: u32) -> (r: Result<(), ProtobufError>)
        requires
            old(self).wf(),
        ensures
            Self::wrote(old(self), final(self), varint_enc(value as nat), r),
    {
        self.write_vec(encode_varint32(value))
    }

    /// Writes a varint.
    pub fn write_raw_varint64(&mut self, value: u64) -> (r: Result<(), ProtobufError>)
        requires
            old(self).wf(),
        ensures
            Self::wrote(old(self), final(self), varint_enc(value as nat), r),
    {
        self.write_vec(encode_varint64(value))
    }

    /// Writes a 32-bit integer, little endian.
    pub fn write_raw_little_endian32(&mut self, value: u32) -> (r: Result<(), ProtobufError>)
        requires
            old(self).wf(),
        ensures
            Self::wrote(old(self), final(self), le32_enc(value), r),
    {
        self.write_vec(le32_bytes(value))
    }

    /// Writes a 64-bit integer, little endian.
    pub fn write_raw_little_endian64(&mut self, value: u64) -> (r: Result<(), ProtobufError>)
        requires
            old(self).wf(),
        ensures
            Self::wrote(old(self), final(self), le64_enc(value), r),
    {
        self.write_vec(le64_bytes(value))
    }

    /// Writes a `uint64` value without a tag.
    pub fn write_uint64_no_tag(&mut self, value: u64) -> (r: Result<(), ProtobufError>)
        requires
            old(self).wf(),
        ensures
            Self::wrote(old(self), final(self), uint64_enc(value), r),
    {
        self.write_vec(uint64_bytes(value))
    }

    /// Writes a `uint32` value without a tag.
    pub fn write_uint32_no_tag(&mut self, value: u32) -> (r: Result<(), ProtobufError>)
        requires
            old(self).wf(),
        ensures
            Self::wrote(old(self), final(self), uint32_enc(value), r),
    {
        self.write_vec(uint32_bytes(value))
    }

    /// Writes a `int64` value without a tag.
    pub fn write_int64_no_tag(&mut self, value: i64) -> (r: Result<(), ProtobufError>)
        requires
            old(self).wf(),
        ensures
            Self::wrote(old(self), final(self), int64_enc(value), r),
    {
        self.write_vec(int64_bytes(value))
    }

    /// Writes a `int32` value without a tag.
    pub fn write_int32_no_tag(&mut self, value: i32) -> (r: Result<(), ProtobufError>)
        requires
            old(self).wf(),
        ensures
            Self::wrote(old(self), final(self), int32_enc(value), r),
    {
        self.write_vec(int32_bytes(value))
    }

    /// Writes a `sint64` value without a tag.
    pub fn write_sint64_no_tag(&mut self, value: i64) -> (r: Result<(), ProtobufError>)
        requires
            old(self).wf(),
        ensures
            Self::wrote(old(self), final(self), sint64_enc(value), r),
    {
        self.write_vec(sint64_bytes(value))
    }

    /// Writes a `sint32` value without a tag.
    pub fn write_sint32_no_tag(&mut self, value: i32) -> (r: Result<(), ProtobufError>)
        requires
            old(self).wf(),
        ensures
            Self::wrote(old(self), final(self), sint32_enc(value), r),
    {
        self.write_vec(sint32_bytes(value))
    }

    /// Writes a `fixed64` value without a tag.
    pub fn write_fixed64_no_tag(&mut self, value: u64) -> (r: Result<(), ProtobufError>)
        requires
            old(self).wf(),
        ensures
            Self::wrote(old(self), final(self), le64_enc(value), r),
    {
        self.write_vec(fixed64_bytes(value))
    }

    /// Writes a `fixed32` value without a tag.
    pub fn write_fixed32_no_tag(&mut self, value: u32) -> (r: Result<(), ProtobufError>)
        requires
            old(self).wf(),
        ensures
            Self::wrote(old(self), final(self), le32_enc(value), r),
    {
        self.write_vec(fixed32_bytes(value))
    }

    /// Writes a `sfixed64` value without a tag.
    pub fn write_sfixed64_no_tag(&mut self, value: i64) -> (r: Result<(), ProtobufError>)
        requires
            old(self).wf(),
        ensures
            Self::wrote(old(self), final(self), sfixed64_enc(value), r),
    {
        self.write_vec(sfixed64_bytes(value))
    }

    /// Writes a `sfixed32` value without a tag.
    pub fn write_sfixed32_no_tag(&mut self, value: i32) -> (r: Result<(), ProtobufError>)
        requires
            old(self).wf(),
        ensures
            Self::wrote(old(self), final(self), sfixed32_enc(value), r),
    {
        self.write_vec(sfixed32_bytes(value))
    }

    /// Writes a `bool` value without a tag.
    pub fn write_bool_no_tag(&mut self, value: bool) -> (r: Result<(), ProtobufError>)
        requires
            old(self).wf(),
        ensures
            Self::wrote(old(self), final(self), bool_enc(value), r),
    {
        self.write_vec(bool_bytes(value))
    }

    /// Writes a `enum` value without a tag.
    pub fn write_enum_no_tag(&mut self, value: i32) -> (r: Result<(), ProtobufError>)
        requires
            old(self).wf(),
        ensures
            Self::wrote(old(self), final(self), int32_enc(value), r),
    {
        self.write_vec(int32_bytes(value))
    }

    /// Writes a `uint64` field: its tag, then its value.
    pub fn write_uint64(&mut self, field_number: u32, value: u64) -> (r: Result<(), ProtobufError>)
        requires
            old(self).wf(),
            valid_field_number(field_number as nat),
        ensures
            Self::wrote(
                old(self),
                final(self),
                tag_enc(field_number as nat, WireType::Varint) + uint64_enc(value),
                r,
            ),
    {
        self.write_vec(concat(tag_bytes(field_number, WireType::Varint), uint64_bytes(value)))
    }

    /// Writes a `uint32` field: its tag, then its value.
    pub fn write_uint32(&mut self, field_number: u32, value: u32) -> (r: Result<(), ProtobufError>)
        requires
            old(self).wf(),
            valid_field_number(field_number as nat),
        ensures
            Self::wrote(
                old(self),
                final(self),
                tag_enc(field_number as nat, WireType::Varint) + uint32_enc(value),
                r,
            ),
    {
        self.write_vec(concat(tag_bytes(field_number, WireType::Varint), uint32_bytes(value)))
    }

    /// Writes a `int64` field: its tag, then its value.
    pub fn write_int64(&mut self, field_number: u32, value: i64) -> (r: Result<(), ProtobufError>)
        requires
            old(self).wf(),
            valid_field_number(field_number as nat),
        ensures
            Self::wrote(
                old(self),
                final(self),
                tag_enc(field_number as nat, WireType::Varint) + int64_enc(value),
                r,
            ),
    {
        self.write_vec(concat(tag_bytes(field_number, WireType::Varint), int64_bytes(value)))
    }

    /// Writes a `int32` field: its tag, then its value.
    pub fn write_int32(&mut self, field_number: u32, value: i32) -> (r: Result<(), ProtobufError>)
        requires
            old(self).wf(),
            valid_field_number(field_number as nat),
        ensures
            Self::wrote(
                old(self),
                final(self),
                tag_enc(field_number as nat, WireType::Varint) + int32_enc(value),
                r,
            ),
    {
        self.write_vec(concat(tag_bytes(field_number, WireType::Varint), int32_bytes(value)))
    }

    /// Writes a `sint64` field: its tag, then its value.
    pub fn write_sint64(&mut self, field_number: u32, value: i64) -> (r: Result<(), ProtobufError>)
        requires
            old(self).wf(),
            valid_field_number(field_number as nat),
        ensures
            Self::wrote(
                old(self),
                final(self),
                tag_enc(field_number as nat, WireType::Varint) + sint64_enc(value),
                r,
            ),
    {
        self.write_vec(concat(tag_bytes(field_number, WireType::Varint), sint64_bytes(value)))
    }

    /// Writes a `sint32` field: its tag, then its value.
    pub fn write_sint32(&mut self, field_number: u32, value: i32) -> (r: Result<(), ProtobufError>)
        requires
            old(self).wf(),
            valid_field_number(field_number as nat),
        ensures
            Self::wrote(
                old(self),
                final(self),
                tag_enc(field_number as nat, WireType::Varint) + sint32_enc(value),
                r,
            ),
    {
        self.write_vec(concat(tag_bytes(field_number, WireType::Varint), sint32_bytes(value)))
    }

    /// Writes a `fixed64` field: its tag, then its value.
    pub fn write_fixed64(&mut self, field_number: u32, value: u64) -> (r: Result<(), ProtobufError>)
        requires
            old(self).wf(),
            valid_field_number(field_number as nat),
        ensures
            Self::wrote(
                old(self),
                final(self),
                tag_enc(field_number as nat, WireType::Fixed64) + le64_enc(value),
                r,
            ),
    {
        self.write_vec(concat(tag_bytes(field_number, WireType::Fixed64), fixed64_bytes(value)))
    }

    /// Writes a `fixed32` field: its tag, then its value.
    pub fn write_fixed32(&mut self, field_number: u32, value: u32) -> (r: Result<(), ProtobufError>)
        requires
            old(self).wf(),
            valid_field_number(field_number as nat),
        ensures
            Self::wrote(
                old(self),
                final(self),
                tag_enc(field_number as nat, WireType::Fixed32) + le32_enc(value),
                r,
            ),
    {
        self.write_vec(concat(tag_bytes(field_number, WireType::Fixed32), fixed32_bytes(value)))
    }

    /// Writes a `sfixed64` field: its tag, then its value.
    pub fn write_sfixed64(&mut self, field_number: u32, value: i64) -> (r: Result<(), ProtobufError>)
        requires
            old(self).wf(),
            valid_field_number(field_number as nat),
        ensures
            Self::wrote(
                old(self),
                final(self),
                tag_enc(field_number as nat, WireType::Fixed64) + sfixed64_enc(value),
                r,
            ),
    {
        self.write_vec(concat(tag_bytes(field_number, WireType::Fixed64), sfixed64_bytes(value)))
    }

    /// Writes a `sfixed32` field: its tag, then its value.
    pub fn write_sfixed32(&mut self, field_number: u32, value: i32) -> (r: Result<(), ProtobufError>)
        requires
            old(self).wf(),
            valid_field_number(field_number as nat),
        ensures
            Self::wrote(
                old(self),
                final(self),
                tag_enc(field_number as nat, WireType::Fixed32) + sfixed32_enc(value),
                r,
            ),
    {
        self.write_vec(concat(tag_bytes(field_number, WireType::Fixed32), sfixed32_bytes(value)))
    }

    /// Writes a `bool` field: its tag, then its value.
    pub fn write_bool(&mut self, field_number: u32, value: bool) -> (r: Result<(), ProtobufError>)
        requires
            old(self).wf(),
            valid_field_number(field_number as nat),
        ensures
            Self::wrote(
                old(self),
                final(self),
                tag_enc(field_number as nat, WireType::Varint) + bool_enc(value),
                r,
            ),
    {
        self.write_vec(concat(tag_bytes(field_number, WireType::Varint), bool_bytes(value)))
    }

    /// Writes a `enum` field: its tag, then its value.
    pub fn write_enum(&mut self, field_number: u32, value: i32) -> (r: Result<(), ProtobufError>)
        requires
            old(self).wf(),
            valid_field_number(field_number as nat),
        ensures
            Self::wrote(
                old(self),
                final(self),
                tag_enc(field_number as nat, WireType::Varint) + int32_enc(value),
                r,
            ),
    {
        self.write_vec(concat(tag_bytes(field_number, WireType::Varint), int32_bytes(value)))
    }

    /// Writes `uint64` values back to back, without tag or length.
    pub fn write_repeated_packed_uint64_no_tag(&mut self, values: &[u64]) -> (r: Result<(), ProtobufError>)
        requires
            old(self).wf(),
        ensures
            Self::wrote(old(self), final(self), packed_enc(values@, |v: u64| uint64_enc(v)), r),
    {
        self.write_vec(packed_uint64_data(values))
    }

    /// Writes a packed repeated `uint64` field; no values write nothing.
    pub fn write_repeated_packed_uint64(&mut self, field_number: u32, values: &[u64]) -> (r: Result<(), ProtobufError>)
        requires
            old(self).wf(),
            valid_field_number(field_number as nat),
        ensures
            Self::wrote(
                old(self),
                final(self),
                packed_field_enc(field_number as nat, values@, |v: u64| uint64_enc(v)),
                r,
            ),
    {
        if values.len() == 0 {
            proof {
                Self::lemma_wrote_nothing(self);
            }
            return Ok(());
        }
        let data = packed_uint64_data(values);
        self.write_vec(length_delimited_field(field_number, data))
    }

    /// Writes `uint32` values back to back, without tag or length.
    pub fn write_repeated_packed_uint32_no_tag(&mut self, values: &[u32]) -> (r: Result<(), ProtobufError>)
        requires
            old(self).wf(),
        ensures
            Self::wrote(old(self), final(self), packed_enc(values@, |v: u32| uint32_enc(v)), r),
    {
        self.write_vec(packed_uint32_data(values))
    }

    /// Writes a packed repeated `uint32` field; no values write nothing.
    pub fn write_repeated_packed_uint32(&mut self, field_number: u32, values: &[u32]) -> (r: Result<(), ProtobufError>)
        requires
            old(self).wf(),
            valid_field_number(field_number as nat),
        ensures
            Self::wrote(
                old(self),
                final(self),
                packed_field_enc(field_number as nat, values@, |v: u32| uint32_enc(v)),
                r,
            ),
    {
        if values.len() == 0 {
            proof {
                Self::lemma_wrote_nothing(self);
            }
            return Ok(());
        }
        let data = packed_uint32_data(values);
        self.write_vec(length_delimited_field(field_number, data))
    }

    /// Writes `int64` values back to back, without tag or length.
    pub fn write_repeated_packed_int64_no_tag(&mut self, values: &[i64]) -> (r: Result<(), ProtobufError>)
        requires
            old(self).wf(),
        ensures
            Self::wrote(old(self), final(self), packed_enc(values@, |v: i64| int64_enc(v)), r),
    {
        self.write_vec(packed_int64_data(values))
    }

    /// Writes a packed repeated `int64` field; no values write nothing.
    pub fn write_repeated_packed_int64(&mut self, field_number: u32, values: &[i64]) -> (r: Result<(), ProtobufError>)
        requires
            old(self).wf(),
            valid_field_number(field_number as nat),
        ensures
            Self::wrote(
                old(self),
                final(self),
                packed_field_enc(field_number as nat, values@, |v: i64| int64_enc(v)),
                r,
            ),
    {
        if values.len() == 0 {
            proof {
                Self::lemma_wrote_nothing(self);
            }
            return Ok(());
        }
        let data = packed_int64_data(values);
        self.write_vec(length_delimited_field(field_number, data))
    }

    /// Writes `int32` values back to back, without tag or length.
    pub fn write_repeated_packed_int32_no_tag(&mut self, values: &[i32]) -> (r: Result<(), ProtobufError>)
        requires
            old(self).wf(),
        ensures
            Self::wrote(old(self), final(self), packed_enc(values@, |v: i32| int32_enc(v)), r),
    {
        self.write_vec(packed_int32_data(values))
    }

    /// Writes a packed repeated `int32` field; no values write nothing.
    pub fn write_repeated_packed_int32(&mut self, field_number: u32, values: &[i32]) -> (r: Result<(), ProtobufError>)
        requires
            old(self).wf(),
            valid_field_number(field_number as nat),
        ensures
            Self::wrote(
                old(self),
                final(self),
                packed_field_enc(field_number as nat, values@, |v: i32| int32_enc(v)),
                r,
            ),
    {
        if values.len() == 0 {
            proof {
                Self::lemma_wrote_nothing(self);
            }
            return Ok(());
        }
        let data = packed_int32_data(values);
        self.write_vec(length_delimited_field(field_number, data))
    }

    /// Writes `sint64` values back to back, without tag or length.
    pub fn write_repeated_packed_sint64_no_tag(&mut self, values: &[i64]) -> (r: Result<(), ProtobufError>)
        requires
            old(self).wf(),
        ensures
            Self::wrote(old(self), final(self), packed_enc(values@, |v: i64| sint64_enc(v)), r),
    {
        self.write_vec(packed_sint64_data(values))
    }

    /// Writes a packed repeated `sint64` field; no values write nothing.
    pub fn write_repeated_packed_sint64(&mut self, field_number: u32, values: &[i64]) -> (r: Result<(), ProtobufError>)
        requires
            old(self).wf(),
            valid_field_number(field_number as nat),
        ensures
            Self::wrote(
                old(self),
                final(self),
                packed_field_enc(field_number as nat, values@, |v: i64| sint64_enc(v)),
                r,
            ),
    {
        if values.len() == 0 {
            proof {
                Self::lemma_wrote_nothing(self);
            }
            return Ok(());
        }
        let data = packed_sint64_data(values);
        self.write_vec(length_delimited_field(field_number, data))
    }

    /// Writes `sint32` values back to back, without tag or length.
    pub fn write_repeated_packed_sint32_no_tag(&mut self, values: &[i32]) -> (r: Result<(), ProtobufError>)
        requires
            old(self).wf(),
        ensures
            Self::wrote(old(self), final(self), packed_enc(values@, |v: i32| sint32_enc(v)), r),
    {
        self.write_vec(packed_sint32_data(values))
    }

    /// Writes a packed repeated `sint32` field; no values write nothing.
    pub fn write_repeated_packed_sint32(&mut self, field_number: u32, values: &[i32]) -> (r: Result<(), ProtobufError>)
        requires
            old(self).wf(),
            valid_field_number(field_number as nat),
        ensures
            Self::wrote(
                old(self),
                final(self),
                packed_field_enc(field_number as nat, values@, |v: i32| sint32_enc(v)),
                r,
            ),
    {
        if values.len() == 0 {
            proof {
                Self::lemma_wrote_nothing(self);
            }
            return Ok(());
        }
        let data = packed_sint32_data(values);
        self.write_vec(length_delimited_field(field_number, data))
    }

    /// Writes `fixed64` values back to back, without tag or length.
    pub fn write_repeated_packed_fixed64_no_tag(&mut self, values: &[u64]) -> (r: Result<(), ProtobufError>)
        requires
            old(self).wf(),
        ensures
            Self::wrote(old(self), final(self), packed_enc(values@, |v: u64| le64_enc(v)), r),
    {
        self.write_vec(packed_fixed64_data(values))
    }

    /// Writes a packed repeated `fixed64` field; no values write nothing.
    pub fn write_repeated_packed_fixed64(&mut self, field_number: u32, values: &[u64]) -> (r: Result<(), ProtobufError>)
        requires
            old(self).wf(),
            valid_field_number(field_number as nat),
        ensures
            Self::wrote(
                old(self),
                final(self),
                packed_field_enc(field_number as nat, values@, |v: u64| le64_enc(v)),
                r,
            ),
    {
        if values.len() == 0 {
            proof {
                Self::lemma_wrote_nothing(self);
            }
            return Ok(());
        }
        let data = packed_fixed64_data(values);
        self.write_vec(length_delimited_field(field_number, data))
    }

    /// Writes `fixed32` values back to back, without tag or length.
    pub fn write_repeated_packed_fixed32_no_tag(&mut self, values: &[u32]) -> (r: Result<(), ProtobufError>)
        requires
            old(self).wf(),
        ensures
            Self::wrote(old(self), final(self), packed_enc(values@, |v: u32| le32_enc(v)), r),
    {
        self.write_vec(packed_fixed32_data(values))
    }

    /// Writes a packed repeated `fixed32` field; no values write nothing.
    pub fn write_repeated_packed_fixed32(&mut self, field_number: u32, values: &[u32]) -> (r: Result<(), ProtobufError>)
        requires
            old(self).wf(),
            valid_field_number(field_number as nat),
        ensures
            Self::wrote(
                old(self),
                final(self),
                packed_field_enc(field_number as nat, values@, |v: u32| le32_enc(v)),
                r,
            ),
    {
        if values.len() == 0 {
            proof {
                Self::lemma_wrote_nothing(self);
            }
            return Ok(());
        }
        let data = packed_fixed32_data(values);
        self.write_vec(length_delimited_field(field_number, data))
    }

    /// Writes `sfixed64` values back to back, without tag or length.
    pub fn write_repeated_packed_sfixed64_no_tag(&mut self, values: &[i64]) -> (r: Result<(), ProtobufError>)
        requires
            old(self).wf(),
        ensures
            Self::wrote(old(self), final(self), packed_enc(values@, |v: i64| sfixed64_enc(v)), r),
    {
        self.write_vec(packed_sfixed64_data(values))
    }

    /// Writes a packed repeated `sfixed64` field; no values write nothing.
    pub fn write_repeated_packed_sfixed64(&mut self, field_number: u32, values: &[i64]) -> (r: Result<(), ProtobufError>)
        requires
            old(self).wf(),
            valid_field_number(field_number as nat),
        ensures
            Self::wrote(
                old(self),
                final(self),
                packed_field_enc(field_number as nat, values@, |v: i64| sfixed64_enc(v)),
                r,
            ),
    {
        if values.len() == 0 {
            proof {
                Self::lemma_wrote_nothing(self);
            }
            return Ok(());
        }
        let data = packed_sfixed64_data(values);
        self.write_vec(length_delimited_field(field_number, data))
    }

    /// Writes `sfixed32` values back to back, without tag or length.
    pub fn write_repeated_packed_sfixed32_no_tag(&mut self, values: &[i32]) -> (r: Result<(), ProtobufError>)
        requires
            old(self).wf(),
        ensures
            Self::wrote(old(self), final(self), packed_enc(values@, |v: i32| sfixed32_enc(v)), r),
    {
        self.write_vec(packed_sfixed32_data(values))
    }

    /// Writes a packed repeated `sfixed32` field; no values write nothing.
    pub fn write_repeated_packed_sfixed32(&mut self, field_number: u32, values: &[i32]) -> (r: Result<(), ProtobufError>)
        requires
            old(self).wf(),
            valid_field_number(field_number as nat),
        ensures
            Self::wrote(
                old(self),
                final(self),
                packed_field_enc(field_number as nat, values@, |v: i32| sfixed32_enc(v)),
                r,
            ),
    {
        if values.len() == 0 {
            proof {
                Self::lemma_wrote_nothing(self);
            }
            return Ok(());
        }
        let data = packed_sfixed32_data(values);
        self.write_vec(length_delimited_field(field_number, data))
    }

    /// Writes `bool` values back to back, without tag or length.
    pub fn write_repeated_packed_bool_no_tag(&mut self, values: &[bool]) -> (r: Result<(), ProtobufError>)
        requires
            old(self).wf(),
        ensures
            Self::wrote(old(self), final(self), packed_enc(values@, |v: bool| bool_enc(v)), r),
    {
        self.write_vec(packed_bool_data(values))
    }

    /// Writes a packed repeated `bool` field; no values write nothing.
    pub fn write_repeated_packed_bool(&mut self, field_number: u32, values: &[bool]) -> (r: Result<(), ProtobufError>)
        requires
            old(self).wf(),
            valid_field_number(field_number as nat),
        ensures
            Self::wrote(
                old(self),
                final(self),
                packed_field_enc(field_number as nat, values@, |v: bool| bool_enc(v)),
                r,
            ),
    {
        if values.len() == 0 {
            proof {
                Self::lemma_wrote_nothing(self);
            }
            return Ok(());
        }
        let data = packed_bool_data(values);
        self.write_vec(length_delimited_field(field_number, data))
    }

    /// Writes `enum` values back to back, without tag or length.
    pub fn write_repeated_packed_enum_no_tag(&mut self, values: &[i32]) -> (r: Result<(), ProtobufError>)
        requires
            old(self).wf(),
        ensures
            Self::wrote(old(self), final(self), packed_enc(values@, |v: i32| int32_enc(v)), r),
    {
        self.write_vec(packed_int32_data(values))
    }

    /// Writes an enum value's number without a tag.
    pub fn write_enum_obj_no_tag<E: Enum>(&mut self, value: E) -> (r: Result<(), ProtobufError>)
        requires
            old(self).wf(),
        ensures
            Self::wrote(old(self), final(self), int32_enc(value.spec_value()), r),
    {
        self.write_enum_no_tag(value.value())
    }

    /// Writes an enum field's number, declared or not, without a tag.
    pub fn write_enum_or_unknown_no_tag(&mut self, value: EnumOrUnknown) -> (r: Result<(), ProtobufError>)
        requires
            old(self).wf(),
        ensures
            Self::wrote(old(self), final(self), int32_enc(value.spec_value()), r),
    {
        self.write_enum_no_tag(value.value())
    }

    /// Writes an enum field holding a value's number.
    pub fn write_enum_obj<E: Enum>(&mut self, field_number: u32, value: E) -> (r: Result<(), ProtobufError>)
        requires
            old(self).wf(),
            valid_field_number(field_number as nat),
        ensures
            Self::wrote(
                old(self),
                final(self),
                tag_enc(field_number as nat, WireType::Varint) + int32_enc(value.spec_value()),
                r,
            ),
    {
        self.write_enum(field_number, value.value())
    }

    /// Writes an enum field holding a number, declared or not.
    pub fn write_enum_or_unknown(&mut self, field_number: u32, value: EnumOrUnknown) -> (r: Result<(), ProtobufError>)
        requires
            old(self).wf(),
            valid_field_number(field_number as nat),
        ensures
            Self::wrote(
                old(self),
                final(self),
                tag_enc(field_number as nat, WireType::Varint) + int32_enc(value.spec_value()),
                r,
            ),
    {
        self.write_enum(field_number, value.value())
    }

    /// Writes enum numbers back to back, without tag or length.
    pub fn write_repeated_packed_enum_or_unknown_no_tag(&mut self, values: &[EnumOrUnknown]) -> (r: Result<(), ProtobufError>)
        requires
            old(self).wf(),
        ensures
            Self::wrote(old(self), final(self), packed_enc(values@, |v: EnumOrUnknown| int32_enc(v.spec_value())), r),
    {
        self.write_vec(packed_enum_or_unknown_data(values))
    }

    /// Writes a packed repeated enum field; no values write nothing.
    pub fn write_repeated_packed_enum_or_unknown(&mut self, field_number: u32, values: &[EnumOrUnknown]) -> (r: Result<(), ProtobufError>)
        requires
            old(self).wf(),
            valid_field_number(field_number as nat),
        ensures
            Self::wrote(
                old(self),
                final(self),
                packed_field_enc(field_number as nat, values@, |v: EnumOrUnknown| int32_enc(v.spec_value())),
                r,
            ),
    {
        if values.len() == 0 {
            proof {
                Self::lemma_wrote_nothing(self);
            }
            return Ok(());
        }
        let data = packed_enum_or_unknown_data(values);
        self.write_vec(length_delimited_field(field_number, data))
    }

    /// Writes a length-delimited payload without a tag.
    pub fn write_bytes_no_tag(&mut self, bytes: &[u8]) -> (r: Result<(), ProtobufError>)
        requires
            old(self).wf(),
        ensures
            Self::wrote(old(self), final(self), length_delimited_enc(bytes@), r),
    {
        self.write_vec(length_delimited_bytes(bytes))
    }

    /// Writes a string's UTF-8 bytes, length-delimited, without a tag.
    pub fn write_string_no_tag(&mut self, s: &str) -> (r: Result<(), ProtobufError>)
        requires
            old(self).wf(),
        ensures
            Self::wrote(old(self), final(self), length_delimited_enc(s.spec_bytes()), r),
    {
        self.write_bytes_no_tag(s.as_bytes())
    }

    /// Writes a `bytes` field.
    pub fn write_bytes(&mut self, field_number: u32, bytes: &[u8]) -> (r: Result<(), ProtobufError>)
        requires
            old(self).wf(),
            valid_field_number(field_number as nat),
        ensures
            Self::wrote(
                old(self),
                final(self),
                tag_enc(field_number as nat, WireType::LengthDelimited) + length_delimited_enc(bytes@),
                r,
            ),
    {
        self.write_vec(concat(tag_bytes(field_number, WireType::LengthDelimited), length_delimited_bytes(bytes)))
    }

    /// Writes a `string` field.
    pub fn write_string(&mut self, field_number: u32, s: &str) -> (r: Result<(), ProtobufError>)
        requires
            old(self).wf(),
            valid_field_number(field_number as nat),
        ensures
            Self::wrote(
                old(self),
                final(self),
                tag_enc(field_number as nat, WireType::LengthDelimited) + length_delimited_enc(
                    s.spec_bytes(),
                ),
                r,
            ),
    {
        self.write_bytes(field_number, s.as_bytes())
    }

    /// Writes a raw value without its tag.
    pub fn write_unknown_no_tag(&mut self, unknown: &UnknownValue) -> (r: Result<(), ProtobufError>)
        requires
            old(self).wf(),
        ensures
            Self::wrote(old(self), final(self), raw_value_enc(unknown@), r),
    {
        self.write_vec(unknown_value_bytes(unknown))
    }

    /// Writes a raw value under `field_number`.
    pub fn write_unknown(&mut self, field_number: u32, value: &UnknownValue) -> (r: Result<(), ProtobufError>)
        requires
            old(self).wf(),
            valid_field_number(field_number as nat),
        ensures
            Self::wrote(
                old(self),
                final(self),
                tag_enc(field_number as nat, value@.wire_type()) + raw_value_enc(value@),
                r,
            ),
    {
        self.write_vec(concat(tag_bytes(field_number, value.wire_type()), unknown_value_bytes(value)))
    }

    /// Writes every stored unknown field, in the store's order.
    pub fn write_unknown_fields(&mut self, fields: &UnknownFields) -> (r: Result<(), ProtobufError>)
        requires
            old(self).wf(),
            fields.wf(),
        ensures
            Self::wrote(old(self), final(self), records_enc(fields@), r),
    {
        self.write_vec(unknown_fields_bytes(fields))
    }
}

/// Numbers of enum values, back to back.
pub fn packed_enum_or_unknown_data(values: &[EnumOrUnknown]) -> (r: Vec<u8>)
    ensures
        r@ == packed_enc(values@, |v: EnumOrUnknown| int32_enc(v.spec_value())),
{
    let mut out: Vec<u8> = Vec::new();
    let mut i: usize = 0;
    while i < values.len()
        invariant
            i <= values@.len(),
            out@ == packed_enc(values@.take(i as int), |v: EnumOrUnknown| int32_enc(v.spec_value())),
        decreases values@.len() - i,
    {
        let mut b = int32_bytes(values[i].value());
        out.append(&mut b);
        proof {
            assert(values@.take(i + 1).drop_last() =~= values@.take(i as int));
        }
        i = i + 1;
    }
    assert(values@.take(i as int) =~= values@);
    out
}

/// `a` followed by `b`.
pub fn concat(a: Vec<u8>, b: Vec<u8>) -> (r: Vec<u8>)
    ensures
        r@ == a@ + b@,
{
    let mut a = a;
    let mut b = b;
    a.append(&mut b);
    a
}

/// Length prefix and payload.
pub fn length_delimited_bytes(bytes: &[u8]) -> (r: Vec<u8>)
    ensures
        r@ == length_delimited_enc(bytes@),
{
    let mut out = encode_varint64(bytes.len() as u64);
    out.extend_from_slice(bytes);
    assert(out@ =~= varint_enc(bytes@.len()) + bytes@);
    out
}

/// A length-delimited field holding `data`.
pub fn length_delimited_field(field_number: u32, data: Vec<u8>) -> (r: Vec<u8>)
    requires
        valid_field_number(field_number as nat),
    ensures
        r@ == tag_enc(field_number as nat, WireType::LengthDelimited) + length_delimited_enc(data@),
{
    let body = length_delimited_bytes(data.as_slice());
    concat(tag_bytes(field_number, WireType::LengthDelimited), body)
}

/// Number of bytes of a raw value without its tag, saturating at `u64::MAX`.
pub fn raw_value_enc_len_bytes(v: &UnknownValue) -> (r: u64)
    ensures
        r as nat == if raw_value_enc(v@).len() > u64::MAX {
            u64::MAX as nat
        } else {
            raw_value_enc(v@).len()
        },
{
    match v {
        UnknownValue::Fixed32(x) => {
            assert(le32_enc(*x).len() == 4);
            4
        },
        UnknownValue::Fixed64(x) => {
            assert(le64_enc(*x).len() == 8);
            8
        },
        UnknownValue::Varint(x) => {
            proof {
                lemma_varint_enc(*x as nat);
            }
            compute_raw_varint64_size(*x)
        },
        UnknownValue::LengthDelimited(b) => {
            let n = b.len() as u64;
            proof {
                lemma_varint_enc(n as nat);
            }
            compute_raw_varint64_size(n).saturating_add(n)
        },
    }
}

/// Bytes of a raw value without its tag.
pub fn unknown_value_bytes(v: &UnknownValue) -> (r: Vec<u8>)
    ensures
        r@ == raw_value_enc(v@),
{
    match v {
        UnknownValue::Fixed32(x) => le32_bytes(*x),
        UnknownValue::Fixed64(x) => le64_bytes(*x),
        UnknownValue::Varint(x) => encode_varint64(*x),
        UnknownValue::LengthDelimited(b) => length_delimited_bytes(b.as_slice()),
    }
}

/// Bytes of every stored unknown field, in order.
pub fn unknown_fields_bytes(fields: &UnknownFields) -> (r: Vec<u8>)
    requires
        fields.wf(),
    ensures
        r@ == records_enc(fields@),
{
    let mut out: Vec<u8> = Vec::new();
    let mut i: usize = 0;
    while i < fields.len()
        invariant
            fields.wf(),
            i <= fields@.len(),
            out@ == records_enc(fields@.take(i as int)),
        decreases fields@.len() - i,
    {
        let rec = fields.get_at(i);
        assert(records_wf(fields@));
        assert(valid_field_number(fields@[i as int].0 as nat));
        let mut b = concat(tag_bytes(rec.0, rec.1.wire_type()), unknown_value_bytes(&rec.1));
        out.append(&mut b);
        proof {
            assert(fields@.take(i + 1) =~= fields@.take(i as int).push(fields@[i as int]));
            lemma_records_enc_push(fields@.take(i as int), fields@[i as int]);
        }
        i = i + 1;
    }
    assert(fields@.take(i as int) =~= fields@);
    out
}

/// Bytes of a `uint64` value.
pub fn uint64_bytes(value: u64) -> (r: Vec<u8>)
    ensures
        r@ == uint64_enc(value),
{
    encode_varint64(value)
}

/// Bytes of a `uint32` value.
pub fn uint32_bytes(value: u32) -> (r: Vec<u8>)
    ensures
        r@ == uint32_enc(value),
{
    encode_varint32(value)
}

/// Bytes of a `int64` value.
pub fn int64_bytes(value: i64) -> (r: Vec<u8>)
    ensures
        r@ == int64_enc(value),
{
    encode_varint64(i64_to_bits(value))
}

/// Bytes of a `int32` value.
pub fn int32_bytes(value: i32) -> (r: Vec<u8>)
    ensures
        r@ == int32_enc(value),
{
    encode_varint64(i64_to_bits(value as i64))
}

/// Bytes of a `sint64` value.
pub fn sint64_bytes(value: i64) -> (r: Vec<u8>)
    ensures
        r@ == sint64_enc(value),
{
    encode_varint64(encode_zig_zag_64(value))
}

/// Bytes of a `sint32` value.
pub fn sint32_bytes(value: i32) -> (r: Vec<u8>)
    ensures
        r@ == sint32_enc(value),
{
    encode_varint32(encode_zig_zag_32(value))
}

/// Bytes of a `fixed64` value.
pub fn fixed64_bytes(value: u64) -> (r: Vec<u8>)
    ensures
        r@ == le64_enc(value),
{
    le64_bytes(value)
}

/// Bytes of a `fixed32` value.
pub fn fixed32_bytes(value: u32) -> (r: Vec<u8>)
    ensures
        r@ == le32_enc(value),
{
    le32_bytes(value)
}

/// Bytes of a `sfixed64` value.
pub fn sfixed64_bytes(value: i64) -> (r: Vec<u8>)
    ensures
        r@ == sfixed64_enc(value),
{
    le64_bytes(i64_to_bits(value))
}

/// Bytes of a `sfixed32` value.
pub fn sfixed32_bytes(value: i32) -> (r: Vec<u8>)
    ensures
        r@ == sfixed32_enc(value),
{
    le32_bytes(i32_to_bits(value))
}

/// Bytes of a `bool` value.
pub fn bool_bytes(value: bool) -> (r: Vec<u8>)
    ensures
        r@ == bool_enc(value),
{
    encode_varint32(if value { 1 } else { 0 })
}

/// Encodings of `uint64` values, back to back.
pub fn packed_uint64_data(values: &[u64]) -> (r: Vec<u8>)
    ensures
        r@ == packed_enc(values@, |v: u64| uint64_enc(v)),
{
    let mut out: Vec<u8> = Vec::new();
    let mut i: usize = 0;
    while i < values.len()
        invariant
            i <= values@.len(),
            out@ == packed_enc(values@.take(i as int), |v: u64| uint64_enc(v)),
        decreases values@.len() - i,
    {
        let mut b = uint64_bytes(values[i]);
        out.append(&mut b);
        proof {
            assert(values@.take(i + 1).drop_last() =~= values@.take(i as int));
        }
        i = i + 1;
    }
    assert(values@.take(i as int) =~= values@);
    out
}

/// Encodings of `uint32` values, back to back.
pub fn packed_uint32_data(values: &[u32]) -> (r: Vec<u8>)
    ensures
        r@ == packed_enc(values@, |v: u32| uint32_enc(v)),
{
    let mut out: Vec<u8> = Vec::new();
    let mut i: usize = 0;
    while i < values.len()
        invariant
            i <= values@.len(),
            out@ == packed_enc(values@.take(i as int), |v: u32| uint32_enc(v)),
        decreases values@.len() - i,
    {
        let mut b = uint32_bytes(values[i]);
        out.append(&mut b);
        proof {
            assert(values@.take(i + 1).drop_last() =~= values@.take(i as int));
        }
        i = i + 1;
    }
    assert(values@.take(i as int) =~= values@);
    out
}

/// Encodings of `int64` values, back to back.
pub fn packed_int64_data(values: &[i64]) -> (r: Vec<u8>)
    ensures
        r@ == packed_enc(values@, |v: i64| int64_enc(v)),
{
    let mut out: Vec<u8> = Vec::new();
    let mut i: usize = 0;
    while i < values.len()
        invariant
            i <= values@.len(),
            out@ == packed_enc(values@.take(i as int), |v: i64| int64_enc(v)),
        decreases values@.len() - i,
    {
        let mut b = int64_bytes(values[i]);
        out.append(&mut b);
        proof {
            assert(values@.take(i + 1).drop_last() =~= values@.take(i as int));
        }
        i = i + 1;
    }
    assert(values@.take(i as int) =~= values@);
    out
}

/// Encodings of `int32` values, back to back.
pub fn packed_int32_data(values: &[i32]) -> (r: Vec<u8>)
    ensures
        r@ == packed_enc(values@, |v: i32| int32_enc(v)),
{
    let mut out: Vec<u8> = Vec::new();
    let mut i: usize = 0;
    while i < values.len()
        invariant
            i <= values@.len(),
            out@ == packed_enc(values@.take(i as int), |v: i32| int32_enc(v)),
        decreases values@.len() - i,
    {
        let mut b = int32_bytes(values[i]);
        out.append(&mut b);
        proof {
            assert(values@.take(i + 1).drop_last() =~= values@.take(i as int));
        }
        i = i + 1;
    }
    assert(values@.take(i as int) =~= values@);
    out
}

/// Encodings of `sint64` values, back to back.
pub fn packed_sint64_data(values: &[i64]) -> (r: Vec<u8>)
    ensures
        r@ == packed_enc(values@, |v: i64| sint64_enc(v)),
{
    let mut out: Vec<u8> = Vec::new();
    let mut i: usize = 0;
    while i < values.len()
        invariant
            i <= values@.len(),
            out@ == packed_enc(values@.take(i as int), |v: i64| sint64_enc(v)),
        decreases values@.len() - i,
    {
        let mut b = sint64_bytes(values[i]);
        out.append(&mut b);
        proof {
            assert(values@.take(i + 1).drop_last() =~= values@.take(i as int));
        }
        i = i + 1;
    }
    assert(values@.take(i as int) =~= values@);
    out
}

/// Encodings of `sint32` values, back to back.
pub fn packed_sint32_data(values: &[i32]) -> (r: Vec<u8>)
    ensures
        r@ == packed_enc(values@, |v: i32| sint32_enc(v)),
{
    let mut out: Vec<u8> = Vec::new();
    let mut i: usize = 0;
    while i < values.len()
        invariant
            i <= values@.len(),
            out@ == packed_enc(values@.take(i as int), |v: i32| sint32_enc(v)),
        decreases values@.len() - i,
    {
        let mut b = sint32_bytes(values[i]);
        out.append(&mut b);
        proof {
            assert(values@.take(i + 1).drop_last() =~= values@.take(i as int));
        }
        i = i + 1;
    }
    assert(values@.take(i as int) =~= values@);
    out
}

/// Encodings of `fixed64` values, back to back.
pub fn packed_fixed64_data(values: &[u64]) -> (r: Vec<u8>)
    ensures
        r@ == packed_enc(values@, |v: u64| le64_enc(v)),
{
    let mut out: Vec<u8> = Vec::new();
    let mut i: usize = 0;
    while i < values.len()
        invariant
            i <= values@.len(),
            out@ == packed_enc(values@.take(i as int), |v: u64| le64_enc(v)),
        decreases values@.len() - i,
    {
        let mut b = fixed64_bytes(values[i]);
        out.append(&mut b);
        proof {
            assert(values@.take(i + 1).drop_last() =~= values@.take(i as int));
        }
        i = i + 1;
    }
    assert(values@.take(i as int) =~= values@);
    out
}

/// Encodings of `fixed32` values, back to back.
pub fn packed_fixed32_data(values: &[u32]) -> (r: Vec<u8>)
    ensures
        r@ == packed_enc(values@, |v: u32| le32_enc(v)),
{
    let mut out: Vec<u8> = Vec::new();
    let mut i: usize = 0;
    while i < values.len()
        invariant
            i <= values@.len(),
            out@ == packed_enc(values@.take(i as int), |v: u32| le32_enc(v)),
        decreases values@.len() - i,
    {
        let mut b = fixed32_bytes(values[i]);
        out.append(&mut b);
        proof {
            assert(values@.take(i + 1).drop_last() =~= values@.take(i as int));
        }
        i = i + 1;
    }
    assert(values@.take(i as int) =~= values@);
    out
}

/// Encodings of `sfixed64` values, back to back.
pub fn packed_sfixed64_data(values: &[i64]) -> (r: Vec<u8>)
    ensures
        r@ == packed_enc(values@, |v: i64| sfixed64_enc(v)),
{
    let mut out: Vec<u8> = Vec::new();
    let mut i: usize = 0;
    while i < values.len()
        invariant
            i <= values@.len(),
            out@ == packed_enc(values@.take(i as int), |v: i64| sfixed64_enc(v)),
        decreases values@.len() - i,
    {
        let mut b = sfixed64_bytes(values[i]);
        out.append(&mut b);
        proof {
            assert(values@.take(i + 1).drop_last() =~= values@.take(i as int));
        }
        i = i + 1;
    }
    assert(values@.take(i as int) =~= values@);
    out
}

/// Encodings of `sfixed32` values, back to back.
pub fn packed_sfixed32_data(values: &[i32]) -> (r: Vec<u8>)
    ensures
        r@ == packed_enc(values@, |v: i32| sfixed32_enc(v)),
{
    let mut out: Vec<u8> = Vec::new();
    let mut i: usize = 0;
    while i < values.len()
        invariant
            i <= values@.len(),
            out@ == packed_enc(values@.take(i as int), |v: i32| sfixed32_enc(v)),
        decreases values@.len() - i,
    {
        let mut b = sfixed32_bytes(values[i]);
        out.append(&mut b);
        proof {
            assert(values@.take(i + 1).drop_last() =~= values@.take(i as int));
        }
        i = i + 1;
    }
    assert(values@.take(i as int) =~= values@);
    out
}

/// Encodings of `bool` values, back to back.
pub fn packed_bool_data(values: &[bool]) -> (r: Vec<u8>)
    ensures
        r@ == packed_enc(values@, |v: bool| bool_enc(v)),
{
    let mut out: Vec<u8> = Vec::new();
    let mut i: usize = 0;
    while i < values.len()
        invariant
            i <= values@.len(),
            out@ == packed_enc(values@.take(i as int), |v: bool| bool_enc(v)),
        decreases values@.len() - i,
    {
        let mut b = bool_bytes(values[i]);
        out.append(&mut b);
        proof {
            assert(values@.take(i + 1).drop_last() =~= values@.take(i as int));
        }
        i = i + 1;
    }
    assert(values@.take(i as int) =~= values@);
    out
}

} // verus!
