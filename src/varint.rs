//! Varint and zigzag primitives.
use vstd::prelude::*;

verus! {

/// `128^n`.
pub open spec fn pow128(n: nat) -> nat
    decreases n,
{
    if n == 0 {
        1
    } else {
        128 * pow128((n - 1) as nat)
    }
}

/// Little-endian base-128 value of a run of varint bytes: the low seven bits of
/// each byte, least significant group first.
pub open spec fn base128_value(s: Seq<u8>) -> nat
    decreases s.len(),
{
    if s.len() == 0 {
        0
    } else {
        (s[0] % 128) as nat + 128 * base128_value(s.drop_first())
    }
}

/// The varint encoding of `v`: seven bits per byte, least significant first, the
/// high bit set on every byte but the last.
pub open spec fn varint_enc(v: nat) -> Seq<u8>
    decreases v,
{
    if v < 128 {
        seq![v as u8]
    } else {
        seq![(v % 128 + 128) as u8] + varint_enc(v / 128)
    }
}

/// Number of bytes in the varint encoding of `v`.
pub open spec fn varint_size(v: nat) -> nat
    decreases v,
{
    if v < 128 {
        1
    } else {
        1 + varint_size(v / 128)
    }
}

/// Index of the byte that ends the varint at the front of `s`, scanning from
/// index `i`: the first byte without the continuation bit, if one stands among
/// the first ten bytes of `s`.
pub open spec fn varint_end_from(s: Seq<u8>, i: nat) -> Option<nat>
    decreases 10 - i,
{
    if i >= 10 || i >= s.len() {
        None
    } else if s[i as int] < 128 {
        Some(i)
    } else {
        varint_end_from(s, i + 1)
    }
}

/// Index of the byte that ends the varint at the front of `s`.
pub open spec fn varint_end(s: Seq<u8>) -> Option<nat> {
    varint_end_from(s, 0)
}

/// The 64-bit value of the varint that ends at index `n` of `s`: bits past the
/// 64th are dropped.
pub open spec fn varint_value(s: Seq<u8>, n: nat) -> u64 {
    (base128_value(s.take(n as int + 1)) % 0x1_0000_0000_0000_0000) as u64
}

/// Two's complement bits of a signed 64-bit value, read as unsigned.
pub open spec fn i64_bits(v: i64) -> nat {
    if v >= 0 {
        v as nat
    } else {
        (v + 0x1_0000_0000_0000_0000) as nat
    }
}

/// Zigzag mapping of a signed integer onto the naturals: 0, -1, 1, -2, ... go to 0, 1, 2, 3, ...
pub open spec fn zigzag(n: int) -> nat {
    if n >= 0 {
        (2 * n) as nat
    } else {
        (-2 * n - 1) as nat
    }
}

/// Inverse of `zigzag`.
pub open spec fn unzigzag(z: nat) -> int {
    if z % 2 == 0 {
        (z / 2) as int
    } else {
        -((z / 2) as int) - 1
    }
}

pub proof fn lemma_pow128_step(n: nat)
    ensures
        pow128(n + 1) == 128 * pow128(n),
        pow128(n) >= 1,
    decreases n,
{
    if n > 0 {
        lemma_pow128_step((n - 1) as nat);
    }
}

/// Appending a byte adds its seven low bits at the next group position.
pub proof fn lemma_base128_push(s: Seq<u8>, b: u8)
    ensures
        base128_value(s.push(b)) == base128_value(s) + (b % 128) as nat * pow128(s.len()),
    decreases s.len(),
{
    if s.len() == 0 {
        assert(s.push(b).drop_first() =~= Seq::<u8>::empty());
        assert(base128_value(Seq::<u8>::empty()) == 0);
        assert(pow128(0) == 1);
        assert(base128_value(s.push(b)) == (b % 128) as nat);
        assert(base128_value(s) == 0);
    } else {
        assert(s.push(b).drop_first() =~= s.drop_first().push(b));
        assert(s.push(b)[0] == s[0]);
        lemma_base128_push(s.drop_first(), b);
        lemma_pow128_step((s.len() - 1) as nat);
        let rest = base128_value(s.drop_first());
        let p = pow128((s.len() - 1) as nat);
        let c = (b % 128) as nat;
        assert(128 * (rest + c * p) == 128 * rest + c * (128 * p)) by (nonlinear_arith);
        assert(base128_value(s.push(b)) == (s[0] % 128) as nat + 128 * (rest + c * p));
    }
}

/// A value of `n` base-128 groups stays below `128^n`.
pub proof fn lemma_base128_bound(s: Seq<u8>)
    ensures
        base128_value(s) < pow128(s.len()),
    decreases s.len(),
{
    if s.len() > 0 {
        lemma_base128_bound(s.drop_first());
        lemma_pow128_step((s.len() - 1) as nat);
        let rest = base128_value(s.drop_first());
        let p = pow128((s.len() - 1) as nat);
        assert(rest + 1 <= p);
        assert((s[0] % 128) as nat + 128 * rest < 128 * p) by (nonlinear_arith)
            requires
                (s[0] % 128) as nat <= 127,
                rest + 1 <= p,
        ;
    }
}

/// Shape of a varint encoding: its length, its value, and where the
/// continuation bits stand.
pub proof fn lemma_varint_enc(v: nat)
    ensures
        varint_enc(v).len() == varint_size(v),
        base128_value(varint_enc(v)) == v,
        varint_enc(v)[varint_enc(v).len() - 1] < 128,
        forall|i: int| 0 <= i < varint_enc(v).len() - 1 ==> #[trigger] varint_enc(v)[i] >= 128,
    decreases v,
{
    if v < 128 {
        assert(varint_enc(v).drop_first() =~= Seq::<u8>::empty());
        assert(base128_value(Seq::<u8>::empty()) == 0);
        assert(base128_value(varint_enc(v)) == ((v as u8) % 128) as nat);
    } else {
        lemma_varint_enc(v / 128);
        let head = seq![(v % 128 + 128) as u8];
        assert((head + varint_enc(v / 128)).drop_first() =~= varint_enc(v / 128));
        assert(varint_enc(v)[0] == (v % 128 + 128) as u8);
        assert(((v % 128 + 128) as u8) % 128 == v % 128);
        assert(base128_value(varint_enc(v)) == v % 128 + 128 * (v / 128));
        assert forall|i: int| 0 <= i < varint_enc(v).len() - 1 implies #[trigger] varint_enc(v)[i]
            >= 128 by {
            if i > 0 {
                assert(varint_enc(v)[i] == varint_enc(v / 128)[i - 1]);
            }
        }
    }
}

/// Size bounds of the varint encoding: one byte per started seven bits.
pub proof fn lemma_varint_size_bound(v: nat, k: nat)
    requires
        v < pow128(k),
        k >= 1,
    ensures
        varint_size(v) <= k,
    decreases k,
{
    if v >= 128 {
        lemma_pow128_step((k - 1) as nat);
        if k == 1 {
            assert(pow128(1) == 128 * pow128(0));
        } else {
            assert(v / 128 < pow128((k - 1) as nat)) by (nonlinear_arith)
                requires
                    v < 128 * pow128((k - 1) as nat),
            ;
            lemma_varint_size_bound(v / 128, (k - 1) as nat);
        }
    }
}

pub proof fn lemma_pow128_values()
    ensures
        pow128(5) == 0x8_0000_0000,
        pow128(9) == 0x8000_0000_0000_0000,
        pow128(10) == 0x40_0000_0000_0000_0000,
{
    reveal_with_fuel(pow128, 11);
}

/// A value below `2^64` takes at most ten bytes, one below `2^32` at most five.
pub proof fn lemma_varint_size_max(v: nat)
    ensures
        v < 0x1_0000_0000_0000_0000 ==> varint_size(v) <= 10,
        v < 0x1_0000_0000 ==> varint_size(v) <= 5,
        varint_size(v) >= 1,
{
    lemma_pow128_values();
    if v < 0x1_0000_0000_0000_0000 {
        lemma_varint_size_bound(v, 10);
    }
    if v < 0x1_0000_0000 {
        lemma_varint_size_bound(v, 5);
    }
}

/// Encodes `value` as a varint.
pub fn encode_varint64(value: u64) -> (r: Vec<u8>)
    ensures
        r@ == varint_enc(value as nat),
{
    let mut out: Vec<u8> = Vec::new();
    let mut v: u64 = value;
    while v >= 128
        invariant
            out@ + varint_enc(v as nat) == varint_enc(value as nat),
        decreases v,
    {
        let b: u8 = (v % 128 + 128) as u8;
        let ghost before = out@;
        out.push(b);
        assert(before + varint_enc(v as nat) == out@ + varint_enc((v / 128) as nat));
        v = v / 128;
    }
    out.push(v as u8);
    assert(varint_enc(v as nat) =~= seq![v as u8]);
    out
}

/// Encodes a 32-bit `value` as a varint (at most five bytes).
pub fn encode_varint32(value: u32) -> (r: Vec<u8>)
    ensures
        r@ == varint_enc(value as nat),
{
    encode_varint64(value as u64)
}

/// Number of bytes of the varint encoding of `value`.
pub fn compute_raw_varint64_size(value: u64) -> (r: u64)
    ensures
        r == varint_size(value as nat),
        1 <= r <= 10,
{
    proof {
        lemma_varint_size_max(value as nat);
    }
    let mut n: u64 = 1;
    let mut v: u64 = value;
    while v >= 128
        invariant
            n + varint_size(v as nat) == varint_size(value as nat) + 1,
            varint_size(value as nat) <= 10,
            varint_size(v as nat) >= 1,
        decreases v,
    {
        v = v / 128;
        n = n + 1;
        proof {
            lemma_varint_size_max(v as nat);
        }
    }
    n
}

/// Number of bytes of the varint encoding of a 32-bit `value`.
pub fn compute_raw_varint32_size(value: u32) -> (r: u64)
    ensures
        r == varint_size(value as nat),
        1 <= r <= 5,
{
    proof {
        lemma_varint_size_max(value as nat);
    }
    compute_raw_varint64_size(value as u64)
}

/// Two's complement bits of `v` as an unsigned value, the form in which
/// `int32`, `int64` and enum values travel as varints.
pub fn i64_to_bits(v: i64) -> (r: u64)
    ensures
        r as nat == i64_bits(v),
{
    if v >= 0 {
        v as u64
    } else {
        let m: u64 = (-(v + 1)) as u64;
        0xffff_ffff_ffff_ffff - m
    }
}

/// Zigzag-encodes a 32-bit signed value.
pub fn encode_zig_zag_32(n: i32) -> (r: u32)
    ensures
        r as nat == zigzag(n as int),
{
    if n >= 0 {
        (n as u32) * 2
    } else {
        ((-(n + 1)) as u32) * 2 + 1
    }
}

/// Zigzag-encodes a 64-bit signed value.
pub fn encode_zig_zag_64(n: i64) -> (r: u64)
    ensures
        r as nat == zigzag(n as int),
{
    if n >= 0 {
        (n as u64) * 2
    } else {
        ((-(n + 1)) as u64) * 2 + 1
    }
}

/// Inverse of `encode_zig_zag_32`.
pub fn decode_zig_zag_32(z: u32) -> (r: i32)
    ensures
        r as int == unzigzag(z as nat),
{
    if z % 2 == 0 {
        (z / 2) as i32
    } else {
        -((z / 2) as i32) - 1
    }
}

/// Inverse of `encode_zig_zag_64`.
pub fn decode_zig_zag_64(z: u64) -> (r: i64)
    ensures
        r as int == unzigzag(z as nat),
{
    if z % 2 == 0 {
        (z / 2) as i64
    } else {
        -((z / 2) as i64) - 1
    }
}

/// Zigzag decoding undoes zigzag encoding.
pub proof fn lemma_zigzag_round_trip(n: int)
    ensures
        unzigzag(zigzag(n)) == n,
{
}

} // verus!
