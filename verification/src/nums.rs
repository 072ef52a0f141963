//! Two's-complement conversions and big-endian byte layouts for the
//! fixed-width integers of the wire format.
use vstd::prelude::*;

verus! {

/// The unsigned 16-bit pattern that carries `n` on the wire.
pub open spec fn u16_of_i16(n: i16) -> u16 {
    if n >= 0 {
        n as u16
    } else {
        ((n as int) + 0x1_0000) as u16
    }
}

/// The unsigned 32-bit pattern that carries `n` on the wire.
pub open spec fn u32_of_i32(n: i32) -> u32 {
    if n >= 0 {
        n as u32
    } else {
        ((n as int) + 0x1_0000_0000) as u32
    }
}

/// The unsigned 64-bit pattern that carries `n` on the wire.
pub open spec fn u64_of_i64(n: i64) -> u64 {
    if n >= 0 {
        n as u64
    } else {
        ((n as int) + 0x1_0000_0000_0000_0000) as u64
    }
}

/// The unsigned 8-bit pattern that carries `n` on the wire.
pub open spec fn u8_of_i8(n: i8) -> u8 {
    if n >= 0 {
        n as u8
    } else {
        ((n as int) + 0x100) as u8
    }
}

/// The signed value carried by the unsigned 8-bit pattern `u`.
pub open spec fn i8_of_u8(u: u8) -> i8 {
    if u <= 0x7F {
        u as i8
    } else {
        ((u as int) - 0x100) as i8
    }
}

pub proof fn lemma_u8_i8_inverse(n: i8, u: u8)
    ensures
        i8_of_u8(u8_of_i8(n)) == n,
        u8_of_i8(i8_of_u8(u)) == u,
{
}

pub fn to_u8(n: i8) -> (r: u8)
    ensures
        r == u8_of_i8(n),
{
    if n >= 0 {
        n as u8
    } else {
        ((n as i16) + 0x100) as u8
    }
}

pub fn to_i8(u: u8) -> (r: i8)
    ensures
        r == i8_of_u8(u),
{
    if u <= 0x7F {
        u as i8
    } else {
        ((u as i16) - 0x100) as i8
    }
}

/// The signed value carried by the unsigned 16-bit pattern `u`.
pub open spec fn i16_of_u16(u: u16) -> i16 {
    if u <= 0x7FFF {
        u as i16
    } else {
        ((u as int) - 0x1_0000) as i16
    }
}

/// The signed value carried by the unsigned 32-bit pattern `u`.
pub open spec fn i32_of_u32(u: u32) -> i32 {
    if u <= 0x7FFF_FFFF {
        u as i32
    } else {
        ((u as int) - 0x1_0000_0000) as i32
    }
}

/// The signed value carried by the unsigned 64-bit pattern `u`.
pub open spec fn i64_of_u64(u: u64) -> i64 {
    if u <= 0x7FFF_FFFF_FFFF_FFFF {
        u as i64
    } else {
        ((u as int) - 0x1_0000_0000_0000_0000) as i64
    }
}

pub proof fn lemma_u16_i16_inverse(n: i16, u: u16)
    ensures
        i16_of_u16(u16_of_i16(n)) == n,
        u16_of_i16(i16_of_u16(u)) == u,
{
}

pub proof fn lemma_u32_i32_inverse(n: i32, u: u32)
    ensures
        i32_of_u32(u32_of_i32(n)) == n,
        u32_of_i32(i32_of_u32(u)) == u,
{
}

pub proof fn lemma_u64_i64_inverse(n: i64, u: u64)
    ensures
        i64_of_u64(u64_of_i64(n)) == n,
        u64_of_i64(i64_of_u64(u)) == u,
{
}

pub fn to_u16(n: i16) -> (r: u16)
    ensures
        r == u16_of_i16(n),
{
    if n >= 0 {
        n as u16
    } else {
        ((n as i32) + 0x1_0000) as u16
    }
}

pub fn to_u32(n: i32) -> (r: u32)
    ensures
        r == u32_of_i32(n),
{
    if n >= 0 {
        n as u32
    } else {
        ((n as i64) + 0x1_0000_0000) as u32
    }
}

pub fn to_u64(n: i64) -> (r: u64)
    ensures
        r == u64_of_i64(n),
{
    if n >= 0 {
        n as u64
    } else {
        let neg: u64 = (-(n as i128)) as u64;
        (0xFFFF_FFFF_FFFF_FFFF - neg) + 1
    }
}

pub fn to_i16(u: u16) -> (r: i16)
    ensures
        r == i16_of_u16(u),
{
    if u <= 0x7FFF {
        u as i16
    } else {
        ((u as i32) - 0x1_0000) as i16
    }
}

pub fn to_i32(u: u32) -> (r: i32)
    ensures
        r == i32_of_u32(u),
{
    if u <= 0x7FFF_FFFF {
        u as i32
    } else {
        ((u as i64) - 0x1_0000_0000) as i32
    }
}

pub fn to_i64(u: u64) -> (r: i64)
    ensures
        r == i64_of_u64(u),
{
    if u <= 0x7FFF_FFFF_FFFF_FFFF {
        u as i64
    } else {
        (((u as i128) - 0x1_0000_0000_0000_0000) as i64)
    }
}

/// Big-endian layout of an unsigned 16-bit integer.
pub open spec fn be2(n: u16) -> Seq<u8> {
    seq![((n as int) / 0x100) as u8, ((n as int) % 0x100) as u8]
}

/// Big-endian layout of an unsigned 32-bit integer.
pub open spec fn be4(n: u32) -> Seq<u8> {
    be2(((n as int) / 0x1_0000) as u16) + be2(((n as int) % 0x1_0000) as u16)
}

/// Big-endian layout of an unsigned 64-bit integer.
pub open spec fn be8(n: u64) -> Seq<u8> {
    be4(((n as int) / 0x1_0000_0000) as u32) + be4(((n as int) % 0x1_0000_0000) as u32)
}

/// The unsigned 16-bit value carried by two big-endian bytes.
pub open spec fn be2_val(b: Seq<u8>) -> u16 {
    ((b[0] as int) * 0x100 + (b[1] as int)) as u16
}

/// The unsigned 32-bit value carried by four big-endian bytes.
pub open spec fn be4_val(b: Seq<u8>) -> u32 {
    ((be2_val(b.take(2)) as int) * 0x1_0000 + (be2_val(b.skip(2)) as int)) as u32
}

/// The unsigned 64-bit value carried by eight big-endian bytes.
pub open spec fn be8_val(b: Seq<u8>) -> u64 {
    ((be4_val(b.take(4)) as int) * 0x1_0000_0000 + (be4_val(b.skip(4)) as int)) as u64
}

pub proof fn lemma_be2_inverse(b: Seq<u8>)
    requires
        b.len() == 2,
    ensures
        be2(be2_val(b)) =~= b,
{
}

pub proof fn lemma_be2_val_inverse(n: u16)
    ensures
        be2_val(be2(n)) == n,
        be2(n).len() == 2,
{
}

pub proof fn lemma_be4_inverse(b: Seq<u8>)
    requires
        b.len() == 4,
    ensures
        be4(be4_val(b)) =~= b,
{
    let hi = be2_val(b.take(2)) as int;
    let lo = be2_val(b.skip(2)) as int;
    let v = be4_val(b) as int;
    vstd::arithmetic::div_mod::lemma_fundamental_div_mod_converse(v, 0x1_0000, hi, lo);
    lemma_be2_inverse(b.take(2));
    lemma_be2_inverse(b.skip(2));
}

pub proof fn lemma_be4_val_inverse(n: u32)
    ensures
        be4_val(be4(n)) == n,
        be4(n).len() == 4,
{
    let hi = (n as int) / 0x1_0000;
    let lo = (n as int) % 0x1_0000;
    lemma_be2_val_inverse(hi as u16);
    lemma_be2_val_inverse(lo as u16);
    assert(be4(n).take(2) =~= be2(hi as u16));
    assert(be4(n).skip(2) =~= be2(lo as u16));
}

pub proof fn lemma_be8_inverse(b: Seq<u8>)
    requires
        b.len() == 8,
    ensures
        be8(be8_val(b)) =~= b,
{
    let hi = be4_val(b.take(4)) as int;
    let lo = be4_val(b.skip(4)) as int;
    let v = be8_val(b) as int;
    vstd::arithmetic::div_mod::lemma_fundamental_div_mod_converse(v, 0x1_0000_0000, hi, lo);
    lemma_be4_inverse(b.take(4));
    lemma_be4_inverse(b.skip(4));
}

} // verus!
