//! Fixed-width integers in little-endian byte order.

use vstd::prelude::*;
use byteorder::{ByteOrder, LittleEndian};

verus! {

/// The number that bytes denote in little-endian order: the first byte is
/// the least significant.
pub open spec fn le_value(bytes: Seq<u8>) -> nat
    decreases bytes.len(),
{
    if bytes.len() == 0 {
        0
    } else {
        bytes[0] as nat + 256 * le_value(bytes.skip(1))
    }
}

/// The `width` bytes that denote `n` in little-endian order.
pub open spec fn le_bytes(n: nat, width: nat) -> Seq<u8>
    decreases width,
{
    if width == 0 {
        seq![]
    } else {
        seq![(n % 256) as u8] + le_bytes(n / 256, (width - 1) as nat)
    }
}

/// The signed number that the unsigned `n` stands for in two's complement
/// of `bits` bits.
pub open spec fn as_signed(n: nat, bits: nat) -> int {
    if n >= vstd::arithmetic::power2::pow2((bits - 1) as nat) {
        n - vstd::arithmetic::power2::pow2(bits)
    } else {
        n as int
    }
}

/// The unsigned number that stands for the signed `n` in two's complement of
/// `bits` bits.
pub open spec fn as_unsigned(n: int, bits: nat) -> nat {
    if n < 0 {
        (n + vstd::arithmetic::power2::pow2(bits)) as nat
    } else {
        n as nat
    }
}

/// The bytes written for a number are as many as asked for, and denote the
/// number where it fits them.
pub proof fn lemma_le_bytes(n: nat, width: nat)
    ensures
        le_bytes(n, width).len() == width,
        n < vstd::arithmetic::power::pow(256, width) ==> le_value(le_bytes(n, width)) == n,
    decreases width,
{
    reveal(vstd::arithmetic::power::pow);
    if width > 0 {
        lemma_le_bytes(n / 256, (width - 1) as nat);
        let rest = le_bytes(n / 256, (width - 1) as nat);
        assert(le_bytes(n, width).skip(1) == rest);
        if n < vstd::arithmetic::power::pow(256, width) {
            assert(n / 256 < vstd::arithmetic::power::pow(256, (width - 1) as nat)) by (nonlinear_arith)
                requires
                    n < 256 * vstd::arithmetic::power::pow(256, (width - 1) as nat),
            ;
        }
    }
}

/// `LittleEndian::read_u16` on a slice of at least two bytes: the number
/// that the first two denote.
#[verifier::external_body]
pub(crate) fn read_u16(buf: &[u8]) -> (r: u16)
    requires
        buf@.len() >= 2,
    ensures
        r == le_value(buf@.take(2)),
{
    LittleEndian::read_u16(buf)
}

/// `LittleEndian::read_i16` on a slice of at least two bytes: the number
/// that the first two denote in two's complement.
#[verifier::external_body]
pub(crate) fn read_i16(buf: &[u8]) -> (r: i16)
    requires
        buf@.len() >= 2,
    ensures
        r == as_signed(le_value(buf@.take(2)), 16),
{
    LittleEndian::read_i16(buf)
}

/// `LittleEndian::read_u32` on a slice of at least four bytes: the number
/// that the first four denote.
#[verifier::external_body]
pub(crate) fn read_u32(buf: &[u8]) -> (r: u32)
    requires
        buf@.len() >= 4,
    ensures
        r == le_value(buf@.take(4)),
{
    LittleEndian::read_u32(buf)
}

/// `LittleEndian::read_i32` on a slice of at least four bytes: the number
/// that the first four denote in two's complement.
#[verifier::external_body]
pub(crate) fn read_i32(buf: &[u8]) -> (r: i32)
    requires
        buf@.len() >= 4,
    ensures
        r == as_signed(le_value(buf@.take(4)), 32),
{
    LittleEndian::read_i32(buf)
}

/// `LittleEndian::write_u16` into two bytes: the bytes that denote `n`.
#[verifier::external_body]
pub(crate) fn write_u16(n: u16) -> (r: [u8; 2])
    ensures
        r@ == le_bytes(n as nat, 2),
{
    let mut buf = [0u8; 2];
    LittleEndian::write_u16(&mut buf, n);
    buf
}

/// `LittleEndian::write_i16` into two bytes: the bytes that denote `n` in
/// two's complement.
#[verifier::external_body]
pub(crate) fn write_i16(n: i16) -> (r: [u8; 2])
    ensures
        r@ == le_bytes(as_unsigned(n as int, 16), 2),
{
    let mut buf = [0u8; 2];
    LittleEndian::write_i16(&mut buf, n);
    buf
}

/// `LittleEndian::write_u32` into four bytes: the bytes that denote `n`.
#[verifier::external_body]
pub(crate) fn write_u32(n: u32) -> (r: [u8; 4])
    ensures
        r@ == le_bytes(n as nat, 4),
{
    let mut buf = [0u8; 4];
    LittleEndian::write_u32(&mut buf, n);
    buf
}

/// `LittleEndian::write_i32` into four bytes: the bytes that denote `n` in
/// two's complement.
#[verifier::external_body]
pub(crate) fn write_i32(n: i32) -> (r: [u8; 4])
    ensures
        r@ == le_bytes(as_unsigned(n as int, 32), 4),
{
    let mut buf = [0u8; 4];
    LittleEndian::write_i32(&mut buf, n);
    buf
}

} // verus!
