//! Single-precision numbers, held by their bit pattern.
//!
//! The format stores such a number as four bytes and the library hands it on
//! unchanged; the only arithmetic it ever needs is the conversion to and from
//! a 32-bit integer, done here on the bit pattern.

use vstd::prelude::*;
use vstd::arithmetic::power2::{pow2, lemma_pow2_pos, lemma_pow2_unfold, lemma_pow2_strictly_increases, lemma2_to64};
use vstd::arithmetic::div_mod::lemma_div_denominator;

verus! {

/// A single-precision binary floating-point number: one sign bit, eight bits
/// of biased exponent, twenty-three bits of fraction.
#[derive(Clone, Copy, Debug, PartialEq, Eq, Hash, Structural)]
pub struct Float32 {
    /// The pattern, sign bit highest.
    pub bits: u32,
}

/// The position of the highest set bit of a positive number.
pub open spec fn floor_log2(m: nat) -> nat
    decreases m,
{
    if m < 2 {
        0
    } else {
        1 + floor_log2(m / 2)
    }
}

/// `m / d` rounded to the nearest integer, a tie to the even one.
pub open spec fn round_half_even(m: nat, d: nat) -> nat {
    let q = m / d;
    let r = m % d;
    if 2 * r > d || (2 * r == d && q % 2 == 1) {
        q + 1
    } else {
        q
    }
}

/// The pattern of the single-precision number nearest to the integer `n`, a
/// tie going to the one with an even significand.
pub open spec fn bits_of_int(n: int) -> nat {
    let m = (if n < 0 { -n } else { n }) as nat;
    let e = floor_log2(m);
    let sign: nat = if n < 0 { 0x8000_0000 } else { 0 };
    let significand = if e <= 23 {
        m * pow2((23 - e) as nat)
    } else {
        round_half_even(m, pow2((e - 23) as nat))
    };
    if n == 0 {
        0
    } else {
        (sign + (e + 127) * 0x80_0000 + significand - 0x80_0000) as nat
    }
}

/// The integer that a pattern's number becomes when its fraction is cut off.
/// A number beyond the 32-bit range becomes the nearest bound, and a pattern
/// that is not a number becomes zero.
pub open spec fn int_of_bits(bits: u32) -> int {
    let negative = bits >= 0x8000_0000;
    let exponent = (bits / 0x80_0000) % 256;
    let fraction = bits % 0x80_0000;
    let significand = 0x80_0000 + fraction;
    let magnitude: int = if exponent < 127 {
        0
    } else if exponent >= 150 {
        significand * pow2((exponent - 150) as nat)
    } else {
        significand / (pow2((150 - exponent) as nat) as int)
    };
    if exponent == 255 && fraction != 0 {
        0
    } else if negative {
        if magnitude > 0x8000_0000 { -0x8000_0000 } else { -magnitude }
    } else {
        if magnitude > 0x7fff_ffff { 0x7fff_ffff } else { magnitude }
    }
}

/// The power of two with the given exponent.
fn two_to(k: u32) -> (r: u64)
    requires
        k <= 32,
    ensures
        r == pow2(k as nat),
        1 <= r <= 0x1_0000_0000,
{
    let mut r: u64 = 1;
    let mut i: u32 = 0;
    proof {
        lemma2_to64();
    }
    while i < k
        invariant
            i <= k <= 32,
            r == pow2(i as nat),
            1 <= r <= pow2(32),
            pow2(32) == 0x1_0000_0000,
        decreases k - i,
    {
        proof {
            lemma_pow2_unfold((i + 1) as nat);
            if i + 1 < 32 {
                lemma_pow2_strictly_increases((i + 1) as nat, 32);
            }
        }
        r = r * 2;
        i += 1;
    }
    r
}

impl Default for Float32 {
    fn default() -> (r: Float32)
        ensures
            r.bits == 0,
    {
        Float32 { bits: 0 }
    }
}

impl Float32 {
    /// The number with the given pattern.
    pub fn from_bits(bits: u32) -> (r: Float32)
        ensures
            r.bits == bits,
    {
        Float32 { bits }
    }

    /// The pattern of this number.
    pub fn to_bits(self) -> (bits: u32)
        ensures
            bits == self.bits,
    {
        self.bits
    }

    /// Positive zero.
    pub fn zero() -> (r: Float32)
        ensures
            r.bits == 0,
    {
        Float32 { bits: 0 }
    }

    /// The number one.
    pub fn one() -> (r: Float32)
        ensures
            r.bits == 0x3f80_0000,
    {
        Float32 { bits: 0x3f80_0000 }
    }

    /// Whether this is zero, of either sign.
    pub open spec fn spec_is_zero(self) -> bool {
        self.bits == 0 || self.bits == 0x8000_0000
    }

    /// Whether this is zero, of either sign.
    #[verifier::when_used_as_spec(spec_is_zero)]
    pub fn is_zero(self) -> (r: bool)
        ensures
            r == self.spec_is_zero(),
    {
        self.bits == 0 || self.bits == 0x8000_0000
    }

    /// The number nearest to an integer.
    pub fn from_i32(n: i32) -> (r: Float32)
        ensures
            r.bits == bits_of_int(n as int),
    {
        if n == 0 {
            return Float32 { bits: 0 };
        }
        let sign: u64 = if n < 0 { 0x8000_0000 } else { 0 };
        let m: u64 = if n < 0 { (-(n as i64)) as u64 } else { n as u64 };
        let mut e: u32 = 0;
        let mut p: u64 = 1;
        let mut t: u64 = m;
        proof {
            lemma2_to64();
        }
        while t >= 2
            invariant
                1 <= m <= 0x8000_0000,
                t >= 1,
                p >= 1,
                t == m / p,
                p * t <= m,
                p == pow2(e as nat),
                e <= 31,
                floor_log2(m as nat) == e + floor_log2(t as nat),
            decreases t,
        {
            proof {
                lemma2_to64();
                lemma_div_denominator(m as int, p as int, 2);
                lemma_pow2_unfold((e + 1) as nat);
                if e + 1 > 31 {
                    lemma_pow2_strictly_increases(31, (e + 1) as nat);
                }
                assert(p * 2 * (t / 2) <= p * t) by (nonlinear_arith)
                    requires
                        p >= 1,
                        t >= 2,
                ;
                assert(p * 2 <= p * t) by (nonlinear_arith)
                    requires
                        p >= 1,
                        t >= 2,
                ;
            }
            p = p * 2;
            t = t / 2;
            e = e + 1;
        }
        assert(t == 1);
        assert(p <= m < 2 * p) by {
            vstd::arithmetic::div_mod::lemma_fundamental_div_mod(m as int, p as int);
            vstd::arithmetic::div_mod::lemma_mod_bound(m as int, p as int);
        }
        let significand: u64 = if e <= 23 {
            let scale = two_to(23 - e);
            proof {
                vstd::arithmetic::power2::lemma_pow2_adds(e as nat, (23 - e) as nat);
                assert(m * scale < 2 * p * scale) by (nonlinear_arith)
                    requires
                        m < 2 * p,
                        scale >= 1,
                ;
                assert(p * scale <= m * scale) by (nonlinear_arith)
                    requires
                        p <= m,
                        scale >= 1,
                ;
                assert(2 * p * scale == 2 * (p * scale)) by (nonlinear_arith);
            }
            m * scale
        } else {
            let d = two_to(e - 23);
            proof {
                vstd::arithmetic::power2::lemma_pow2_adds(23, (e - 23) as nat);
                vstd::arithmetic::div_mod::lemma_fundamental_div_mod(m as int, d as int);
                vstd::arithmetic::div_mod::lemma_mod_bound(m as int, d as int);
                assert(p == 0x80_0000 * d);
                assert(0x80_0000 <= m / d < 0x100_0000) by (nonlinear_arith)
                    requires
                        0x80_0000 * d <= m < 2 * (0x80_0000 * d),
                        d >= 1,
                        m == d * (m / d) + (m % d),
                        0 <= m % d < d,
                ;
            }
            let q = m / d;
            let r = m % d;
            if 2 * r > d || (2 * r == d && q % 2 == 1) {
                q + 1
            } else {
                q
            }
        };
        let bits: u64 = sign + (e as u64 + 127) * 0x80_0000 + significand - 0x80_0000;
        Float32 { bits: bits as u32 }
    }

    /// The integer part of this number, cut off toward zero and held within
    /// the 32-bit range; zero where this is not a number.
    pub fn to_i32(self) -> (r: i32)
        ensures
            r == int_of_bits(self.bits),
    {
        let negative = self.bits >= 0x8000_0000;
        let exponent: u32 = (self.bits / 0x80_0000) % 256;
        let fraction: u32 = self.bits % 0x80_0000;
        if exponent == 255 && fraction != 0 {
            return 0;
        }
        if exponent < 127 {
            return 0;
        }
        let significand: u64 = 0x80_0000 + fraction as u64;
        proof {
            lemma2_to64();
        }
        if exponent >= 158 {
            proof {
                let k = (exponent - 150) as nat;
                if k > 8 {
                    lemma_pow2_strictly_increases(8, k);
                }
                assert(significand * pow2(k) >= 0x80_0000 * 256) by (nonlinear_arith)
                    requires
                        significand >= 0x80_0000,
                        pow2(k) >= 256,
                ;
            }
            return if negative { i32::MIN } else { i32::MAX };
        }
        let magnitude: u64 = if exponent >= 150 {
            let scale = two_to(exponent - 150);
            proof {
                let k = (exponent - 150) as nat;
                if k < 7 {
                    lemma_pow2_strictly_increases(k, 7);
                }
                assert(significand * scale < 0x100_0000 * 128) by (nonlinear_arith)
                    requires
                        significand < 0x100_0000,
                        1 <= scale <= 128,
                ;
            }
            significand * scale
        } else {
            let d = two_to(150 - exponent);
            significand / d
        };
        if negative {
            (-(magnitude as i64)) as i32
        } else {
            magnitude as i32
        }
    }
}

/// A positive number lies between the power of two of its highest bit and
/// the next power of two.
pub proof fn lemma_floor_log2(m: nat)
    requires
        m >= 1,
    ensures
        pow2(floor_log2(m)) <= m < pow2(floor_log2(m) + 1),
    decreases m,
{
    lemma2_to64();
    if m >= 2 {
        lemma_floor_log2(m / 2);
        lemma_pow2_unfold(floor_log2(m));
        lemma_pow2_unfold(floor_log2(m) + 1);
    }
}

/// An integer of at most twenty-four bits has a single-precision number of
/// its own: converting it there and back gives the integer again.
pub proof fn lemma_small_int_round_trip(n: int)
    requires
        -0x100_0000 <= n <= 0x100_0000,
    ensures
        bits_of_int(n) <= u32::MAX,
        int_of_bits(bits_of_int(n) as u32) == n,
{
    lemma2_to64();
    if n != 0 {
        let m = (if n < 0 { -n } else { n }) as nat;
        let e = floor_log2(m);
        lemma_floor_log2(m);
        if e >= 25 {
            lemma_pow2_strictly_increases(24, e);
        }
        assert(e <= 24);
        let sign: nat = if n < 0 { 0x8000_0000 } else { 0 };
        if e <= 23 {
            let scale = pow2((23 - e) as nat);
            lemma_pow2_pos((23 - e) as nat);
            vstd::arithmetic::power2::lemma_pow2_adds(e, (23 - e) as nat);
            vstd::arithmetic::power2::lemma_pow2_adds(e + 1, (23 - e) as nat);
            let significand = m * scale;
            assert(0x80_0000 <= significand < 0x100_0000) by (nonlinear_arith)
                requires
                    significand == m * scale,
                    pow2(e) * scale == 0x80_0000,
                    pow2(e + 1) * scale == 0x100_0000,
                    pow2(e) <= m < pow2(e + 1),
                    scale >= 1,
            ;
            assert(significand / scale == m) by (nonlinear_arith)
                requires
                    significand == m * scale,
                    scale >= 1,
            ;
            let bits = bits_of_int(n);
            assert(bits == sign + (e + 127) * 0x80_0000 + significand - 0x80_0000);
            if e == 23 {
                lemma_pow2_unfold(1);
                assert(pow2(0) == 1);
                assert(significand * pow2(0) == m) by (nonlinear_arith)
                    requires
                        significand == m * scale,
                        scale == 1,
                        pow2(0) == 1,
                ;
            }
        } else {
            assert(m == 0x100_0000);
            lemma_pow2_unfold(1);
            assert(pow2(1) == 2);
            assert(round_half_even(m, 2) == 0x80_0000);
            let bits = bits_of_int(n);
            assert(bits == sign + 151 * 0x80_0000);
            assert(0x80_0000 * pow2(1) == 0x100_0000);
        }
    }
}

} // verus!
