//! IEEE-754 single-precision numbers, read from their 32 bits.
//!
//! Samples, window lengths and alarm limits travel as such bit patterns.
//! This module answers the questions about them that integer arithmetic
//! settles exactly: whether one is zero, what whole number of seconds it
//! holds, and whether one exceeds another.

use vstd::prelude::*;

verus! {

/// The biased exponent field.
pub open spec fn exponent(bits: u32) -> u32 {
    (bits >> 23) & 0xff
}

/// The fraction field.
pub open spec fn fraction(bits: u32) -> u32 {
    bits & 0x7f_ffff
}

/// Whether the sign bit is set.
pub open spec fn negative(bits: u32) -> bool {
    bits >> 31 == 1
}

/// Whether the pattern is not a number.
pub open spec fn is_nan(bits: u32) -> bool {
    exponent(bits) == 255 && fraction(bits) != 0
}

/// Whether the pattern is positive or negative zero.
pub open spec fn is_zero(bits: u32) -> bool {
    bits & 0x7fff_ffff == 0
}

/// The number truncated toward zero and brought into the 64-bit range: zero
/// for what is not a number, the nearest bound for what lies outside.
pub open spec fn whole_seconds(bits: u32) -> i64 {
    let e = exponent(bits);
    let m = (fraction(bits) | 0x80_0000) as u64;
    if is_nan(bits) || e < 127 {
        0i64
    } else if e >= 190 {
        if negative(bits) {
            i64::MIN
        } else {
            i64::MAX
        }
    } else {
        let magnitude = if e >= 150 {
            m << ((e - 150) as u64)
        } else {
            m >> ((150 - e) as u64)
        };
        if negative(bits) {
            (-(magnitude as int)) as i64
        } else {
            magnitude as i64
        }
    }
}

/// Where the pattern stands among the ordered numbers: its magnitude bits,
/// negated under a set sign bit, so that both zeros stand at 0.
pub open spec fn rank(bits: u32) -> int {
    if negative(bits) {
        -((bits & 0x7fff_ffff) as int)
    } else {
        (bits & 0x7fff_ffff) as int
    }
}

/// Whether `a` is greater than `b` as numbers. Nothing exceeds, or is
/// exceeded by, what is not a number.
pub open spec fn exceeds(a: u32, b: u32) -> bool {
    !is_nan(a) && !is_nan(b) && rank(a) > rank(b)
}

/// Tests for positive or negative zero.
pub fn single_is_zero(bits: u32) -> (zero: bool)
    ensures
        zero == is_zero(bits),
{
    bits & 0x7fff_ffff == 0
}

/// Tests for a pattern that is not a number.
pub fn single_is_nan(bits: u32) -> (nan: bool)
    ensures
        nan == is_nan(bits),
{
    (bits >> 23) & 0xff == 255 && bits & 0x7f_ffff != 0
}

/// The whole seconds held by a pattern, truncated toward zero.
pub fn single_whole_seconds(bits: u32) -> (secs: i64)
    ensures
        secs == whole_seconds(bits),
{
    let e: u32 = (bits >> 23) & 0xff;
    let f: u32 = bits & 0x7f_ffff;
    let m: u64 = (f | 0x80_0000) as u64;
    let neg: bool = bits >> 31 == 1;
    assert(e <= 255) by (bit_vector)
        requires
            e == (bits >> 23) & 0xff,
    ;
    assert(m < 0x100_0000) by (bit_vector)
        requires
            m == ((bits & 0x7f_ffff) | 0x80_0000) as u64,
    ;
    if (e == 255 && f != 0) || e < 127 {
        0
    } else if e >= 190 {
        if neg {
            i64::MIN
        } else {
            i64::MAX
        }
    } else {
        let magnitude: u64 = if e >= 150 {
            let k: u64 = (e - 150) as u64;
            assert(m << k < 0x8000_0000_0000_0000) by (bit_vector)
                requires
                    m < 0x100_0000,
                    k < 40,
            ;
            m << k
        } else {
            let k: u64 = (150 - e) as u64;
            assert(m >> k < 0x8000_0000_0000_0000) by (bit_vector)
                requires
                    m < 0x100_0000,
                    k < 64,
            ;
            m >> k
        };
        if neg {
            -(magnitude as i64)
        } else {
            magnitude as i64
        }
    }
}

/// Compares two patterns as numbers.
pub fn single_exceeds(a: u32, b: u32) -> (greater: bool)
    ensures
        greater == exceeds(a, b),
{
    if single_is_nan(a) || single_is_nan(b) {
        return false;
    }
    let ma: u32 = a & 0x7fff_ffff;
    let mb: u32 = b & 0x7fff_ffff;
    let na: bool = a >> 31 == 1;
    let nb: bool = b >> 31 == 1;
    if na {
        // a is zero or below: it exceeds only a negative of greater magnitude
        nb && ma < mb
    } else if nb {
        // a is zero or above, b zero or below: equal only when both are zero
        ma > 0 || mb > 0
    } else {
        ma > mb
    }
}

} // verus!
