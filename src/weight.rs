//! Log-semiring weights.
//!
//! A weight is held as the 32-bit pattern that rustfst writes for a `LogWeight`
//! in its binary format: the little-endian bits of a negative log-probability.
//! All semiring arithmetic is rustfst's own, reached through the wrappers below;
//! this module only moves bit patterns around and tests their shape.
use rustfst::semirings::{
    DivideType, LogWeight, Semiring, SerializableSemiring, WeaklyDivisibleSemiring,
};
use vstd::prelude::*;

verus! {

/// Bit pattern of semiring one (the value 0).
pub const WEIGHT_ONE: u32 = 0;

/// Bit pattern of semiring zero (positive infinity).
pub const WEIGHT_ZERO: u32 = 0x7f80_0000;

/// Bit pattern of the value 99: the seed weight of insertion and deletion arcs.
pub const DELETION_SEED: u32 = 0x42c6_0000;

/// The pattern encodes a finite value: not every exponent bit is set.
pub open spec fn is_finite_bits(w: u32) -> bool {
    (w & 0x7f80_0000u32) != 0x7f80_0000u32
}

/// The pattern with its sign bit cleared: the absolute value.
pub open spec fn abs_bits(w: u32) -> u32 {
    w & 0x7fff_ffffu32
}

/// Bit pattern of negative infinity.
pub const WEIGHT_NEG_INF: u32 = 0xff80_0000;

/// A quiet NaN, standing for any NaN pattern.
pub const WEIGHT_NAN: u32 = 0x7fc0_0000;

/// The pattern encodes a NaN: every exponent bit set and a non-zero mantissa.
pub open spec fn is_nan_bits(w: u32) -> bool {
    (w & 0x7fff_ffffu32) > 0x7f80_0000u32
}

/// Two patterns stand for the same weight: equal, or both NaN (the sign and
/// payload of a NaN that float arithmetic produces are not fixed).
pub open spec fn same_weight(a: u32, b: u32) -> bool {
    a == b || (is_nan_bits(a) && is_nan_bits(b))
}

/// Result of rustfst's log-semiring times on two values that are neither NaN
/// nor positive infinity: their float sum, which is exactly rounded.
pub uninterp spec fn log_times(a: u32, b: u32) -> u32;

/// Result of rustfst's log-semiring divide on two values that are not NaN: their
/// float difference, exactly rounded (up to the pattern of a NaN, which the
/// difference of two equal infinities is).
pub uninterp spec fn log_divide(a: u32, b: u32) -> u32;

/// Log-semiring times, with every NaN taken as one: semiring zero on either side
/// gives semiring zero, then a NaN on either side gives a NaN.
pub open spec fn times_of(a: u32, b: u32) -> u32 {
    if a == WEIGHT_ZERO || b == WEIGHT_ZERO {
        WEIGHT_ZERO
    } else if is_nan_bits(a) || is_nan_bits(b) {
        WEIGHT_NAN
    } else {
        log_times(a, b)
    }
}

/// Log-semiring divide, with every NaN taken as one: a NaN on either side gives a
/// NaN.
pub open spec fn divide_of(a: u32, b: u32) -> u32 {
    if is_nan_bits(a) || is_nan_bits(b) {
        WEIGHT_NAN
    } else {
        log_divide(a, b)
    }
}

/// Relies on `LogWeight::plus_assign`: semiring zero on either side hands back
/// the other side unchanged. Otherwise it computes `min - ln_1p(exp(-|a - b|))`,
/// whose precision std leaves to the platform, so nothing more is stated.
#[verifier::external_body]
pub(crate) fn plus(a: u32, b: u32) -> (r: u32)
    ensures
        a == WEIGHT_ZERO ==> r == b,
        b == WEIGHT_ZERO ==> r == a,
{
    let mut w = LogWeight::parse_binary(&a.to_le_bytes()).unwrap().1;
    w.plus_assign(LogWeight::parse_binary(&b.to_le_bytes()).unwrap().1).unwrap();
    w.value().to_bits()
}

/// Relies on `LogWeight::times_assign`: positive infinity on the left is kept,
/// positive infinity on the right is taken, otherwise the float sum.
#[verifier::external_body]
pub(crate) fn times(a: u32, b: u32) -> (r: u32)
    ensures
        a != WEIGHT_ZERO && b != WEIGHT_ZERO && !is_nan_bits(a) && !is_nan_bits(b) ==> r == log_times(a, b),
        same_weight(r, times_of(a, b)),
{
    let mut w = LogWeight::parse_binary(&a.to_le_bytes()).unwrap().1;
    w.times_assign(LogWeight::parse_binary(&b.to_le_bytes()).unwrap().1).unwrap();
    w.value().to_bits()
}

/// Relies on `LogWeight::divide_assign`: the float difference of the two values.
/// A finite value less positive infinity is negative infinity; positive infinity
/// less a finite value is positive infinity.
#[verifier::external_body]
pub(crate) fn divide(a: u32, b: u32) -> (r: u32)
    ensures
        !is_nan_bits(a) && !is_nan_bits(b) ==> same_weight(r, log_divide(a, b)),
        same_weight(r, divide_of(a, b)),
        is_finite_bits(a) && b == WEIGHT_ZERO ==> r == WEIGHT_NEG_INF,
        a == WEIGHT_ZERO && is_finite_bits(b) ==> r == WEIGHT_ZERO,
{
    let mut w = LogWeight::parse_binary(&a.to_le_bytes()).unwrap().1;
    w.divide_assign(&LogWeight::parse_binary(&b.to_le_bytes()).unwrap().1, DivideType::DivideAny).unwrap();
    w.value().to_bits()
}

/// Times respects taking every NaN as one.
pub proof fn lemma_times_same(a: u32, a2: u32, b: u32, b2: u32)
    requires
        same_weight(a, a2),
        same_weight(b, b2),
    ensures
        times_of(a, b) == times_of(a2, b2),
{
    if is_nan_bits(a) {
        assert(a != WEIGHT_ZERO && a2 != WEIGHT_ZERO) by (bit_vector)
            requires (a & 0x7fff_ffffu32) > 0x7f80_0000u32, (a2 & 0x7fff_ffffu32) > 0x7f80_0000u32 || a2 == a;
    }
    if is_nan_bits(b) {
        assert(b != WEIGHT_ZERO && b2 != WEIGHT_ZERO) by (bit_vector)
            requires (b & 0x7fff_ffffu32) > 0x7f80_0000u32, (b2 & 0x7fff_ffffu32) > 0x7f80_0000u32 || b2 == b;
    }
}

/// Divide respects taking every NaN as one.
pub proof fn lemma_divide_same(a: u32, a2: u32, b: u32, b2: u32)
    requires
        same_weight(a, a2),
        same_weight(b, b2),
    ensures
        divide_of(a, b) == divide_of(a2, b2),
{
}

/// Tells whether the pattern encodes a finite value.
pub fn is_finite(w: u32) -> (r: bool)
    ensures
        r == is_finite_bits(w),
{
    (w & 0x7f80_0000u32) != 0x7f80_0000u32
}

/// Absolute difference of two weight values, `|a - b|`: the difference is
/// rustfst's log-semiring divide, the absolute value clears the sign bit.
pub fn weight_change(a: u32, b: u32) -> (r: u32)
    ensures
        same_weight(r, abs_bits(divide_of(a, b))),
        is_finite_bits(a) && b == WEIGHT_ZERO ==> r == WEIGHT_ZERO,
{
    let d = divide(a, b);
    proof {
        let e = divide_of(a, b);
        if d != e {
            assert((d & 0x7fff_ffffu32) & 0x7fff_ffffu32 > 0x7f80_0000u32 && (e & 0x7fff_ffffu32) & 0x7fff_ffffu32
                > 0x7f80_0000u32) by (bit_vector)
                requires (d & 0x7fff_ffffu32) > 0x7f80_0000u32, (e & 0x7fff_ffffu32) > 0x7f80_0000u32;
        }
        assert(0xff80_0000u32 & 0x7fff_ffffu32 == 0x7f80_0000u32) by (bit_vector);
    }
    d & 0x7fff_ffffu32
}

} // verus!
