//! Depth keys. A depth computed in single precision is stored in the depth
//! buffer as an integer that orders as the number does, so that the depth
//! test is an integer comparison.

use vstd::prelude::*;
use vstd::arithmetic::power2::{lemma_pow2_pos, lemma_pow2_strictly_increases, lemma_pow2_unfold, pow2};
use crate::framebuffer::FAR_DEPTH;

verus! {

/// Whether the sign bit of a binary32 bit pattern is set.
pub open spec fn is_negative(bits: u32) -> bool {
    bits >= 0x8000_0000
}

/// The bit pattern without its sign bit: exponent field and fraction field.
pub open spec fn magnitude(bits: u32) -> int {
    (bits % 0x8000_0000) as int
}

/// Whether the bit pattern encodes no number: the exponent field is all
/// ones and the fraction field is not zero.
pub open spec fn is_nan(bits: u32) -> bool {
    magnitude(bits) > 0x7F80_0000
}

/// The absolute value that a magnitude encodes, multiplied by two to the
/// power 149 so that every finite value is an integer. A subnormal is its
/// fraction field; a normal number is its fraction field with the hidden bit
/// in front, shifted by its exponent field less one. Infinity, whose
/// exponent field is all ones, stands one binade above the largest finite
/// value.
pub open spec fn scaled_magnitude(m: int) -> int {
    let exponent = m / 0x80_0000;
    let fraction = m % 0x80_0000;
    if exponent == 0 {
        fraction
    } else {
        (0x80_0000 + fraction) * pow2((exponent - 1) as nat)
    }
}

/// The number that a bit pattern encodes, multiplied by two to the power
/// 149.
pub open spec fn scaled_value(bits: u32) -> int {
    if is_negative(bits) {
        -scaled_magnitude(magnitude(bits))
    } else {
        scaled_magnitude(magnitude(bits))
    }
}

/// The depth key of a bit pattern. Numbers lie around the middle of the key
/// range, negative ones below it; what is not a number gets the far depth,
/// which no write is nearer than.
pub open spec fn key_of(bits: u32) -> u32 {
    if is_nan(bits) {
        FAR_DEPTH
    } else if is_negative(bits) {
        (0x8000_0000 - magnitude(bits)) as u32
    } else {
        (0x8000_0000 + magnitude(bits)) as u32
    }
}

/// Computes the depth key of a depth given by its binary32 bit pattern.
pub fn depth_key(bits: u32) -> (key: u32)
    ensures
        key == key_of(bits),
{
    let m: u32 = bits & 0x7FFF_FFFF;
    let negative: bool = bits & 0x8000_0000 != 0;
    proof {
        assert(bits & 0x7FFF_FFFF == bits % 0x8000_0000) by (bit_vector);
        assert((bits & 0x8000_0000 != 0) == (bits >= 0x8000_0000)) by (bit_vector);
    }
    if m > 0x7F80_0000 {
        FAR_DEPTH
    } else if negative {
        0x8000_0000 - m
    } else {
        0x8000_0000 + m
    }
}

/// A larger magnitude encodes a larger absolute value.
pub proof fn lemma_scaled_magnitude_increases(m1: int, m2: int)
    requires
        0 <= m1 < m2,
    ensures
        0 <= scaled_magnitude(m1) < scaled_magnitude(m2),
{
    let e1 = m1 / 0x80_0000;
    let f1 = m1 % 0x80_0000;
    let e2 = m2 / 0x80_0000;
    let f2 = m2 % 0x80_0000;
    let below: nat = if e1 == 0 { 0 } else { (e1 - 1) as nat };
    let low_power = pow2(below);
    let high_power = pow2((e2 - 1) as nat);
    lemma_pow2_pos(below);
    if e1 > 0 {
        assert(0 <= (0x80_0000 + f1) * low_power) by (nonlinear_arith)
            requires
                0 <= f1,
                0 < low_power,
        ;
    }
    if e1 == e2 {
        if e1 > 0 {
            assert((0x80_0000 + f1) * low_power < (0x80_0000 + f2) * low_power) by (nonlinear_arith)
                requires
                    f1 < f2,
                    0 < low_power,
            ;
        }
    } else {
        let edge = 0x80_0000 * pow2(e1 as nat);
        assert(scaled_magnitude(m1) < edge) by {
            if e1 > 0 {
                lemma_pow2_unfold(e1 as nat);
                assert((0x80_0000 + f1) * low_power < 0x80_0000 * (2 * low_power)) by (nonlinear_arith)
                    requires
                        f1 < 0x80_0000,
                        0 < low_power,
                ;
            } else {
                lemma_pow2_pos(0);
                assert(f1 < 0x80_0000 * pow2(0)) by (nonlinear_arith)
                    requires
                        f1 < 0x80_0000,
                        0 < pow2(0),
                ;
            }
        }
        assert(edge <= scaled_magnitude(m2)) by {
            if e1 < e2 - 1 {
                lemma_pow2_strictly_increases(e1 as nat, (e2 - 1) as nat);
            }
            let p = pow2(e1 as nat);
            assert(0x80_0000 * p <= (0x80_0000 + f2) * high_power) by (nonlinear_arith)
                requires
                    0 <= f2,
                    0 <= p <= high_power,
            ;
        }
    }
}

/// Depth keys order as the numbers do: of two bit patterns that encode
/// numbers, the key of the first is smaller exactly when its number is
/// smaller, and the keys are equal exactly when the numbers are. The two
/// zeros share a key.
pub proof fn lemma_depth_key_order(a: u32, b: u32)
    requires
        !is_nan(a),
        !is_nan(b),
    ensures
        key_of(a) < key_of(b) <==> scaled_value(a) < scaled_value(b),
        key_of(a) == key_of(b) <==> scaled_value(a) == scaled_value(b),
        key_of(a) < FAR_DEPTH,
{
    let ma = magnitude(a);
    let mb = magnitude(b);
    if ma < mb {
        lemma_scaled_magnitude_increases(ma, mb);
    } else if mb < ma {
        lemma_scaled_magnitude_increases(mb, ma);
    }
    if 0 < ma {
        lemma_scaled_magnitude_increases(0, ma);
    }
    if 0 < mb {
        lemma_scaled_magnitude_increases(0, mb);
    }
}

} // verus!
