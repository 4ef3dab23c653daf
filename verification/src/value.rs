//! The number that a binary64 bit pattern stands for, and the proof that
//! the keys of `score` order patterns as their numbers are ordered.
use crate::score::{is_nan, is_negative, magnitude, score};
use vstd::arithmetic::mul::{lemma_mul_inequality, lemma_mul_strict_inequality};
use vstd::arithmetic::power2::{lemma2_to64, lemma_pow2_pos, lemma_pow2_strictly_increases, pow2};
use vstd::prelude::*;

verus! {

/// The biased exponent of a pattern: its eleven bits below the sign.
pub open spec fn exponent(bits: u64) -> nat {
    ((bits >> 52) & 0x7ff) as nat
}

/// The fraction of a pattern: its lowest 52 bits.
pub open spec fn fraction(bits: u64) -> nat {
    (bits & 0x000f_ffff_ffff_ffff) as nat
}

/// The absolute value that an exponent and a fraction give, counted in
/// units of the smallest positive number, two to the power of -1074.
///
/// With exponent 0 the fraction stands alone. Otherwise the fraction has an
/// implicit leading bit, and each step of the exponent doubles the value.
/// The exponent 2047 with fraction 0, which is infinity, gets the value
/// that the next doubling would reach, above every finite one.
pub open spec fn absolute_value(e: nat, f: nat) -> nat {
    if e == 0 {
        f
    } else {
        (pow2(52) + f) * pow2((e - 1) as nat)
    }
}

/// The number that a pattern stands for, in units of the smallest positive
/// number. Both zeros have the value 0.
pub open spec fn scaled_value(bits: u64) -> int {
    if is_negative(bits) {
        -(absolute_value(exponent(bits), fraction(bits)) as int)
    } else {
        absolute_value(exponent(bits), fraction(bits)) as int
    }
}

/// A larger exponent, or an equal exponent with a larger fraction, gives a
/// larger absolute value.
proof fn lemma_absolute_value_increases(e1: nat, f1: nat, e2: nat, f2: nat)
    requires
        f1 < pow2(52),
        f2 < pow2(52),
        e1 < e2 || (e1 == e2 && f1 < f2),
    ensures
        absolute_value(e1, f1) < absolute_value(e2, f2),
{
    lemma_pow2_pos(52);
    if e1 == e2 {
        if e1 > 0 {
            let unit = pow2((e1 - 1) as nat) as int;
            lemma_pow2_pos((e1 - 1) as nat);
            lemma_mul_strict_inequality((pow2(52) + f1) as int, (pow2(52) + f2) as int, unit);
        }
    } else {
        let unit2 = pow2((e2 - 1) as nat) as int;
        lemma_pow2_pos((e2 - 1) as nat);
        // The larger value is at least 2^52 times its unit.
        lemma_mul_inequality(pow2(52) as int, (pow2(52) + f2) as int, unit2);
        assert(pow2(52) * unit2 <= absolute_value(e2, f2));
        if e1 == 0 {
            lemma_mul_inequality(1, unit2, pow2(52) as int);
            assert(pow2(52) * 1 <= pow2(52) * unit2) by {
                assert(unit2 * pow2(52) == pow2(52) * unit2) by (nonlinear_arith);
                assert(1 * pow2(52) == pow2(52) * 1) by (nonlinear_arith);
            }
        } else {
            let unit1 = pow2((e1 - 1) as nat) as int;
            lemma_pow2_pos((e1 - 1) as nat);
            // The smaller value is below 2^53 times its unit, and the units
            // differ by a factor of two at least.
            lemma_mul_strict_inequality((pow2(52) + f1) as int, (2 * pow2(52)) as int, unit1);
            assert(absolute_value(e1, f1) < (2 * pow2(52)) * unit1);
            assert(2 * unit1 <= unit2) by {
                assert(pow2(e1) == 2 * pow2((e1 - 1) as nat)) by {
                    vstd::arithmetic::power2::lemma_pow2_unfold(e1);
                }
                if e1 < e2 - 1 {
                    lemma_pow2_strictly_increases(e1, (e2 - 1) as nat);
                }
            }
            lemma_mul_inequality(2 * unit1, unit2, pow2(52) as int);
            assert((2 * pow2(52)) * unit1 == (2 * unit1) * pow2(52)) by (nonlinear_arith);
            assert(unit2 * pow2(52) == pow2(52) * unit2) by (nonlinear_arith);
        }
    }
}

/// A pattern without its sign is its exponent, 52 bits up, plus its
/// fraction.
proof fn lemma_magnitude_parts(bits: u64)
    ensures
        magnitude(bits) == exponent(bits) * 0x10_0000_0000_0000 + fraction(bits),
        fraction(bits) < 0x10_0000_0000_0000,
        fraction(bits) < pow2(52),
        exponent(bits) <= 2047,
{
    let m = bits & 0x7fff_ffff_ffff_ffff;
    let e = (bits >> 52) & 0x7ff;
    let f = bits & 0x000f_ffff_ffff_ffff;
    assert(m == e * 0x10_0000_0000_0000 + f && f < 0x10_0000_0000_0000 && e <= 2047)
        by (bit_vector)
        requires
            m == bits & 0x7fff_ffff_ffff_ffff,
            e == (bits >> 52) & 0x7ff,
            f == bits & 0x000f_ffff_ffff_ffff,
    ;
    lemma2_to64();
    vstd::arithmetic::power2::lemma2_to64_rest();
}

/// Without their signs, two patterns are ordered as integers just as the
/// absolute values of their numbers are.
proof fn lemma_magnitude_orders_values(a: u64, b: u64)
    ensures
        magnitude(a) < magnitude(b) <==> absolute_value(exponent(a), fraction(a)) < absolute_value(
            exponent(b),
            fraction(b),
        ),
        magnitude(a) == magnitude(b) <==> absolute_value(exponent(a), fraction(a)) == absolute_value(
            exponent(b),
            fraction(b),
        ),
{
    lemma_magnitude_parts(a);
    lemma_magnitude_parts(b);
    let (ea, fa) = (exponent(a), fraction(a));
    let (eb, fb) = (exponent(b), fraction(b));
    if ea < eb || (ea == eb && fa < fb) {
        lemma_absolute_value_increases(ea, fa, eb, fb);
    } else if eb < ea || (eb == ea && fb < fa) {
        lemma_absolute_value_increases(eb, fb, ea, fa);
    }
}

/// The absolute value of a number is not negative, and is zero only for the
/// patterns of zero.
pub proof fn lemma_value_of_zero(bits: u64)
    ensures
        absolute_value(exponent(bits), fraction(bits)) >= 0,
        absolute_value(exponent(bits), fraction(bits)) == 0 <==> magnitude(bits) == 0,
{
    lemma_magnitude_parts(bits);
    lemma_magnitude_parts(0);
    assert(0u64 & 0x7fff_ffff_ffff_ffff == 0) by (bit_vector);
    assert((0u64 >> 52) & 0x7ff == 0) by (bit_vector);
    assert(0u64 & 0x000f_ffff_ffff_ffff == 0) by (bit_vector);
    lemma_magnitude_orders_values(0, bits);
}

/// The keys order patterns as their numbers are ordered: of two patterns
/// that stand for numbers, one has the smaller key exactly where it stands
/// for the smaller number, and the keys are equal exactly where the numbers
/// are.
pub proof fn lemma_score_orders_values(a: u64, b: u64)
    requires
        !is_nan(a),
        !is_nan(b),
    ensures
        score(a).unwrap() < score(b).unwrap() <==> scaled_value(a) < scaled_value(b),
        score(a).unwrap() == score(b).unwrap() <==> scaled_value(a) == scaled_value(b),
{
    lemma_magnitude_orders_values(a, b);
    lemma_magnitude_orders_values(b, a);
    lemma_value_of_zero(a);
    lemma_value_of_zero(b);
    assert(magnitude(a) <= 0x7fff_ffff_ffff_ffff) by (bit_vector);
    assert(magnitude(b) <= 0x7fff_ffff_ffff_ffff) by (bit_vector);
}

} // verus!
