//! The phase slot of a sample: the floor of a number, taken from its bit
//! pattern, as far as the phase bins need it.
use crate::score::{is_negative, magnitude, MAGNITUDE_MASK};
use crate::value::{absolute_value, exponent, fraction, lemma_value_of_zero, scaled_value};
use vstd::arithmetic::div_mod::{
    lemma_basic_div, lemma_div_multiples_vanish, lemma_div_multiples_vanish_quotient,
    lemma_fundamental_div_mod, lemma_fundamental_div_mod_converse, lemma_mod_bound,
    lemma_mod_multiples_basic,
    lemma_mod_pos_bound, lemma_mul_mod_noop_right, lemma_small_mod, lemma_truncate_middle,
};
use vstd::arithmetic::mul::lemma_mul_strict_inequality;
use vstd::arithmetic::power2::{
    lemma2_to64, lemma2_to64_rest, lemma_pow2_adds, lemma_pow2_pos, lemma_pow2_strictly_increases,
    lemma_pow2_unfold, pow2,
};
use vstd::bits::{lemma_u64_shl_is_mul, lemma_u64_shr_is_div};
use vstd::prelude::*;

verus! {

/// The lowest 52 bits of a pattern.
pub const FRACTION_MASK: u64 = 0x000f_ffff_ffff_ffff;

/// The leading bit that a fraction has in all but the smallest numbers.
pub const IMPLICIT_BIT: u64 = 0x0010_0000_0000_0000;

/// The pattern stands for a finite number: neither an infinity nor no
/// number at all.
pub open spec fn is_finite(bits: u64) -> bool {
    magnitude(bits) < 0x7ff0_0000_0000_0000
}

/// The absolute value of the number behind a pattern, in units of the
/// smallest positive number.
pub open spec fn scaled_size(bits: u64) -> int {
    absolute_value(exponent(bits), fraction(bits)) as int
}

/// The phase slot of a product of time and scale: its floor, the largest
/// whole number that is not above it. The floor of -0.5 is -1.
pub open spec fn slot(bits: u64) -> int {
    scaled_value(bits) / (pow2(1074) as int)
}

/// The phase slot is the floor of the number, for negative numbers too: the
/// number lies at or above its slot and below the next one.
pub proof fn lemma_slot_is_floor(bits: u64)
    ensures
        slot(bits) * pow2(1074) <= scaled_value(bits) < (slot(bits) + 1) * pow2(1074),
{
    let full = pow2(1074) as int;
    let v = scaled_value(bits);
    lemma_pow2_pos(1074);
    lemma_fundamental_div_mod(v, full);
    lemma_mod_bound(v, full);
    assert(full * (v / full) == (v / full) * full) by (nonlinear_arith);
    assert((v / full + 1) * full == (v / full) * full + full) by (nonlinear_arith);
}

/// The floor of a negated number: the negated quotient, one lower where the
/// division leaves a remainder.
pub proof fn lemma_floor_of_negative(a: int, d: int)
    requires
        0 <= a,
        0 < d,
    ensures
        (-a) / d == if a % d == 0 {
            -(a / d)
        } else {
            -(a / d) - 1
        },
{
    let q = a / d;
    let r = a % d;
    lemma_fundamental_div_mod(a, d);
    lemma_mod_pos_bound(a, d);
    if r == 0 {
        assert(-a == (-q) * d + 0) by (nonlinear_arith)
            requires
                a == d * q + 0,
        ;
        lemma_fundamental_div_mod_converse(-a, d, -q, 0);
    } else {
        assert(-a == (-q - 1) * d + (d - r)) by (nonlinear_arith)
            requires
                a == d * q + r,
        ;
        lemma_fundamental_div_mod_converse(-a, d, -q - 1, d - r);
    }
}

/// The remainder of a negated number: what the remainder of the number
/// lacks of the divisor.
pub proof fn lemma_modulo_of_negative(t: int, n: int)
    requires
        0 <= t,
        0 < n,
    ensures
        (-t) % n == if t % n == 0 {
            0
        } else {
            n - t % n
        },
{
    let q = t / n;
    let r = t % n;
    lemma_fundamental_div_mod(t, n);
    lemma_mod_pos_bound(t, n);
    if r == 0 {
        assert(-t == (-q) * n + 0) by (nonlinear_arith)
            requires
                t == n * q + 0,
        ;
        lemma_fundamental_div_mod_converse(-t, n, -q, 0);
    } else {
        assert(-t == (-q - 1) * n + (n - r)) by (nonlinear_arith)
            requires
                t == n * q + r,
        ;
        lemma_fundamental_div_mod_converse(-t, n, -q - 1, n - r);
    }
}

/// The remainder of the next number: one more, or 0 where the divisor is
/// reached.
pub proof fn lemma_modulo_of_successor(t: int, n: int)
    requires
        0 <= t,
        0 < n,
    ensures
        (t + 1) % n == if t % n + 1 == n {
            0
        } else {
            t % n + 1
        },
{
    let q = t / n;
    let r = t % n;
    lemma_fundamental_div_mod(t, n);
    lemma_mod_pos_bound(t, n);
    if r + 1 == n {
        assert(t + 1 == (q + 1) * n + 0) by (nonlinear_arith)
            requires
                t == n * q + r,
                r + 1 == n,
        ;
        lemma_fundamental_div_mod_converse(t + 1, n, q + 1, 0);
    } else {
        assert(t + 1 == q * n + (r + 1)) by (nonlinear_arith)
            requires
                t == n * q + r,
        ;
        lemma_fundamental_div_mod_converse(t + 1, n, q, r + 1);
    }
}

/// The whole part of an absolute value and what is left of it, for each
/// range of the exponent: nothing whole below one, the leading bits of the
/// fraction up to 2^53, and the fraction shifted up, with nothing left,
/// beyond.
proof fn lemma_whole_part_by_exponent(e: nat, f: nat)
    requires
        f < pow2(52),
    ensures
        e < 1023 ==> absolute_value(e, f) as int / (pow2(1074) as int) == 0 && absolute_value(
            e,
            f,
        ) as int % (pow2(1074) as int) == absolute_value(e, f),
        1023 <= e <= 1075 ==> absolute_value(e, f) as int / (pow2(1074) as int) == (pow2(52)
            + f) as int / (pow2((1075 - e) as nat) as int),
        1023 <= e <= 1075 ==> (absolute_value(e, f) as int % (pow2(1074) as int) == 0 <==> (
        pow2(52) + f) as int % (pow2((1075 - e) as nat) as int) == 0),
        1075 < e ==> absolute_value(e, f) as int / (pow2(1074) as int) == (pow2(52) + f) * pow2(
            (e - 1075) as nat,
        ),
        1075 < e ==> absolute_value(e, f) as int % (pow2(1074) as int) == 0,
{
    let full = pow2(1074) as int;
    let m = (pow2(52) + f) as int;
    lemma_pow2_pos(1074);
    lemma_pow2_pos(52);
    if e == 0 {
        lemma_pow2_strictly_increases(52, 1074);
        lemma_basic_div(f as int, full);
        lemma_small_mod(f, pow2(1074));
    } else if e < 1023 {
        let unit = pow2((e - 1) as nat) as int;
        lemma_pow2_pos((e - 1) as nat);
        lemma_pow2_unfold(53);
        lemma_mul_strict_inequality(m, pow2(53) as int, unit);
        lemma_pow2_adds(53, (e - 1) as nat);
        if 52 + e < 1074 {
            lemma_pow2_strictly_increases(52 + e, 1074);
        }
        assert(absolute_value(e, f) == m * unit);
        lemma_basic_div(m * unit, full);
        lemma_small_mod((m * unit) as nat, pow2(1074));
    } else if e <= 1075 {
        let unit = pow2((e - 1) as nat) as int;
        let cut = pow2((1075 - e) as nat) as int;
        lemma_pow2_pos((e - 1) as nat);
        lemma_pow2_pos((1075 - e) as nat);
        lemma_pow2_adds((e - 1) as nat, (1075 - e) as nat);
        assert(full == unit * cut);
        lemma_div_multiples_vanish_quotient(unit, m, cut);
        assert(m * unit == unit * m) by (nonlinear_arith);
        lemma_truncate_middle(m, unit, cut);
        lemma_mod_pos_bound(m, cut);
        assert(unit * (m % cut) == 0 <==> m % cut == 0) by (nonlinear_arith)
            requires
                unit > 0,
                m % cut >= 0,
        ;
    } else {
        let up = pow2((e - 1075) as nat) as int;
        lemma_pow2_adds(1074, (e - 1075) as nat);
        assert(pow2((e - 1) as nat) == full * up);
        assert(m * (full * up) == full * (m * up)) by (nonlinear_arith);
        lemma_div_multiples_vanish(m * up, full);
        assert(full * (m * up) == (m * up) * full) by (nonlinear_arith);
        lemma_mod_multiples_basic(m * up, full);
    }
}

/// Computes the whole part of the absolute value of a finite number,
/// modulo `n`, and says whether the number is whole.
pub fn whole_modulo(product: u64, n: u64) -> (out: (u64, bool))
    requires
        n > 0,
        is_finite(product),
    ensures
        out.0 == (scaled_size(product) / (pow2(1074) as int)) % (n as int),
        out.0 < n,
        out.1 == (scaled_size(product) % (pow2(1074) as int) == 0),
{
    let mag: u64 = product & MAGNITUDE_MASK;
    let e: u64 = mag >> 52;
    let frac: u64 = mag & FRACTION_MASK;
    let m: u64 = frac | IMPLICIT_BIT;
    proof {
        assert(e == (product >> 52) & 0x7ff && frac == product & 0x000f_ffff_ffff_ffff && m
            == 0x0010_0000_0000_0000 + frac && frac < 0x0010_0000_0000_0000 && (mag
            < 0x7ff0_0000_0000_0000 ==> e < 2047)) by (bit_vector)
            requires
                mag == product & 0x7fff_ffff_ffff_ffff,
                e == mag >> 52,
                frac == mag & 0x000f_ffff_ffff_ffff,
                m == frac | 0x0010_0000_0000_0000,
        ;
        lemma2_to64();
        lemma2_to64_rest();
        assert(e == exponent(product));
        assert(frac == fraction(product));
        assert(m == pow2(52) + fraction(product));
        lemma_whole_part_by_exponent(exponent(product), fraction(product));
        lemma_value_of_zero(product);
        lemma_pow2_pos(1074);
    }
    if e < 1023 {
        proof {
            lemma_small_mod(0, n as nat);
        }
        (0, mag == 0)
    } else if e <= 1075 {
        let down: u64 = 1075 - e;
        let q: u64 = m >> down;
        proof {
            let cut = pow2(down as nat) as int;
            lemma_pow2_pos(down as nat);
            lemma_u64_shr_is_div(m, down);
            lemma_fundamental_div_mod(m as int, cut);
            lemma_mod_pos_bound(m as int, cut);
            assert(q * cut == cut * q) by (nonlinear_arith);
            lemma_u64_shl_is_mul(q, down);
        }
        let back: u64 = q << down;
        (q % n, back == m)
    } else {
        let up: u64 = e - 1075;
        let mut r: u64 = m % n;
        let mut i: u64 = 0;
        proof {
            lemma2_to64();
            assert(m * pow2(0) == m) by (nonlinear_arith)
                requires
                    pow2(0) == 1,
            ;
        }
        while i < up
            invariant
                i <= up,
                n > 0,
                r < n,
                r == (m * pow2(i as nat)) % (n as int),
            decreases up - i,
        {
            proof {
                let x = m * pow2(i as nat);
                lemma_pow2_unfold((i + 1) as nat);
                assert(m * pow2((i + 1) as nat) == 2 * x) by (nonlinear_arith)
                    requires
                        pow2((i + 1) as nat) == 2 * pow2(i as nat),
                        x == m * pow2(i as nat),
                ;
                lemma_mul_mod_noop_right(2, x, n as int);
            }
            let wide: u128 = (r as u128 * 2) % (n as u128);
            r = wide as u64;
            i += 1;
        }
        (r, true)
    }
}

} // verus!
