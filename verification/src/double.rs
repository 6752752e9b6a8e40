//! IEEE 754 numbers by their bit patterns: what a viewer decides about a
//! number without computing with it.
use vstd::arithmetic::power2::{lemma2_to64, lemma_pow2_adds, lemma_pow2_pos, lemma_pow2_unfold, pow2};
use vstd::prelude::*;

verus! {

/// The bit of a double that holds its sign.
pub const SIGN: u64 = 0x8000_0000_0000_0000;

/// The magnitude bits of an infinite double.
pub const INFINITE: u64 = 0x7FF0_0000_0000_0000;

/// The bits of zero.
pub const ZERO: u64 = 0;

/// The bits of one.
pub const ONE: u64 = 0x3FF0_0000_0000_0000;

/// The bits of a double without its sign.
pub open spec fn magnitude(bits: u64) -> int {
    (bits % 0x8000_0000_0000_0000) as int
}

/// Whether the bits are those of a number that is not one.
pub open spec fn nan(bits: u64) -> bool {
    magnitude(bits) > INFINITE
}

/// Whether the bits are those of a finite number.
pub open spec fn finite(bits: u64) -> bool {
    magnitude(bits) < INFINITE
}

/// An integer by which doubles that are numbers are ordered. The two zeros
/// share one.
pub open spec fn order_key(bits: u64) -> int {
    if bits < SIGN {
        magnitude(bits)
    } else {
        -magnitude(bits)
    }
}

/// `a < b` for doubles: never so where one is not a number.
pub open spec fn below(a: u64, b: u64) -> bool {
    !nan(a) && !nan(b) && order_key(a) < order_key(b)
}

/// `a == b` for doubles: never so where one is not a number.
pub open spec fn equal(a: u64, b: u64) -> bool {
    !nan(a) && !nan(b) && order_key(a) == order_key(b)
}

/// Whether the bits are those of a number that is not one.
pub fn is_nan(bits: u64) -> (result: bool)
    ensures
        result == nan(bits),
{
    bits % SIGN > INFINITE
}

/// Whether the bits are those of a finite number.
pub fn is_finite(bits: u64) -> (result: bool)
    ensures
        result == finite(bits),
{
    bits % SIGN < INFINITE
}

/// `a < b` for doubles.
pub fn is_below(a: u64, b: u64) -> (result: bool)
    ensures
        result == below(a, b),
{
    if is_nan(a) || is_nan(b) {
        return false;
    }
    let x: u64 = a % SIGN;
    let y: u64 = b % SIGN;
    if a < SIGN {
        b < SIGN && x < y
    } else if b < SIGN {
        x != 0 || y != 0
    } else {
        y < x
    }
}

/// `a == b` for doubles.
pub fn is_equal(a: u64, b: u64) -> (result: bool)
    ensures
        result == equal(a, b),
{
    !is_nan(a) && !is_nan(b) && !is_below(a, b) && !is_below(b, a)
}

/// The magnitude of a finite double, counted in units of the smallest
/// positive one.
pub open spec fn units(bits: u64) -> nat {
    let exponent = magnitude(bits) / 0x10_0000_0000_0000;
    let fraction = magnitude(bits) % 0x10_0000_0000_0000;
    if exponent == 0 {
        fraction as nat
    } else {
        ((0x10_0000_0000_0000 + fraction) * pow2((exponent - 1) as nat)) as nat
    }
}

/// The magnitude of a finite single, counted in units of the smallest
/// positive one.
pub open spec fn single_units(bits: u32) -> nat {
    let exponent = bits / 0x80_0000 % 0x100;
    let fraction = bits % 0x80_0000;
    if exponent == 0 {
        fraction as nat
    } else {
        ((0x80_0000 + fraction) * pow2((exponent - 1) as nat)) as nat
    }
}

/// The order by bits is the order by value: of two finite doubles of one
/// sign, the one with the larger magnitude bits is the larger.
pub proof fn law_magnitude_orders_values(a: u64, b: u64)
    requires
        finite(a),
        finite(b),
        magnitude(a) < magnitude(b),
    ensures
        units(a) < units(b),
{
    let ea = magnitude(a) / 0x10_0000_0000_0000;
    let fa = magnitude(a) % 0x10_0000_0000_0000;
    let eb = magnitude(b) / 0x10_0000_0000_0000;
    let fb = magnitude(b) % 0x10_0000_0000_0000;
    assert(magnitude(a) == ea * 0x10_0000_0000_0000 + fa);
    assert(magnitude(b) == eb * 0x10_0000_0000_0000 + fb);
    assert(ea <= eb);
    lemma2_to64();
    if ea == eb {
        if ea > 0 {
            lemma_pow2_pos((ea - 1) as nat);
            let p = pow2((ea - 1) as nat) as int;
            assert((0x10_0000_0000_0000 + fa) * p < (0x10_0000_0000_0000 + fb) * p)
                by (nonlinear_arith)
                requires
                    fa < fb,
                    p > 0,
            ;
        }
    } else {
        lemma_pow2_pos((eb - 1) as nat);
        let q = pow2((eb - 1) as nat) as int;
        assert((0x10_0000_0000_0000 + fb) * q >= 0x10_0000_0000_0000 * q) by (nonlinear_arith)
            requires
                fb >= 0,
                q > 0,
        ;
        if ea > 0 {
            lemma_pow2_pos((ea - 1) as nat);
            let p = pow2((ea - 1) as nat) as int;
            lemma_pow2_adds((ea - 1) as nat, (eb - ea) as nat);
            let r = pow2((eb - ea) as nat) as int;
            lemma_pow2_unfold((eb - ea) as nat);
            lemma_pow2_pos((eb - ea - 1) as nat);
            assert(r >= 2);
            assert((0x10_0000_0000_0000 + fa) * p < 0x10_0000_0000_0000 * q) by (nonlinear_arith)
                requires
                    q == p * r,
                    r >= 2,
                    p > 0,
                    fa < 0x10_0000_0000_0000,
            ;
        }
    }
}

/// Doubles a significand until its leading bit stands at bit 23, with the
/// exponent going down as often.
pub open spec fn normalized(significand: nat, exponent: int) -> (nat, int)
    decreases 0x100_0000 - significand,
{
    if significand == 0 || significand >= 0x80_0000 {
        (significand, exponent)
    } else {
        normalized(2 * significand, exponent - 1)
    }
}

/// The double of a single: the same number in more bits. One that is not a
/// number stays so, made quiet.
pub open spec fn widened(bits: u32) -> u64 {
    let sign = bits / 0x8000_0000;
    let exponent = bits / 0x80_0000 % 0x100;
    let fraction = bits % 0x80_0000;
    let rest = if exponent == 0xFF {
        0x7FF0_0000_0000_0000 + fraction * 0x2000_0000 + if 0 < fraction < 0x40_0000 {
            0x8_0000_0000_0000int
        } else {
            0
        }
    } else if exponent > 0 {
        (exponent + 896) * 0x10_0000_0000_0000 + fraction * 0x2000_0000
    } else if fraction == 0 {
        0
    } else {
        let (significand, e) = normalized(fraction as nat, 897);
        e * 0x10_0000_0000_0000 + (significand - 0x80_0000) * 0x2000_0000
    };
    (sign * 0x8000_0000_0000_0000 + rest) as u64
}

/// What normalizing keeps: the significand times two to the exponent.
proof fn lemma_normalized(significand: nat, exponent: int)
    requires
        0 < significand < 0x100_0000,
    ensures
        0x80_0000 <= normalized(significand, exponent).0 < 0x100_0000,
        exponent - 23 <= normalized(significand, exponent).1 <= exponent,
        significand < 0x80_0000 ==> normalized(significand, exponent).1 < exponent,
        exists|j: nat|
            {
                &&& normalized(significand, exponent).0 == significand * #[trigger] pow2(j)
                &&& normalized(significand, exponent).1 == exponent - j
            },
{
    lemma2_to64();
    assert(significand * pow2(0) == significand);
    lemma_normalized_steps(significand, exponent, significand, 0);
}

proof fn lemma_normalized_steps(start: nat, exponent: int, significand: nat, j: nat)
    requires
        0 < start,
        0 < significand < 0x100_0000,
        significand == start * pow2(j),
        j <= 23,
        pow2(j) <= significand,
        j > 0 ==> start * 2 <= significand,
    ensures
        ({
            let (s, e) = normalized(significand, exponent - j);
            &&& 0x80_0000 <= s < 0x100_0000
            &&& exponent - 23 <= e <= exponent - j
            &&& significand < 0x80_0000 ==> e < exponent - j
            &&& exists|k: nat| s == start * #[trigger] pow2(k) && e == exponent - k
        }),
    decreases 0x100_0000 - significand,
{
    if significand < 0x80_0000 {
        lemma2_to64();
        if j == 23 {
            assert(pow2(23) == 0x80_0000);
        }
        lemma_pow2_unfold(j + 1);
        assert(2 * significand == start * pow2(j + 1)) by (nonlinear_arith)
            requires
                significand == start * pow2(j),
                pow2(j + 1) == 2 * pow2(j),
        ;
        lemma_normalized_steps(start, exponent, 2 * significand, j + 1);
    } else {
        assert(significand == start * pow2(j) && exponent - j == exponent - j);
    }
}

/// Widening keeps the number: finite stays finite, with the same sign and
/// the same value; infinite stays infinite and what is no number stays none.
pub proof fn law_widened_keeps_the_number(bits: u32)
    ensures
        bits / 0x80_0000 % 0x100 < 0xFF ==> finite(widened(bits)),
        bits / 0x80_0000 % 0x100 < 0xFF ==> units(widened(bits)) == single_units(bits) * pow2(925),
        bits / 0x80_0000 % 0x100 == 0xFF && bits % 0x80_0000 == 0 ==> magnitude(widened(bits))
            == INFINITE,
        bits / 0x80_0000 % 0x100 == 0xFF && bits % 0x80_0000 != 0 ==> nan(widened(bits)),
        widened(bits) >= SIGN <==> bits >= 0x8000_0000,
{
    let sign = (bits / 0x8000_0000) as int;
    let exponent = (bits / 0x80_0000 % 0x100) as int;
    let fraction = (bits % 0x80_0000) as int;
    assert(sign == 0 || sign == 1);
    lemma2_to64();
    if exponent == 0xFF {
    } else if exponent > 0 {
        let rest = (exponent + 896) * 0x10_0000_0000_0000 + fraction * 0x2000_0000;
        assert(magnitude(widened(bits)) == rest);
        assert(rest / 0x10_0000_0000_0000 == exponent + 896);
        assert(rest % 0x10_0000_0000_0000 == fraction * 0x2000_0000);
        lemma_pow2_adds((exponent - 1) as nat, 925);
        lemma_pow2_adds(29, (exponent + 895) as nat);
        let p = pow2((exponent - 1) as nat) as int;
        let w = pow2((exponent + 895) as nat) as int;
        let q = pow2(925) as int;
        assert(pow2(29) == 0x2000_0000);
        assert(pow2((exponent + 924) as nat) == p * q);
        assert(pow2((exponent + 924) as nat) == 0x2000_0000 * w);
        assert((0x10_0000_0000_0000 + fraction * 0x2000_0000) * w == ((0x80_0000 + fraction) * p)
            * q) by (nonlinear_arith)
            requires
                0x2000_0000 * w == p * q,
        ;
    } else if fraction == 0 {
        assert(0 * pow2(925) == 0) by (nonlinear_arith);
    } else {
        lemma_normalized(fraction as nat, 897);
        let (s, e) = normalized(fraction as nat, 897);
        let j = choose|j: nat| s == (fraction as nat) * #[trigger] pow2(j) && e == 897 - j;
        let rest = e * 0x10_0000_0000_0000 + (s - 0x80_0000) * 0x2000_0000;
        assert(874 <= e <= 896);
        assert(magnitude(widened(bits)) == rest);
        assert(rest / 0x10_0000_0000_0000 == e);
        assert(rest % 0x10_0000_0000_0000 == (s - 0x80_0000) * 0x2000_0000);
        let w = pow2((e - 1) as nat) as int;
        lemma_pow2_adds(29, (e - 1) as nat);
        lemma_pow2_adds(j, (e + 28) as nat);
        assert(j + (e + 28) == 925);
        let f = fraction;
        let pj = pow2(j) as int;
        assert(pow2(29) == 0x2000_0000);
        assert(pow2(925) == pj * (0x2000_0000 * w));
        assert((0x10_0000_0000_0000 + (s - 0x80_0000) * 0x2000_0000) * w == f * (pj * (0x2000_0000
            * w))) by (nonlinear_arith)
            requires
                s == f * pj,
        ;
    }
}

/// Widens a single to a double.
pub fn widen(bits: u32) -> (double: u64)
    ensures
        double == widened(bits),
{
    let sign: u64 = (bits / 0x8000_0000) as u64;
    let exponent: u64 = (bits / 0x80_0000 % 0x100) as u64;
    let fraction: u64 = (bits % 0x80_0000) as u64;
    let rest: u64 = if exponent == 0xFF {
        let quiet: u64 = if 0 < fraction && fraction < 0x40_0000 {
            0x8_0000_0000_0000
        } else {
            0
        };
        0x7FF0_0000_0000_0000 + fraction * 0x2000_0000 + quiet
    } else if exponent > 0 {
        (exponent + 896) * 0x10_0000_0000_0000 + fraction * 0x2000_0000
    } else if fraction == 0 {
        0
    } else {
        proof {
            lemma_normalized(fraction as nat, 897);
        }
        let mut significand: u64 = fraction;
        let mut e: u64 = 897;
        while significand < 0x80_0000
            invariant
                0 < significand < 0x100_0000,
                normalized(significand as nat, e as int) == normalized(fraction as nat, 897),
                normalized(fraction as nat, 897).1 >= 874,
                e <= 897,
                significand < 0x80_0000 ==> e > normalized(fraction as nat, 897).1,
            decreases 0x100_0000 - significand,
        {
            significand = significand * 2;
            e = e - 1;
            proof {
                if significand < 0x80_0000 {
                    lemma_normalized(significand as nat, e as int);
                }
            }
        }
        e * 0x10_0000_0000_0000 + (significand - 0x80_0000) * 0x2000_0000
    };
    sign * 0x8000_0000_0000_0000 + rest
}

/// The integer part of a double as a 64-bit integer: what is no number
/// becomes zero, what is out of range the nearest end of it.
pub open spec fn truncated(bits: u64) -> i64 {
    let whole = units(bits) / pow2(1074);
    if nan(bits) {
        0
    } else if bits < SIGN {
        if !finite(bits) || whole > i64::MAX {
            i64::MAX
        } else {
            whole as i64
        }
    } else {
        if !finite(bits) || whole > i64::MAX {
            i64::MIN
        } else {
            (-(whole as int)) as i64
        }
    }
}

/// The integer part of a finite double, by its exponent.
proof fn lemma_whole_part(bits: u64)
    requires
        finite(bits),
    ensures
        ({
            let exponent = magnitude(bits) / 0x10_0000_0000_0000;
            let significand = 0x10_0000_0000_0000 + magnitude(bits) % 0x10_0000_0000_0000;
            let whole = units(bits) / pow2(1074);
            &&& exponent < 1023 ==> whole == 0
            &&& 1023 <= exponent < 1075 ==> whole == significand / pow2((1075 - exponent) as nat) as int
            &&& 1075 <= exponent < 1086 ==> whole == significand * pow2((exponent - 1075) as nat)
                && whole <= i64::MAX
            &&& exponent >= 1086 ==> whole > i64::MAX
        }),
{
    let exponent = magnitude(bits) / 0x10_0000_0000_0000;
    let fraction = magnitude(bits) % 0x10_0000_0000_0000;
    let significand = 0x10_0000_0000_0000 + fraction;
    lemma2_to64();
    vstd::arithmetic::power2::lemma2_to64_rest();
    lemma_pow2_pos(1074);
    let all = pow2(1074) as int;
    if exponent == 0 {
        lemma_pow2_adds(52, 1022);
        lemma_pow2_pos(1022);
        assert(pow2(1074) >= 0x10_0000_0000_0000) by (nonlinear_arith)
            requires
                pow2(1074) == pow2(52) * pow2(1022),
                pow2(52) == 0x10_0000_0000_0000,
                pow2(1022) >= 1,
        ;
        vstd::arithmetic::div_mod::lemma_basic_div(fraction, all);
    } else if exponent < 1075 {
        let k = (1075 - exponent) as nat;
        let p = pow2((exponent - 1) as nat) as int;
        let d = pow2(k) as int;
        lemma_pow2_pos((exponent - 1) as nat);
        lemma_pow2_pos(k);
        lemma_pow2_adds((exponent - 1) as nat, k);
        assert(all == p * d);
        vstd::arithmetic::div_mod::lemma_div_multiples_vanish_quotient(p, significand, d);
        assert(significand * p == p * significand) by (nonlinear_arith);
        if exponent < 1023 {
            lemma_pow2_adds(53, (k - 53) as nat);
            lemma_pow2_pos((k - 53) as nat);
            assert(d >= 0x20_0000_0000_0000) by (nonlinear_arith)
                requires
                    d == pow2(53) * pow2((k - 53) as nat),
                    pow2(53) == 0x20_0000_0000_0000,
                    pow2((k - 53) as nat) >= 1,
            ;
            vstd::arithmetic::div_mod::lemma_basic_div(significand, d);
        }
    } else {
        let k = (exponent - 1075) as nat;
        let q = pow2(k) as int;
        lemma_pow2_adds(1074, k);
        assert(units(bits) == significand * (all * q));
        assert(significand * (all * q) == (significand * q) * all) by (nonlinear_arith);
        vstd::arithmetic::div_mod::lemma_div_multiples_vanish(significand * q, all);
        if exponent >= 1086 {
            lemma_pow2_adds(11, (k - 11) as nat);
            lemma_pow2_pos((k - 11) as nat);
            assert(significand * q > i64::MAX) by (nonlinear_arith)
                requires
                    q == pow2(11) * pow2((k - 11) as nat),
                    pow2(11) == 0x800,
                    pow2((k - 11) as nat) >= 1,
                    significand >= 0x10_0000_0000_0000,
            ;
        } else {
            assert(q <= 0x400) by {
                vstd::arithmetic::power2::lemma_pow2_strictly_increases(k, 11);
            }
            assert(significand * q <= 0x1F_FFFF_FFFF_FFFF * 0x400) by (nonlinear_arith)
                requires
                    0 < q <= 0x400,
                    0 < significand <= 0x1F_FFFF_FFFF_FFFF,
            ;
        }
    }
}

/// The integer part of a double, saturating.
pub fn truncate_to_i64(bits: u64) -> (result: i64)
    ensures
        result == truncated(bits),
{
    if is_nan(bits) {
        return 0;
    }
    let negative: bool = bits >= SIGN;
    let magnitude_bits: u64 = bits % SIGN;
    let exponent: u64 = magnitude_bits / 0x10_0000_0000_0000;
    let significand: u64 = 0x10_0000_0000_0000 + magnitude_bits % 0x10_0000_0000_0000;
    proof {
        if finite(bits) {
            lemma_whole_part(bits);
        }
    }
    if exponent >= 1086 {
        return if negative {
            i64::MIN
        } else {
            i64::MAX
        };
    }
    let whole: u64 = if exponent < 1023 {
        0
    } else if exponent < 1075 {
        let shift: u64 = 1075 - exponent;
        proof {
            vstd::bits::lemma_u64_shr_is_div(significand, shift);
        }
        let whole: u64 = significand >> shift;
        assert(significand >> shift <= significand) by (bit_vector);
        whole
    } else {
        let shift: u64 = exponent - 1075;
        proof {
            vstd::bits::lemma_u64_shl_is_mul(significand, shift);
        }
        significand << shift
    };
    if negative {
        -(whole as i64)
    } else {
        whole as i64
    }
}

/// The magnitude of a finite double, rounded to the nearest integer (halves
/// away from zero); what is out of range becomes the end of it.
pub open spec fn rounded(bits: u64) -> u64 {
    let whole = units(bits) / pow2(1074);
    let rest = units(bits) % pow2(1074);
    let nearest = if 2 * rest >= pow2(1074) {
        whole + 1
    } else {
        whole
    };
    if nearest > u64::MAX {
        u64::MAX
    } else {
        nearest as u64
    }
}

/// Whether the fraction of a finite double is a half or more, by its
/// exponent.
proof fn lemma_half_part(bits: u64)
    requires
        finite(bits),
    ensures
        ({
            let exponent = magnitude(bits) / 0x10_0000_0000_0000;
            let significand = 0x10_0000_0000_0000 + magnitude(bits) % 0x10_0000_0000_0000;
            let half = 2 * (units(bits) % pow2(1074)) >= pow2(1074);
            &&& exponent < 1022 ==> !half
            &&& 1022 <= exponent < 1075 ==> half == (2 * (significand % pow2(
                (1075 - exponent) as nat,
            ) as int) >= pow2((1075 - exponent) as nat))
            &&& exponent >= 1075 ==> !half
        }),
{
    let exponent = magnitude(bits) / 0x10_0000_0000_0000;
    let fraction = magnitude(bits) % 0x10_0000_0000_0000;
    let significand = 0x10_0000_0000_0000 + fraction;
    lemma2_to64();
    vstd::arithmetic::power2::lemma2_to64_rest();
    lemma_pow2_pos(1074);
    let all = pow2(1074) as int;
    if exponent == 0 {
        lemma_pow2_adds(54, 1020);
        lemma_pow2_pos(1020);
        assert(pow2(1074) > 2 * 0x10_0000_0000_0000) by (nonlinear_arith)
            requires
                pow2(1074) == pow2(54) * pow2(1020),
                pow2(54) == 0x40_0000_0000_0000,
                pow2(1020) >= 1,
        ;
        vstd::arithmetic::div_mod::lemma_small_mod(fraction as nat, all as nat);
    } else if exponent < 1075 {
        let k = (1075 - exponent) as nat;
        let p = pow2((exponent - 1) as nat) as int;
        let d = pow2(k) as int;
        lemma_pow2_pos((exponent - 1) as nat);
        lemma_pow2_pos(k);
        lemma_pow2_adds((exponent - 1) as nat, k);
        assert(all == p * d);
        let q = significand / d;
        let r = significand % d;
        vstd::arithmetic::div_mod::lemma_fundamental_div_mod(significand, d);
        assert(significand == d * q + r);
        assert(units(bits) == significand * p);
        assert(significand * p == all * q + p * r) by (nonlinear_arith)
            requires
                significand == d * q + r,
                all == p * d,
        ;
        assert(0 <= p * r < all) by (nonlinear_arith)
            requires
                0 <= r < d,
                p >= 1,
                all == p * d,
        ;
        vstd::arithmetic::div_mod::lemma_fundamental_div_mod_converse(
            units(bits) as int,
            all,
            q,
            p * r,
        );
        assert((2 * (p * r) >= all) == (2 * r >= d)) by (nonlinear_arith)
            requires
                p >= 1,
                all == p * d,
        ;
        if exponent < 1022 {
            lemma_pow2_adds(54, (k - 54) as nat);
            lemma_pow2_pos((k - 54) as nat);
            assert(d >= 0x40_0000_0000_0000) by (nonlinear_arith)
                requires
                    d == pow2(54) * pow2((k - 54) as nat),
                    pow2(54) == 0x40_0000_0000_0000,
                    pow2((k - 54) as nat) >= 1,
            ;
            vstd::arithmetic::div_mod::lemma_small_mod(significand as nat, d as nat);
        }
    } else {
        let k = (exponent - 1075) as nat;
        let q = pow2(k) as int;
        lemma_pow2_adds(1074, k);
        assert(units(bits) == significand * (all * q));
        assert(significand * (all * q) == (significand * q) * all) by (nonlinear_arith);
        vstd::arithmetic::div_mod::lemma_mod_multiples_basic(significand * q, all);
    }
}

/// The integer part of a finite double of the largest exponent that an
/// unsigned integer holds, and beyond.
proof fn lemma_large_whole_part(bits: u64)
    requires
        finite(bits),
        magnitude(bits) / 0x10_0000_0000_0000 >= 1086,
    ensures
        ({
            let exponent = magnitude(bits) / 0x10_0000_0000_0000;
            let significand = 0x10_0000_0000_0000 + magnitude(bits) % 0x10_0000_0000_0000;
            let whole = units(bits) / pow2(1074);
            &&& exponent == 1086 ==> whole == significand * 0x800
            &&& exponent > 1086 ==> whole > u64::MAX
        }),
{
    let exponent = magnitude(bits) / 0x10_0000_0000_0000;
    let significand = 0x10_0000_0000_0000 + magnitude(bits) % 0x10_0000_0000_0000;
    let all = pow2(1074) as int;
    let k = (exponent - 1075) as nat;
    let q = pow2(k) as int;
    lemma2_to64();
    lemma_pow2_pos(1074);
    lemma_pow2_adds(1074, k);
    assert(units(bits) == significand * (all * q));
    assert(significand * (all * q) == (significand * q) * all) by (nonlinear_arith);
    vstd::arithmetic::div_mod::lemma_div_multiples_vanish(significand * q, all);
    if exponent > 1086 {
        lemma_pow2_adds(12, (k - 12) as nat);
        lemma_pow2_pos((k - 12) as nat);
        assert(significand * q > u64::MAX) by (nonlinear_arith)
            requires
                q == pow2(12) * pow2((k - 12) as nat),
                pow2(12) == 0x1000,
                pow2((k - 12) as nat) >= 1,
                significand >= 0x10_0000_0000_0000,
        ;
    }
}

/// The magnitude of a finite double, rounded to the nearest integer.
pub fn round_to_u64(bits: u64) -> (result: u64)
    requires
        finite(bits),
    ensures
        result == rounded(bits),
{
    let magnitude_bits: u64 = bits % SIGN;
    let exponent: u64 = magnitude_bits / 0x10_0000_0000_0000;
    let significand: u64 = 0x10_0000_0000_0000 + magnitude_bits % 0x10_0000_0000_0000;
    proof {
        lemma_whole_part(bits);
        lemma_half_part(bits);
        if exponent >= 1086 {
            lemma_large_whole_part(bits);
        }
    }
    if exponent < 1022 {
        return 0;
    }
    if exponent >= 1075 {
        if exponent > 1086 {
            return u64::MAX;
        }
        let shift: u64 = exponent - 1075;
        proof {
            if exponent < 1086 {
                vstd::bits::lemma_u64_shl_is_mul(significand, shift);
            }
        }
        if exponent == 1086 {
            return significand * 0x800;
        }
        return significand << shift;
    }
    let shift: u64 = 1075 - exponent;
    proof {
        vstd::bits::lemma_u64_shr_is_div(significand, shift);
        lemma2_to64();
        vstd::arithmetic::power2::lemma2_to64_rest();
        vstd::bits::lemma_u64_shl_is_mul(1, shift);
        if shift < 53 {
            vstd::arithmetic::power2::lemma_pow2_strictly_increases(shift as nat, 53);
        }
    }
    let whole: u64 = significand >> shift;
    assert(significand >> shift <= significand) by (bit_vector);
    let one: u64 = 1u64 << shift;
    assert(one == pow2(shift as nat));
    let rest: u64 = significand % one;
    if exponent == 1022 {
        proof {
            vstd::arithmetic::div_mod::lemma_basic_div(significand as int, one as int);
        }
    }
    if rest >= one - rest {
        whole + 1
    } else {
        whole
    }
}

} // verus!
