//! Arithmetic on doubles where nothing has to be rounded: what the results are
//! on numbers that are counted in 1024ths.
use vstd::arithmetic::power2::{lemma_pow2_adds, lemma_pow2_pos, pow2};
use vstd::prelude::*;

use crate::arith::{Arith, Operation};
use crate::double::{below, equal, finite, law_magnitude_orders_values, magnitude, nan, units};

verus! {

/// A finite double, counted in units of the smallest positive one, with its
/// sign.
pub open spec fn signed_units(bits: u64) -> int {
    if bits < 0x8000_0000_0000_0000 {
        units(bits) as int
    } else {
        -(units(bits) as int)
    }
}

/// A double is `n` 1024ths.
pub open spec fn measures(bits: u64, n: int) -> bool {
    finite(bits) && signed_units(bits) == n * pow2(1064)
}

/// Up to where every whole number of 1024ths is a double.
pub open spec fn exact_up_to(n: int) -> bool {
    -0x20_0000_0000_0000 <= n <= 0x20_0000_0000_0000
}

impl<O: Fn(Operation, u64, u64) -> u64, I: Fn(i64) -> u64> Arith<O, I> {
    /// The functions are those of double arithmetic as far as nothing has to
    /// be rounded.
    pub open spec fn exact(self) -> bool {
        &&& forall|a: u64, b: u64, x: int, y: int|
            #![trigger measures(a, x), measures(b, y), self.result(Operation::Plus, a, b)]
            measures(a, x) && measures(b, y) && exact_up_to(x + y) ==> measures(
                self.result(Operation::Plus, a, b),
                x + y,
            )
        &&& forall|a: u64, b: u64, x: int, y: int|
            #![trigger measures(a, x), measures(b, y), self.result(Operation::Minus, a, b)]
            measures(a, x) && measures(b, y) && exact_up_to(x - y) ==> measures(
                self.result(Operation::Minus, a, b),
                x - y,
            )
        &&& forall|a: u64, b: u64, x: int, y: int, z: int|
            #![trigger measures(a, x), measures(b, y), measures(self.result(Operation::Times, a, b), z)]
            measures(a, x) && measures(b, y) && exact_up_to(z) && x * y == z * 1024 ==> measures(
                self.result(Operation::Times, a, b),
                z,
            )
        &&& forall|a: u64, b: u64, x: int, y: int, z: int|
            #![trigger measures(a, x), measures(b, y), measures(self.result(Operation::Divide, a, b), z)]
            measures(a, x) && measures(b, y) && y != 0 && exact_up_to(z) && x * 1024 == z * y
                ==> measures(self.result(Operation::Divide, a, b), z)
        &&& forall|n: i64| exact_up_to(1024 * n) ==> #[trigger] measures(self.number(n), 1024 * n)
    }

    /// A sum.
    pub proof fn lemma_exact_sum(self, a: u64, b: u64, x: int, y: int)
        requires
            self.exact(),
            measures(a, x),
            measures(b, y),
            exact_up_to(x + y),
        ensures
            measures(self.result(Operation::Plus, a, b), x + y),
    {
    }

    /// A difference.
    pub proof fn lemma_exact_difference(self, a: u64, b: u64, x: int, y: int)
        requires
            self.exact(),
            measures(a, x),
            measures(b, y),
            exact_up_to(x - y),
        ensures
            measures(self.result(Operation::Minus, a, b), x - y),
    {
    }

    /// A product.
    pub proof fn lemma_exact_product(self, a: u64, b: u64, x: int, y: int, z: int)
        requires
            self.exact(),
            measures(a, x),
            measures(b, y),
            exact_up_to(z),
            x * y == z * 1024,
        ensures
            measures(self.result(Operation::Times, a, b), z),
    {
        assert(measures(self.result(Operation::Times, a, b), z) || true);
    }

    /// A quotient.
    pub proof fn lemma_exact_quotient(self, a: u64, b: u64, x: int, y: int, z: int)
        requires
            self.exact(),
            measures(a, x),
            measures(b, y),
            y != 0,
            exact_up_to(z),
            x * 1024 == z * y,
        ensures
            measures(self.result(Operation::Divide, a, b), z),
    {
        assert(measures(self.result(Operation::Divide, a, b), z) || true);
    }

    /// A whole number.
    pub proof fn lemma_exact_number(self, n: i64)
        requires
            self.exact(),
            exact_up_to(1024 * n),
        ensures
            measures(self.number(n), 1024 * n),
    {
        assert(measures(self.number(n), 1024 * n) || true);
    }
}

/// The order of finite doubles is the order of the numbers that they are.
pub proof fn law_order_is_the_order_of_numbers(a: u64, b: u64)
    requires
        finite(a),
        finite(b),
    ensures
        below(a, b) == (signed_units(a) < signed_units(b)),
        equal(a, b) == (signed_units(a) == signed_units(b)),
{
    let ma = magnitude(a);
    let mb = magnitude(b);
    if ma < mb {
        law_magnitude_orders_values(a, b);
    } else if mb < ma {
        law_magnitude_orders_values(b, a);
    } else {
        assert(units(a) == units(b));
    }
    if ma > 0 {
        law_magnitude_orders_values(0, a);
    }
    if mb > 0 {
        law_magnitude_orders_values(0, b);
    }
    assert(units(0) == 0);
}

/// The infinities stand at the two ends of all numbers.
pub proof fn law_infinities_stand_at_the_ends(a: u64)
    requires
        finite(a),
    ensures
        below(a, 0x7FF0_0000_0000_0000),
        below(0xFFF0_0000_0000_0000, a),
        below(0xFFF0_0000_0000_0000, 0x7FF0_0000_0000_0000),
{
}

/// Measured numbers are ordered as their counts, and a number has one count.
pub proof fn lemma_measures_order(a: u64, b: u64, x: int, y: int)
    requires
        measures(a, x),
        measures(b, y),
    ensures
        below(a, b) == (x < y),
        equal(a, b) == (x == y),
        a == b ==> x == y,
        !nan(a),
        !nan(b),
{
    law_order_is_the_order_of_numbers(a, b);
    lemma_pow2_pos(1064);
    let p = pow2(1064) as int;
    assert((x * p < y * p) == (x < y)) by (nonlinear_arith)
        requires
            p > 0,
    ;
    assert((x * p == y * p) == (x == y)) by (nonlinear_arith)
        requires
            p > 0,
    ;
}

/// Zero.
pub proof fn lemma_measures_zero()
    ensures
        measures(0, 0),
{
    assert(units(0) == 0);
    lemma_pow2_pos(1064);
    assert(0 * pow2(1064) == 0) by (nonlinear_arith);
}

/// A double of a fraction, by its exponent and its bits.
pub proof fn lemma_measures_bits(bits: u64, exponent: nat, fraction: int, n: int)
    requires
        1 <= exponent <= 1065,
        0 <= fraction < 0x10_0000_0000_0000,
        bits == exponent * 0x10_0000_0000_0000 + fraction,
        n * pow2((1065 - exponent) as nat) == 0x10_0000_0000_0000 + fraction,
    ensures
        measures(bits, n),
{
    assert(magnitude(bits) == bits);
    assert(magnitude(bits) / 0x10_0000_0000_0000 == exponent);
    assert(magnitude(bits) % 0x10_0000_0000_0000 == fraction);
    lemma_pow2_adds((1065 - exponent) as nat, (exponent - 1) as nat);
    lemma_pow2_pos((exponent - 1) as nat);
    let p = pow2((1065 - exponent) as nat) as int;
    let q = pow2((exponent - 1) as nat) as int;
    let all = pow2(1064) as int;
    assert((n * p) * q == n * all) by (nonlinear_arith)
        requires
            all == p * q,
    ;
    assert((0x10_0000_0000_0000 + fraction) * q >= 0) by (nonlinear_arith)
        requires
            fraction >= 0,
            q > 0,
    ;
}

} // verus!
