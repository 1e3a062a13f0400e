//! How budgets grow: with the length, and with the rate.

use crate::rate::{round_to_significand, significand_unit, ErrorRate, SIGNIFICAND_LIMIT};
use vstd::arithmetic::div_mod::{
    lemma_div_by_multiple,
    lemma_div_denominator,
    lemma_div_is_ordered,
    lemma_div_multiples_vanish_quotient,
    lemma_fundamental_div_mod,
    lemma_mod_bound,
    lemma_truncate_middle,
};
use vstd::arithmetic::mul::{lemma_mul_inequality, lemma_mul_is_associative};
use vstd::arithmetic::power2::{lemma_pow2_adds, lemma_pow2_pos, pow2};
use vstd::prelude::*;

verus! {

/// The multiple of `unit` nearest to `x`, and of two equally near ones the
/// even multiple.
pub open spec fn nearest(x: nat, unit: nat) -> nat {
    let whole = x / unit;
    let rest = x % unit;
    if 2 * rest < unit || (2 * rest == unit && whole % 2 == 0) {
        whole * unit
    } else {
        whole * unit + unit
    }
}

/// `scaled` of a rate, as a function of the rounded product and the
/// exponent.
pub open spec fn apply_scale(product: nat, exponent: int) -> nat {
    if exponent >= 0 {
        product * pow2(exponent as nat)
    } else {
        product / pow2((-exponent) as nat)
    }
}

/// Rounding to a binary64 number is rounding to the nearest multiple of the
/// spacing.
proof fn lemma_round_is_nearest(x: nat)
    ensures
        round_to_significand(x) == nearest(x, significand_unit(x)),
        significand_unit(x) >= 1,
{
    lemma_unit_bounds(x);
    let unit = significand_unit(x);
    lemma_fundamental_div_mod(x as int, unit as int);
    lemma_mod_bound(x as int, unit as int);
    let whole = x / unit;
    let rest = x % unit;
    assert(unit * whole == whole * unit) by (nonlinear_arith);
    assert((x - rest) as nat == whole * unit);
    lemma_div_by_multiple(whole as int, unit as int);
}

/// The spacing around `x` leaves `x` with at most 53 bits, and with exactly
/// that many where it is above 1.
proof fn lemma_unit_bounds(x: nat)
    ensures
        significand_unit(x) >= 1,
        x < SIGNIFICAND_LIMIT * significand_unit(x),
        x < SIGNIFICAND_LIMIT <==> significand_unit(x) == 1,
        x >= SIGNIFICAND_LIMIT ==> 2 * x >= SIGNIFICAND_LIMIT * significand_unit(x),
    decreases x,
{
    if x >= SIGNIFICAND_LIMIT {
        lemma_unit_bounds(x / 2);
        let half = significand_unit(x / 2);
        assert(SIGNIFICAND_LIMIT * (2 * half) == 2 * (SIGNIFICAND_LIMIT * half))
            by (nonlinear_arith);
    } else {
        assert(SIGNIFICAND_LIMIT * 1 == SIGNIFICAND_LIMIT) by (nonlinear_arith);
    }
}

/// The spacing grows with the number, and by doubling.
proof fn lemma_unit_grows(x: nat, y: nat)
    requires
        x <= y,
    ensures
        significand_unit(x) <= significand_unit(y),
        significand_unit(x) < significand_unit(y) ==> 2 * significand_unit(x) <= significand_unit(
            y,
        ),
    decreases y,
{
    lemma_unit_bounds(x);
    lemma_unit_bounds(y);
    if x >= SIGNIFICAND_LIMIT {
        lemma_unit_grows(x / 2, y / 2);
    }
}

/// The nearest multiple lies between the multiple below and the one above.
proof fn lemma_nearest_bounds(x: nat, unit: nat)
    requires
        unit >= 1,
    ensures
        (x / unit) * unit <= nearest(x, unit) <= (x / unit) * unit + unit,
        (x / unit) * unit <= x < (x / unit) * unit + unit,
        x % unit == 0 ==> nearest(x, unit) == x,
{
    lemma_fundamental_div_mod(x as int, unit as int);
    lemma_mod_bound(x as int, unit as int);
    assert(unit * (x / unit) == (x / unit) * unit) by (nonlinear_arith);
}

/// Rounding to multiples of one unit keeps order.
proof fn lemma_nearest_monotone(x: nat, y: nat, unit: nat)
    requires
        x <= y,
        unit >= 1,
    ensures
        nearest(x, unit) <= nearest(y, unit),
{
    lemma_nearest_bounds(x, unit);
    lemma_nearest_bounds(y, unit);
    lemma_fundamental_div_mod(x as int, unit as int);
    lemma_fundamental_div_mod(y as int, unit as int);
    lemma_mod_bound(x as int, unit as int);
    lemma_mod_bound(y as int, unit as int);
    lemma_div_is_ordered(x as int, y as int, unit as int);
    let a = x / unit;
    let b = y / unit;
    assert(unit * a == a * unit && unit * b == b * unit) by (nonlinear_arith);
    if a < b {
        assert((a + 1) * unit <= b * unit) by (nonlinear_arith)
            requires
                a + 1 <= b,
                unit >= 1,
        ;
        assert((a + 1) * unit == a * unit + unit) by (nonlinear_arith);
    }
}

/// Doubling the number and the unit doubles the nearest multiple.
proof fn lemma_nearest_double(x: nat, unit: nat)
    requires
        unit >= 1,
    ensures
        nearest(2 * x, 2 * unit) == 2 * nearest(x, unit),
{
    lemma_truncate_middle(x as int, 2, unit as int);
    lemma_div_multiples_vanish_quotient(2, x as int, unit as int);
    let whole = x / unit;
    assert(whole * (2 * unit) == 2 * (whole * unit)) by (nonlinear_arith);
}

/// Doubling a number doubles what it rounds to.
proof fn lemma_round_double(x: nat)
    ensures
        round_to_significand(2 * x) == 2 * round_to_significand(x),
{
    lemma_round_is_nearest(x);
    lemma_round_is_nearest(2 * x);
    lemma_unit_bounds(x);
    lemma_unit_bounds(2 * x);
    if 2 * x < SIGNIFICAND_LIMIT {
        lemma_nearest_bounds(x, 1);
        lemma_nearest_bounds(2 * x, 1);
    } else if x < SIGNIFICAND_LIMIT {
        assert((2 * x) / 2 == x);
        assert(significand_unit(2 * x) == 2 * significand_unit(x));
        lemma_nearest_double(x, 1);
    } else {
        assert((2 * x) / 2 == x);
        lemma_nearest_double(x, significand_unit(x));
    }
}

/// Scaling a number by a power of two scales what it rounds to.
pub proof fn lemma_round_scale(x: nat, shift: nat)
    ensures
        round_to_significand(x * pow2(shift)) == round_to_significand(x) * pow2(shift),
    decreases shift,
{
    vstd::arithmetic::power2::lemma2_to64();
    if shift == 0 {
        assert(x * 1 == x) by (nonlinear_arith);
        assert(round_to_significand(x) * 1 == round_to_significand(x)) by (nonlinear_arith);
    } else {
        let less = (shift - 1) as nat;
        lemma_round_scale(x, less);
        vstd::arithmetic::power2::lemma_pow2_unfold(shift);
        lemma_round_double(x * pow2(less));
        assert(x * (2 * pow2(less)) == 2 * (x * pow2(less))) by (nonlinear_arith);
        assert(round_to_significand(x) * (2 * pow2(less)) == 2 * (round_to_significand(x) * pow2(
            less,
        ))) by (nonlinear_arith);
    }
}

/// Rounding keeps order.
pub proof fn lemma_round_monotone(x: nat, y: nat)
    requires
        x <= y,
    ensures
        round_to_significand(x) <= round_to_significand(y),
{
    lemma_round_is_nearest(x);
    lemma_round_is_nearest(y);
    lemma_unit_grows(x, y);
    let u = significand_unit(x);
    let v = significand_unit(y);
    if u == v {
        lemma_nearest_monotone(x, y, u);
    } else {
        lemma_unit_bounds(x);
        lemma_unit_bounds(y);
        lemma_nearest_bounds(x, u);
        lemma_nearest_bounds(y, v);
        let a = x / u;
        let b = y / v;
        // x rounds to no more than 2^53 u, which is no more than 2^52 v, and
        // y has at least 2^52 whole units.
        assert(a < SIGNIFICAND_LIMIT) by (nonlinear_arith)
            requires
                a * u <= x,
                x < SIGNIFICAND_LIMIT * u,
                u >= 1,
        ;
        assert(a * u + u <= SIGNIFICAND_LIMIT * u) by (nonlinear_arith)
            requires
                a + 1 <= SIGNIFICAND_LIMIT,
                u >= 1,
        ;
        assert(2 * b >= SIGNIFICAND_LIMIT - 1) by (nonlinear_arith)
            requires
                2 * y >= SIGNIFICAND_LIMIT * v,
                y < b * v + v,
                v >= 1,
        ;
        assert(SIGNIFICAND_LIMIT * u <= b * v) by (nonlinear_arith)
            requires
                2 * u <= v,
                2 * b >= SIGNIFICAND_LIMIT,
                u >= 1,
        ;
    }
}

/// A number with at most 53 bits, scaled by a power of two, rounds to
/// itself.
proof fn lemma_round_exact(x: nat, shift: nat)
    requires
        x < SIGNIFICAND_LIMIT,
    ensures
        round_to_significand(x * pow2(shift)) == x * pow2(shift),
{
    lemma_round_scale(x, shift);
    lemma_round_is_nearest(x);
    lemma_unit_bounds(x);
    lemma_nearest_bounds(x, 1);
}

/// Applying a scale keeps order.
proof fn lemma_apply_scale_monotone(a: nat, b: nat, exponent: int)
    requires
        a <= b,
    ensures
        apply_scale(a, exponent) <= apply_scale(b, exponent),
{
    if exponent >= 0 {
        lemma_mul_inequality(a as int, b as int, pow2(exponent as nat) as int);
    } else {
        lemma_pow2_pos((-exponent) as nat);
        lemma_div_is_ordered(a as int, b as int, pow2((-exponent) as nat) as int);
    }
}

/// A power of two moves between the product and the exponent.
proof fn lemma_apply_scale_shift(product: nat, shift: nat, exponent: int)
    ensures
        apply_scale(product * pow2(shift), exponent) == apply_scale(product, exponent + shift),
{
    lemma_pow2_pos(shift);
    if exponent >= 0 {
        lemma_pow2_adds(shift, exponent as nat);
        lemma_mul_is_associative(product as int, pow2(shift) as int, pow2(exponent as nat) as int);
    } else {
        let down = (-exponent) as nat;
        lemma_pow2_pos(down);
        if shift >= down {
            let left = (shift - down) as nat;
            lemma_pow2_adds(left, down);
            lemma_mul_is_associative(product as int, pow2(left) as int, pow2(down) as int);
            lemma_div_by_multiple((product * pow2(left)) as int, pow2(down) as int);
        } else {
            let left = (down - shift) as nat;
            lemma_pow2_adds(shift, left);
            lemma_pow2_pos(left);
            lemma_div_by_multiple(product as int, pow2(shift) as int);
            lemma_div_denominator(
                (product * pow2(shift)) as int,
                pow2(shift) as int,
                pow2(left) as int,
            );
        }
    }
}

impl ErrorRate {
    /// Whether the rate is no larger than `other`.
    pub open spec fn at_most(self, other: ErrorRate) -> bool {
        if self.exponent() <= other.exponent() {
            self.mantissa() <= other.mantissa() * pow2((other.exponent() - self.exponent()) as nat)
        } else {
            self.mantissa() * pow2((self.exponent() - other.exponent()) as nat) <= other.mantissa()
        }
    }

    /// Whether the rate is no larger than 1.
    pub open spec fn at_most_one(self) -> bool {
        self.exponent() <= 0 && self.mantissa() <= pow2((-self.exponent()) as nat)
    }

    /// The rounded product of a length and the significand of the rate.
    pub open spec fn product(self, length: nat) -> nat {
        round_to_significand(round_to_significand(length) * self.mantissa())
    }

    /// A longer sequence is allowed no fewer errors.
    pub proof fn lemma_budget_grows_with_length(self, shorter: nat, longer: nat)
        requires
            shorter <= longer,
        ensures
            self.budget(shorter) <= self.budget(longer),
    {
        lemma_round_monotone(shorter, longer);
        lemma_mul_inequality(
            round_to_significand(shorter) as int,
            round_to_significand(longer) as int,
            self.mantissa() as int,
        );
        lemma_round_monotone(
            round_to_significand(shorter) * self.mantissa(),
            round_to_significand(longer) * self.mantissa(),
        );
        lemma_apply_scale_monotone(self.product(shorter), self.product(longer), self.exponent());
    }

    /// A larger rate allows no fewer errors.
    pub proof fn lemma_budget_grows_with_rate(self, larger: ErrorRate, length: nat)
        requires
            self.at_most(larger),
        ensures
            self.budget(length) <= larger.budget(length),
    {
        let rounded = round_to_significand(length);
        if self.exponent() <= larger.exponent() {
            let shift = (larger.exponent() - self.exponent()) as nat;
            lemma_mul_inequality(
                self.mantissa() as int,
                (larger.mantissa() * pow2(shift)) as int,
                rounded as int,
            );
            assert(rounded * self.mantissa() == self.mantissa() * rounded) by (nonlinear_arith);
            assert((larger.mantissa() * pow2(shift)) * rounded == (rounded * larger.mantissa())
                * pow2(shift)) by (nonlinear_arith);
            lemma_round_monotone(
                rounded * self.mantissa(),
                (rounded * larger.mantissa()) * pow2(shift),
            );
            lemma_round_scale(rounded * larger.mantissa(), shift);
            lemma_apply_scale_monotone(
                self.product(length),
                larger.product(length) * pow2(shift),
                self.exponent(),
            );
            lemma_apply_scale_shift(larger.product(length), shift, self.exponent());
        } else {
            let shift = (self.exponent() - larger.exponent()) as nat;
            lemma_mul_inequality(
                (self.mantissa() * pow2(shift)) as int,
                larger.mantissa() as int,
                rounded as int,
            );
            assert(rounded * larger.mantissa() == larger.mantissa() * rounded)
                by (nonlinear_arith);
            assert((self.mantissa() * pow2(shift)) * rounded == (rounded * self.mantissa()) * pow2(
                shift,
            )) by (nonlinear_arith);
            lemma_round_monotone(
                (rounded * self.mantissa()) * pow2(shift),
                rounded * larger.mantissa(),
            );
            lemma_round_scale(rounded * self.mantissa(), shift);
            lemma_apply_scale_monotone(
                self.product(length) * pow2(shift),
                larger.product(length),
                larger.exponent(),
            );
            lemma_apply_scale_shift(self.product(length), shift, larger.exponent());
        }
    }

    /// A rate of at most 1 allows no more errors than there are positions,
    /// on every length that a binary64 number holds exactly.
    pub proof fn lemma_budget_within_length(self, length: nat)
        requires
            self.at_most_one(),
            length < SIGNIFICAND_LIMIT,
        ensures
            self.budget(length) <= length,
    {
        let down = (-self.exponent()) as nat;
        lemma_round_exact(length, 0);
        vstd::arithmetic::power2::lemma2_to64();
        assert(length * 1 == length) by (nonlinear_arith);
        assert(round_to_significand(length) == length);
        lemma_mul_inequality(self.mantissa() as int, pow2(down) as int, length as int);
        assert(length * self.mantissa() == self.mantissa() * length) by (nonlinear_arith);
        assert(length * pow2(down) == pow2(down) * length) by (nonlinear_arith);
        lemma_round_monotone(length * self.mantissa(), length * pow2(down));
        lemma_round_exact(length, down);
        lemma_apply_scale_monotone(self.product(length), length * pow2(down), self.exponent());
        lemma_apply_scale_shift(length, down, self.exponent());
        assert(apply_scale(length, 0) == length * pow2(0));
    }
}

} // verus!
