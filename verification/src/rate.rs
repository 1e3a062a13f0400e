//! Error rates.
//!
//! A rate is a binary64 number, taken apart into an integer significand and
//! a power of two. How many errors a rate allows on a given length is the
//! product of the two as binary64 arithmetic rounds it, cut to a whole
//! number. Everything here is integer arithmetic.

use std::cmp::Ordering;
use vstd::arithmetic::div_mod::{
    lemma_div_denominator,
    lemma_div_is_ordered_by_denominator,
    lemma_fundamental_div_mod,
};
use vstd::arithmetic::mul::lemma_mul_inequality;
use vstd::arithmetic::power2::{
    lemma2_to64,
    lemma_pow2_pos,
    lemma_pow2_strictly_increases,
    lemma_pow2_unfold,
    pow2,
};
use vstd::prelude::*;
use vstd::std_specs::cmp::PartialOrdSpecImpl;

verus! {

/// Two to the power 53. A binary64 significand is a whole number below it.
pub const SIGNIFICAND_LIMIT: u128 = 0x20_0000_0000_0000;

/// Two to the power 52: the weight of the hidden bit of a normal number.
pub const HIDDEN_BIT: u64 = 0x10_0000_0000_0000;

/// The bit pattern of negative zero.
pub const NEGATIVE_ZERO: u64 = 0x8000_0000_0000_0000;

/// The bit pattern of positive infinity: the patterns below it are the
/// finite numbers that are not negative.
pub const INFINITY: u64 = 0x7ff0_0000_0000_0000;

/// The spacing of the binary64 numbers around `x`: the power of two that
/// leaves `x` with at most 53 significant bits.
pub open spec fn significand_unit(x: nat) -> nat
    decreases x,
{
    if x < SIGNIFICAND_LIMIT {
        1
    } else {
        2 * significand_unit(x / 2)
    }
}

/// The binary64 number nearest to the whole number `x`: the nearest multiple
/// of the spacing around `x`, and of two equally near multiples the even one.
pub open spec fn round_to_significand(x: nat) -> nat {
    let unit = significand_unit(x);
    let rest = x % unit;
    let down = (x - rest) as nat;
    if 2 * rest < unit || (2 * rest == unit && (down / unit) % 2 == 0) {
        down
    } else {
        down + unit
    }
}

/// Whether `bits` is the pattern of a binary64 number that can be a rate:
/// finite, and zero or positive.
pub open spec fn is_rate_bits(bits: u64) -> bool {
    bits < INFINITY || bits == NEGATIVE_ZERO
}

/// The exponent field of a bit pattern.
pub open spec fn bits_exponent_field(bits: u64) -> nat {
    ((bits / HIDDEN_BIT) % 2048) as nat
}

/// The significand of the number with pattern `bits`, as a whole number.
pub open spec fn bits_mantissa(bits: u64) -> nat {
    if bits_exponent_field(bits) == 0 {
        (bits % HIDDEN_BIT) as nat
    } else {
        (bits % HIDDEN_BIT + HIDDEN_BIT) as nat
    }
}

/// The power of two by which the significand of `bits` is scaled.
pub open spec fn bits_exponent(bits: u64) -> int {
    if bits_exponent_field(bits) == 0 {
        -1074
    } else {
        bits_exponent_field(bits) - 1075
    }
}

/// A maximum error rate: the number `mantissa() * 2^exponent()`.
#[derive(Clone, Copy, Debug, PartialEq, Eq, Structural)]
pub struct ErrorRate {
    mantissa: u64,
    exponent: i32,
}

impl ErrorRate {
    #[verifier::type_invariant]
    spec fn within_format(self) -> bool {
        if self.exponent == -1074 {
            self.mantissa < SIGNIFICAND_LIMIT
        } else {
            HIDDEN_BIT <= self.mantissa < SIGNIFICAND_LIMIT && -1074 < self.exponent <= 971
        }
    }

    /// The significand of the rate.
    pub closed spec fn mantissa(self) -> nat {
        self.mantissa as nat
    }

    /// The power of two that scales the significand.
    pub closed spec fn exponent(self) -> int {
        self.exponent as int
    }

    /// The product of `length` and the rate as binary64 arithmetic gives it,
    /// cut to a whole number: the length is rounded to a binary64 number, the
    /// product of the two significands is rounded again, and the scale is
    /// applied.
    pub open spec fn scaled(self, length: nat) -> nat {
        let product = round_to_significand(round_to_significand(length) * self.mantissa());
        if self.exponent() >= 0 {
            product * pow2(self.exponent() as nat)
        } else {
            product / pow2((-self.exponent()) as nat)
        }
    }

    /// The number of errors that the rate allows on `length` positions:
    /// `scaled(length)`, or the largest `usize` where that is smaller.
    pub open spec fn budget(self, length: nat) -> nat {
        if self.scaled(length) <= usize::MAX {
            self.scaled(length)
        } else {
            usize::MAX as nat
        }
    }

    /// The rate whose binary64 bit pattern is `bits`, if the pattern is that
    /// of a finite number that is not negative. Negative zero counts as zero.
    pub fn from_bits(bits: u64) -> (rate: Option<ErrorRate>)
        ensures
            rate is Some <==> is_rate_bits(bits),
            rate matches Some(r) ==> r.mantissa() == bits_mantissa(bits) && r.exponent()
                == bits_exponent(bits),
    {
        if bits >= INFINITY && bits != NEGATIVE_ZERO {
            return None;
        }
        let field: u64 = (bits / HIDDEN_BIT) % 2048;
        let fraction: u64 = bits % HIDDEN_BIT;
        if field == 0 {
            Some(ErrorRate { mantissa: fraction, exponent: -1074 })
        } else {
            Some(ErrorRate { mantissa: fraction + HIDDEN_BIT, exponent: field as i32 - 1075 })
        }
    }

    /// The binary64 bit pattern of the rate.
    pub fn to_bits(&self) -> (bits: u64)
        ensures
            is_rate_bits(bits),
            bits < INFINITY,
            bits_mantissa(bits) == self.mantissa(),
            bits_exponent(bits) == self.exponent(),
    {
        proof {
            use_type_invariant(self);
        }
        if self.mantissa < HIDDEN_BIT {
            self.mantissa
        } else {
            let field: u64 = (self.exponent + 1075) as u64;
            field * HIDDEN_BIT + (self.mantissa - HIDDEN_BIT)
        }
    }

    /// The number of errors that the rate allows on `length` positions.
    pub fn max_errors(&self, length: usize) -> (k: usize)
        ensures
            k == self.budget(length as nat),
    {
        proof {
            use_type_invariant(self);
        }
        let rounded_length = round_to_precision(length as u128);
        assert(rounded_length * self.mantissa <= 0x2_0000_0000_0000_0000 * 0x20_0000_0000_0000)
            by (nonlinear_arith)
            requires
                rounded_length <= 0x2_0000_0000_0000_0000,
                self.mantissa <= 0x20_0000_0000_0000,
        ;
        let product = round_to_precision(rounded_length * (self.mantissa as u128));
        if self.exponent >= 0 {
            scale_up(product, self.exponent as u32)
        } else {
            scale_down(product, (-self.exponent) as u32)
        }
    }
}

/// Rates are ordered as the numbers that they stand for.
impl PartialOrd for ErrorRate {
    fn partial_cmp(&self, other: &Self) -> (order: Option<Ordering>) {
        proof {
            use_type_invariant(self);
            use_type_invariant(other);
            lemma_order_by_parts(*self, *other);
            lemma_order_by_parts(*other, *self);
        }
        if self.exponent < other.exponent || (self.exponent == other.exponent && self.mantissa
            < other.mantissa) {
            Some(Ordering::Less)
        } else if self.exponent == other.exponent && self.mantissa == other.mantissa {
            Some(Ordering::Equal)
        } else {
            Some(Ordering::Greater)
        }
    }
}

impl PartialOrdSpecImpl for ErrorRate {
    open spec fn obeys_partial_cmp_spec() -> bool {
        true
    }

    open spec fn partial_cmp_spec(&self, other: &Self) -> Option<Ordering> {
        if !self.at_most(*other) {
            Some(Ordering::Greater)
        } else if other.at_most(*self) {
            Some(Ordering::Equal)
        } else {
            Some(Ordering::Less)
        }
    }
}

/// Of two rates in the binary64 format, the one with the lower exponent is
/// the lower, and of two with the same exponent the one with the lower
/// significand.
proof fn lemma_order_by_parts(low: ErrorRate, high: ErrorRate)
    requires
        low.within_format(),
        high.within_format(),
    ensures
        low.at_most(high) <==> (low.exponent() < high.exponent() || (low.exponent()
            == high.exponent() && low.mantissa() <= high.mantissa())),
{
    lemma2_to64();
    if low.exponent() < high.exponent() {
        let shift = (high.exponent() - low.exponent()) as nat;
        lemma_pow2_unfold(shift);
        lemma_pow2_pos((shift - 1) as nat);
        assert(high.mantissa() * pow2(shift) >= SIGNIFICAND_LIMIT) by (nonlinear_arith)
            requires
                high.mantissa() >= HIDDEN_BIT,
                pow2(shift) >= 2,
        ;
    } else if low.exponent() > high.exponent() {
        let shift = (low.exponent() - high.exponent()) as nat;
        lemma_pow2_unfold(shift);
        lemma_pow2_pos((shift - 1) as nat);
        assert(low.mantissa() * pow2(shift) >= SIGNIFICAND_LIMIT) by (nonlinear_arith)
            requires
                low.mantissa() >= HIDDEN_BIT,
                pow2(shift) >= 2,
        ;
    } else {
        assert(high.mantissa() * 1 == high.mantissa()) by (nonlinear_arith);
    }
}

/// Rounds a whole number to the nearest binary64 number.
fn round_to_precision(x: u128) -> (rounded: u128)
    requires
        x < 0x100_0000_0000_0000_0000_0000_0000_0000,
    ensures
        rounded == round_to_significand(x as nat),
        rounded <= 2 * x,
{
    let mut unit: u128 = 1;
    let mut high: u128 = x;
    while high >= SIGNIFICAND_LIMIT
        invariant
            unit >= 1,
            high == x / unit,
            unit * high <= x,
            unit == 1 || high >= HIDDEN_BIT,
            x < 0x100_0000_0000_0000_0000_0000_0000_0000,
            significand_unit(x as nat) == unit * significand_unit(high as nat),
        decreases high,
    {
        proof {
            assert(unit < 0x8000_0000_0000_0000_0000) by (nonlinear_arith)
                requires
                    unit * high <= x,
                    high >= 0x20_0000_0000_0000,
                    x < 0x100_0000_0000_0000_0000_0000_0000_0000,
            ;
            let rest = significand_unit((high / 2) as nat);
            assert(unit * (2 * rest) == (unit * 2) * rest) by (nonlinear_arith);
            lemma_div_denominator(x as int, unit as int, 2);
            assert((unit * 2) * (high / 2) <= unit * high) by (nonlinear_arith)
                requires
                    unit >= 1,
                    2 * (high / 2) <= high,
            ;
        }
        unit = unit * 2;
        high = high / 2;
    }
    assert(significand_unit(high as nat) == 1);
    assert(unit * 1 == unit) by (nonlinear_arith);
    assert(unit == 1 || unit <= x) by (nonlinear_arith)
        requires
            unit >= 1,
            unit * high <= x,
            unit == 1 || high >= 0x10_0000_0000_0000,
    ;
    let rest = x % unit;
    let down = x - rest;
    proof {
        lemma_fundamental_div_mod(x as int, unit as int);
    }
    if 2 * rest < unit || (2 * rest == unit && (down / unit) % 2 == 0) {
        down
    } else {
        down + unit
    }
}

/// `x` times two to the power `up`, or the largest `usize` where that is
/// smaller.
fn scale_up(x: u128, up: u32) -> (scaled: usize)
    requires
        x < 0x100_0000_0000_0000_0000_0000_0000_0000,
    ensures
        x * pow2(up as nat) <= usize::MAX ==> scaled == x * pow2(up as nat),
        x * pow2(up as nat) > usize::MAX ==> scaled == usize::MAX,
{
    let mut value: u128 = x;
    let mut done: u32 = 0;
    proof {
        lemma2_to64();
        assert(x * 1 == x) by (nonlinear_arith);
    }
    while done < up && value <= usize::MAX as u128
        invariant
            done <= up,
            value == x * pow2(done as nat),
            value < 0x100_0000_0000_0000_0000_0000_0000_0000,
        decreases up - done,
    {
        proof {
            lemma_pow2_unfold((done + 1) as nat);
            assert(x * (2 * pow2(done as nat)) == 2 * (x * pow2(done as nat)))
                by (nonlinear_arith);
        }
        value = value * 2;
        done = done + 1;
    }
    if value > usize::MAX as u128 {
        proof {
            if done < up {
                lemma_pow2_strictly_increases(done as nat, up as nat);
            }
            lemma_mul_inequality(pow2(done as nat) as int, pow2(up as nat) as int, x as int);
            assert(x * pow2(done as nat) == pow2(done as nat) * x) by (nonlinear_arith);
            assert(x * pow2(up as nat) == pow2(up as nat) * x) by (nonlinear_arith);
        }
        usize::MAX
    } else {
        value as usize
    }
}

/// `x` divided by two to the power `down` and cut to a whole number, or the
/// largest `usize` where that is smaller.
fn scale_down(x: u128, down: u32) -> (scaled: usize)
    ensures
        (x as nat) / pow2(down as nat) <= usize::MAX ==> scaled == (x as nat) / pow2(down as nat),
        (x as nat) / pow2(down as nat) > usize::MAX ==> scaled == usize::MAX,
{
    let mut value: u128 = x;
    let mut done: u32 = 0;
    proof {
        lemma2_to64();
    }
    while done < down && value > 0
        invariant
            done <= down,
            value == (x as nat) / pow2(done as nat),
        decreases down - done,
    {
        proof {
            lemma_pow2_unfold((done + 1) as nat);
            lemma_pow2_pos(done as nat);
            lemma_div_denominator(x as int, pow2(done as nat) as int, 2);
            assert(pow2(done as nat) * 2 == 2 * pow2(done as nat)) by (nonlinear_arith);
        }
        value = value / 2;
        done = done + 1;
    }
    proof {
        if done < down {
            lemma_pow2_pos(done as nat);
            lemma_pow2_strictly_increases(done as nat, down as nat);
            lemma_div_is_ordered_by_denominator(
                x as int,
                pow2(done as nat) as int,
                pow2(down as nat) as int,
            );
            lemma_pow2_pos(down as nat);
        }
    }
    if value > usize::MAX as u128 {
        usize::MAX
    } else {
        value as usize
    }
}

} // verus!
