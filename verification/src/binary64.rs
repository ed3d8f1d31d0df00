//! IEEE 754 binary64 values held as their bit patterns.

use vstd::prelude::*;

verus! {

/// An IEEE 754 binary64 value, held as its bit pattern.
#[derive(Debug, Clone, Copy, PartialEq, Eq, Structural)]
pub struct Binary64 {
    /// Sign (1 bit), biased exponent (11 bits), fraction (52 bits).
    pub bits: u64,
}

/// Bit pattern of the quiet not-a-number that stands for a missing value.
pub const NAN_BITS: u64 = 0x7ff8_0000_0000_0000;

/// Bit pattern of positive infinity; every finite non-negative value has smaller bits.
pub const INFINITY_BITS: u64 = 0x7ff0_0000_0000_0000;

/// Bit pattern of negative zero, which compares equal to zero.
pub const NEGATIVE_ZERO_BITS: u64 = 0x8000_0000_0000_0000;

impl Binary64 {
    /// Whether the value is finite and at least zero (either zero counts).
    pub open spec fn spec_is_finite_non_negative(self) -> bool {
        self.bits < INFINITY_BITS || self.bits == NEGATIVE_ZERO_BITS
    }

    /// Whether the value is finite and at least zero (either zero counts).
    pub fn is_finite_non_negative(self) -> (valid: bool)
        ensures
            valid == self.spec_is_finite_non_negative(),
    {
        self.bits < INFINITY_BITS || self.bits == NEGATIVE_ZERO_BITS
    }
}

// ---------------------------------------------------------------------------
// Whole numbers as binary64 values
// ---------------------------------------------------------------------------

/// Two to the power of 53: whole numbers below it are binary64 values.
pub const EXACT_LIMIT: u128 = 0x20_0000_0000_0000;

/// Distance between neighbouring binary64 values at the whole number `x`, at least one.
pub open spec fn unit_of(x: nat) -> nat
    decreases x,
{
    if x < EXACT_LIMIT {
        1
    } else {
        2 * unit_of(x / 2)
    }
}

/// The multiple of `unit` nearest to `x`, the even one of two equally near.
pub open spec fn nearest_multiple(x: nat, unit: nat) -> nat {
    let q = x / unit;
    let rest = x % unit;
    if 2 * rest < unit || (2 * rest == unit && q % 2 == 0) {
        q * unit
    } else {
        (q + 1) * unit
    }
}

/// The binary64 value nearest to the whole number `x`, the even one of two equally near.
pub open spec fn as_binary64(x: nat) -> nat {
    nearest_multiple(x, unit_of(x))
}

/// Whole numbers below two to the power of 53 are converted exactly.
pub proof fn law_small_numbers_are_exact(x: nat)
    requires
        x < EXACT_LIMIT,
    ensures
        as_binary64(x) == x,
{
}

proof fn lemma_half_quotient(x: nat, unit: nat)
    requires
        unit > 0,
    ensures
        x / (2 * unit) == (x / unit) / 2,
{
    vstd::arithmetic::div_mod::lemma_div_denominator(x as int, unit as int, 2);
    assert(unit * 2 == 2 * unit) by (nonlinear_arith);
}

/// A power of two up to two to the power of 11.
spec fn is_small_power(unit: int) -> bool {
    unit == 0x1 || unit == 0x2 || unit == 0x4 || unit == 0x8 || unit == 0x10 || unit == 0x20 || unit
        == 0x40 || unit == 0x80 || unit == 0x100 || unit == 0x200 || unit == 0x400 || unit == 0x800
}

/// Units are powers of two: a larger number has the same unit or at least twice the unit.
proof fn lemma_units_grow(x: nat, y: nat)
    requires
        x <= y,
    ensures
        unit_of(x) == unit_of(y) || 2 * unit_of(x) <= unit_of(y),
    decreases y,
{
    if y >= EXACT_LIMIT {
        lemma_unit_bounds(y / 2);
        if x >= EXACT_LIMIT {
            lemma_units_grow(x / 2, y / 2);
        }
    }
}

/// A number holds fewer than two to the power of 53 units, and at least half as
/// many where the unit is not one.
proof fn lemma_unit_bounds(x: nat)
    ensures
        unit_of(x) >= 1,
        x / unit_of(x) < 0x20_0000_0000_0000,
        unit_of(x) > 1 ==> x / unit_of(x) >= 0x10_0000_0000_0000,
    decreases x,
{
    if x >= EXACT_LIMIT {
        lemma_unit_bounds(x / 2);
        let unit = unit_of(x / 2);
        vstd::arithmetic::div_mod::lemma_div_denominator(x as int, 2, unit as int);
        assert(x / (2 * unit) == (x / 2) / unit);
        if unit == 1 {
            assert((x / 2) / 1 == x / 2) by (nonlinear_arith);
        }
    } else {
        assert(x / 1 == x) by (nonlinear_arith);
    }
}

/// Rounding goes to one of the two neighbouring multiples.
proof fn lemma_nearest_is_next_to(x: nat, unit: nat)
    requires
        unit > 0,
    ensures
        (x / unit) * unit <= nearest_multiple(x, unit) <= (x / unit + 1) * unit,
{
    let q = x / unit;
    assert((q + 1) * unit == q * unit + unit) by (nonlinear_arith);
}

proof fn lemma_same_unit_monotone(x: nat, y: nat, unit: nat)
    requires
        unit > 0,
        x <= y,
    ensures
        nearest_multiple(x, unit) <= nearest_multiple(y, unit),
{
    lemma_nearest_is_next_to(x, unit);
    lemma_nearest_is_next_to(y, unit);
    vstd::arithmetic::div_mod::lemma_div_is_ordered(x as int, y as int, unit as int);
    let p = x / unit;
    let q = y / unit;
    assert((q + 1) * unit == q * unit + unit) by (nonlinear_arith);
    if p == q {
        vstd::arithmetic::div_mod::lemma_fundamental_div_mod(x as int, unit as int);
        vstd::arithmetic::div_mod::lemma_fundamental_div_mod(y as int, unit as int);
    } else {
        assert((p + 1) * unit <= q * unit) by (nonlinear_arith)
            requires
                p + 1 <= q,
        ;
    }
}

/// Conversion keeps the order of whole numbers.
pub proof fn law_conversion_is_monotone(x: nat, y: nat)
    requires
        x <= y,
    ensures
        as_binary64(x) <= as_binary64(y),
{
    let u = unit_of(x);
    let v = unit_of(y);
    lemma_unit_bounds(x);
    lemma_unit_bounds(y);
    lemma_units_grow(x, y);
    if u == v {
        lemma_same_unit_monotone(x, y, u);
    } else {
        lemma_nearest_is_next_to(x, u);
        lemma_nearest_is_next_to(y, v);
        let p = x / u;
        let q = y / v;
        assert((p + 1) * u <= q * v) by (nonlinear_arith)
            requires
                p + 1 <= 0x20_0000_0000_0000,
                q >= 0x10_0000_0000_0000,
                2 * u <= v,
        ;
    }
}

/// Conversion commutes with doubling.
pub proof fn law_conversion_doubles(x: nat)
    ensures
        as_binary64(2 * x) == 2 * as_binary64(x),
{
    if 2 * x >= EXACT_LIMIT {
        let unit = unit_of(x);
        lemma_unit_bounds(x);
        assert((2 * x) / 2 == x);
        assert(unit_of(2 * x) == 2 * unit);
        vstd::arithmetic::div_mod::lemma_div_denominator(2 * x as int, 2, unit as int);
        vstd::arithmetic::div_mod::lemma_fundamental_div_mod(x as int, unit as int);
        vstd::arithmetic::div_mod::lemma_fundamental_div_mod(2 * x as int, 2 * unit as int);
        let q = x / unit;
        assert((2 * x) / (2 * unit) == q);
        assert((2 * unit) * q == 2 * (unit * q)) by (nonlinear_arith);
        assert(q * (2 * unit) == 2 * (q * unit)) by (nonlinear_arith);
        assert((q + 1) * (2 * unit) == 2 * ((q + 1) * unit)) by (nonlinear_arith);
    } else {
        law_small_numbers_are_exact(x);
        law_small_numbers_are_exact(2 * x);
    }
}

/// Convert a whole number to the nearest binary64 value.
pub fn round_to_binary64(x: u64) -> (r: u128)
    ensures
        r == as_binary64(x as nat),
        r <= 0x1_0000_0000_0000_0000u128,
{
    let x: u128 = x as u128;
    let mut unit: u128 = 1;
    let mut top: u128 = x;
    assert(x / 1 == x) by (nonlinear_arith);
    while top >= EXACT_LIMIT
        invariant
            is_small_power(unit as int),
            x <= 0xffff_ffff_ffff_ffff,
            top == x / unit,
            unit_of(x as nat) == unit * unit_of(top as nat),
            top * unit <= x,
        decreases top,
    {
        let ghost old_unit = unit;
        let ghost old_top = top;
        proof {
            assert(unit < 0x800) by (nonlinear_arith)
                requires
                    top * unit <= x,
                    top >= 0x20_0000_0000_0000,
                    x <= 0xffff_ffff_ffff_ffff,
            ;
            lemma_half_quotient(x as nat, unit as nat);
        }
        top = top / 2;
        unit = unit * 2;
        proof {
            assert(top * unit <= x) by (nonlinear_arith)
                requires
                    old_top * old_unit <= x,
                    2 * top <= old_top,
                    unit == old_unit * 2,
            ;
            assert(old_unit * (2 * unit_of(top as nat)) == unit * unit_of(top as nat))
                by (nonlinear_arith)
                requires
                    unit == old_unit * 2,
            ;
        }
    }
    proof {
        assert(unit * 1 == unit) by (nonlinear_arith);
        assert(unit_of(x as nat) == unit);
        vstd::arithmetic::div_mod::lemma_fundamental_div_mod(x as int, unit as int);
        assert(top * unit == unit * top) by (nonlinear_arith);
        assert((top + 1) * unit == unit * top + unit) by (nonlinear_arith);
    }
    let rest: u128 = x % unit;
    if 2 * rest < unit || (2 * rest == unit && top % 2 == 0) {
        top * unit
    } else {
        proof {
            lemma_round_up_bound(x as int, unit as int, top as int);
        }
        (top + 1) * unit
    }
}

/// Rounding a 64-bit number up to a multiple of a small power of two stays within
/// two to the power of 64.
proof fn lemma_round_up_bound(x: int, unit: int, top: int)
    requires
        0 <= x <= 0xffff_ffff_ffff_ffff,
        1 <= unit <= 0x800,
        top == x / unit,
        top < EXACT_LIMIT,
    ensures
        (top + 1) * unit <= 0x1_0000_0000_0000_0000,
{
    assert((top + 1) * unit <= 0x20_0000_0000_0000 * unit) by (nonlinear_arith)
        requires
            top + 1 <= 0x20_0000_0000_0000,
            unit >= 1,
    ;
}

/// Conversion rounds to the nearest: at a whole number below two to the power of 64
/// the binary64 values are the multiples of a power of two of which the number
/// holds fewer than two to the power of 53, and at least half as many where it is
/// not one. The converted number is one of them, and none is nearer.
pub proof fn law_conversion_is_to_the_nearest(x: nat, j: nat)
    ensures
        unit_of(x) >= 1,
        x / unit_of(x) < 0x20_0000_0000_0000,
        unit_of(x) > 1 ==> x / unit_of(x) >= 0x10_0000_0000_0000,
        as_binary64(x) % unit_of(x) == 0,
        distance(as_binary64(x) as int, x as int) <= distance((j * unit_of(x)) as int, x as int),
{
    let unit = unit_of(x);
    lemma_unit_bounds(x);
    let q = x / unit;
    let rest = x % unit;
    vstd::arithmetic::div_mod::lemma_fundamental_div_mod(x as int, unit as int);
    assert(unit * q == q * unit) by (nonlinear_arith);
    assert((q + 1) * unit == q * unit + unit) by (nonlinear_arith);
    vstd::arithmetic::div_mod::lemma_mod_multiples_basic(q as int, unit as int);
    vstd::arithmetic::div_mod::lemma_mod_multiples_basic((q + 1) as int, unit as int);
    if j <= q {
        assert(j * unit <= q * unit) by (nonlinear_arith)
            requires
                j <= q,
        ;
    } else {
        assert(j * unit >= (q + 1) * unit) by (nonlinear_arith)
            requires
                j >= q + 1,
        ;
    }
}

/// How far apart two numbers are.
pub open spec fn distance(a: int, b: int) -> int {
    if a < b {
        b - a
    } else {
        a - b
    }
}

} // verus!
