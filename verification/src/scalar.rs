//! Single-precision numbers as bit patterns, and their order.
//!
//! The fleet measures positions, batteries and pheromone in single precision.
//! Comparing two such numbers is integer work on their IEEE 754 bit patterns and
//! is done here; arithmetic on them is delegated (see [`crate::arith`]).
use vstd::arithmetic::power2::{
    lemma_pow2_adds, lemma_pow2_pos, lemma_pow2_strictly_increases, lemma_pow2_unfold, pow2,
};
use vstd::bits::{lemma_u128_shr_is_div, lemma_u64_shl_is_mul};
use vstd::prelude::*;

verus! {

/// A single-precision number, held as its IEEE 754 binary32 bit pattern.
#[derive(Debug, Clone, Copy, PartialEq, Eq, Structural)]
pub struct Scalar {
    pub bits: u32,
}

/// Bit pattern of 0.0.
pub const ZERO: u32 = 0;

/// Bit pattern of 1.0.
pub const ONE: u32 = 0x3f80_0000;

/// Bit pattern of -1.0.
pub const MINUS_ONE: u32 = 0xbf80_0000;

/// The absolute value that a magnitude stands for, in multiples of 2^-149.
pub open spec fn magnitude_units(magnitude: int) -> int {
    let exponent = magnitude / 0x80_0000;
    let fraction = magnitude % 0x80_0000;
    if exponent == 0 {
        fraction
    } else {
        (0x80_0000 + fraction) * pow2((exponent - 1) as nat)
    }
}

impl Scalar {
    /// The bit pattern without its sign: exponent and fraction.
    pub open spec fn magnitude(self) -> int {
        if self.bits >= 0x8000_0000 {
            self.bits - 0x8000_0000
        } else {
            self.bits as int
        }
    }

    pub open spec fn is_nan(self) -> bool {
        self.magnitude() > 0x7f80_0000
    }

    pub open spec fn is_finite(self) -> bool {
        self.magnitude() < 0x7f80_0000
    }

    /// The place of a number among all numbers: ranks compare as the numbers do,
    /// and the two zeros share rank 0.
    pub open spec fn rank(self) -> int {
        if self.bits >= 0x8000_0000 {
            -self.magnitude()
        } else {
            self.magnitude()
        }
    }

    /// `self > other`: false as soon as one side is not a number.
    pub open spec fn above(self, other: Scalar) -> bool {
        &&& !self.is_nan()
        &&& !other.is_nan()
        &&& self.rank() > other.rank()
    }

    /// The larger of `self` and `floor`; `floor` where `self` is not a number.
    pub open spec fn raised_to(self, floor: Scalar) -> Scalar {
        if self.above(floor) {
            self
        } else {
            floor
        }
    }

    /// `self` limited to `low..=high`; not-a-number stays what it is.
    pub open spec fn limited(self, low: Scalar, high: Scalar) -> Scalar {
        if low.above(self) {
            low
        } else if self.above(high) {
            high
        } else {
            self
        }
    }

    /// The absolute value of a finite number, in multiples of 2^-149, the smallest
    /// positive single-precision number. Every finite number is such a multiple.
    pub open spec fn absolute_units(self) -> int {
        magnitude_units(self.magnitude())
    }

    /// The value of a finite number, in multiples of 2^-149.
    pub open spec fn units(self) -> int {
        if self.bits >= 0x8000_0000 {
            -self.absolute_units()
        } else {
            self.absolute_units()
        }
    }

    /// `self > n` for a count `n`: the whole number `n` falls short of the ceiling
    /// of `self`.
    pub open spec fn above_count(self, n: int) -> bool {
        if self.is_finite() {
            self.units() > n * pow2(149)
        } else {
            self.bits == 0x7f80_0000
        }
    }

    fn is_number(self) -> (r: bool)
        ensures
            r == !self.is_nan(),
    {
        if self.bits >= 0x8000_0000 {
            self.bits - 0x8000_0000 <= 0x7f80_0000
        } else {
            self.bits <= 0x7f80_0000
        }
    }

    /// `self > other`.
    pub fn exceeds(self, other: Scalar) -> (r: bool)
        ensures
            r == self.above(other),
    {
        if !self.is_number() || !other.is_number() {
            return false;
        }
        if self.bits >= 0x8000_0000 {
            other.bits >= 0x8000_0000 && self.bits < other.bits
        } else if other.bits >= 0x8000_0000 {
            self.bits > 0 || other.bits > 0x8000_0000
        } else {
            self.bits > other.bits
        }
    }

    /// The larger of the two numbers; `floor` where `self` is not a number.
    pub fn at_least(self, floor: Scalar) -> (r: Scalar)
        ensures
            r == self.raised_to(floor),
    {
        if self.exceeds(floor) {
            self
        } else {
            floor
        }
    }

    /// Limits a number to `low..=high`.
    pub fn clamp(self, low: Scalar, high: Scalar) -> (r: Scalar)
        ensures
            r == self.limited(low, high),
    {
        if low.exceeds(self) {
            low
        } else if self.exceeds(high) {
            high
        } else {
            self
        }
    }

    /// Whether the number is larger than the count `n`, exactly: no rounding of `n`
    /// takes place.
    pub fn exceeds_count(self, n: u128) -> (r: bool)
        ensures
            r == self.above_count(n as int),
    {
        proof {
            lemma_pow2_pos(149);
            lemma_absolute_units_nonnegative(self);
            assert(n * pow2(149) >= 0) by (nonlinear_arith)
                requires
                    n >= 0,
                    pow2(149) > 0,
            ;
        }
        if self.bits > 0x7f80_0000 || self.bits == 0 {
            return false;
        }
        if self.bits == 0x7f80_0000 {
            return true;
        }
        let exponent: u32 = self.bits / 0x80_0000;
        let fraction: u32 = self.bits % 0x80_0000;
        if exponent < 127 {
            proof {
                lemma_below_one(self);
                if n >= 1 {
                    assert(n * pow2(149) >= pow2(149)) by (nonlinear_arith)
                        requires
                            n >= 1,
                            pow2(149) > 0,
                    ;
                }
            }
            return n == 0;
        }
        let significand: u64 = 0x80_0000 + fraction as u64;
        if exponent <= 150 {
            if n >= 0x100_0000 {
                proof {
                    lemma_whole_part(significand as int, n as int, exponent as nat);
                    lemma_pow2_pos((150 - exponent) as nat);
                    assert(n * pow2((150 - exponent) as nat) >= n) by (nonlinear_arith)
                        requires
                            n >= 0,
                            pow2((150 - exponent) as nat) >= 1,
                    ;
                }
                return false;
            }
            let shift: u64 = (150 - exponent) as u64;
            proof {
                lemma_whole_part(significand as int, n as int, exponent as nat);
                lemma_pow2_at_most(shift as nat, 23);
                assert(n * pow2(shift as nat) <= 0x100_0000 * 0x80_0000) by (nonlinear_arith)
                    requires
                        0 <= n <= 0x100_0000,
                        0 <= pow2(shift as nat) <= 0x80_0000,
                ;
                lemma_u64_shl_is_mul(n as u64, shift);
            }
            significand > (n as u64) << shift
        } else {
            let shift: u128 = (exponent - 150) as u128;
            proof {
                lemma_u128_shr_is_div(n, shift);
                lemma_large_part(significand as int, n as int, exponent as nat);
            }
            (n >> shift) < significand as u128
        }
    }
}

proof fn lemma_absolute_units_nonnegative(s: Scalar)
    ensures
        s.absolute_units() >= 0,
        s.absolute_units() == 0 <==> s.magnitude() == 0,
{
    let exponent = s.magnitude() / 0x80_0000;
    let fraction = s.magnitude() % 0x80_0000;
    if exponent > 0 {
        let scale = pow2((exponent - 1) as nat);
        lemma_pow2_pos((exponent - 1) as nat);
        assert((0x80_0000 + fraction) * scale > 0) by (nonlinear_arith)
            requires
                fraction >= 0,
                scale > 0,
        ;
    }
}

proof fn lemma_pow2_at_most(e: nat, bound: nat)
    requires
        e <= bound,
        bound <= 23,
    ensures
        pow2(e) <= 0x80_0000,
{
    vstd::arithmetic::power2::lemma2_to64();
    if e < 23 {
        lemma_pow2_strictly_increases(e, 23);
    }
}

proof fn lemma_below_one(s: Scalar)
    requires
        s.magnitude() / 0x80_0000 < 127,
    ensures
        s.absolute_units() < pow2(149),
{
    let exponent = s.magnitude() / 0x80_0000;
    let fraction = s.magnitude() % 0x80_0000;
    vstd::arithmetic::power2::lemma2_to64();
    if exponent == 0 {
        lemma_pow2_strictly_increases(23, 149);
    } else {
        let e = (exponent - 1) as nat;
        let scale = pow2(e);
        lemma_pow2_pos(e);
        lemma_pow2_adds(24, e);
        assert((0x80_0000 + fraction) * scale < 0x100_0000 * scale) by (nonlinear_arith)
            requires
                fraction < 0x80_0000,
                scale > 0,
        ;
        if e + 24 < 149 {
            lemma_pow2_strictly_increases((24 + e) as nat, 149);
        }
    }
}

proof fn lemma_whole_part(significand: int, n: int, exponent: nat)
    requires
        127 <= exponent <= 150,
    ensures
        significand * pow2((exponent - 1) as nat) > n * pow2(149) <==> significand > n * pow2(
            (150 - exponent) as nat,
        ),
{
    let scale = pow2((exponent - 1) as nat);
    let rest = pow2((150 - exponent) as nat);
    lemma_pow2_pos((exponent - 1) as nat);
    lemma_pow2_adds((exponent - 1) as nat, (150 - exponent) as nat);
    assert(n * (scale * rest) == (n * rest) * scale) by (nonlinear_arith);
    assert(significand * scale > (n * rest) * scale <==> significand > n * rest)
        by (nonlinear_arith)
        requires
            scale > 0,
    ;
}

proof fn lemma_large_part(significand: int, n: int, exponent: nat)
    requires
        150 < exponent,
        n >= 0,
    ensures
        significand * pow2((exponent - 1) as nat) > n * pow2(149) <==> n / (pow2(
            (exponent - 150) as nat,
        ) as int) < significand,
{
    let base = pow2(149) as int;
    let factor = pow2((exponent - 150) as nat) as int;
    lemma_pow2_pos(149);
    lemma_pow2_pos((exponent - 150) as nat);
    lemma_pow2_adds(149, (exponent - 150) as nat);
    assert(significand * (base * factor) == (significand * factor) * base) by (nonlinear_arith);
    assert((significand * factor) * base > n * base <==> significand * factor > n)
        by (nonlinear_arith)
        requires
            base > 0,
    ;
    assert(significand * factor > n <==> n / factor < significand) by (nonlinear_arith)
        requires
            factor > 0,
            n >= 0,
    ;
}

proof fn lemma_units_increase(low: int, high: int)
    requires
        0 <= low < high,
    ensures
        magnitude_units(low) < magnitude_units(high),
{
    let e1 = low / 0x80_0000;
    let f1 = low % 0x80_0000;
    let e2 = high / 0x80_0000;
    let f2 = high % 0x80_0000;
    if e1 == e2 {
        if e1 > 0 {
            let scale = pow2((e1 - 1) as nat);
            lemma_pow2_pos((e1 - 1) as nat);
            assert((0x80_0000 + f1) * scale < (0x80_0000 + f2) * scale) by (nonlinear_arith)
                requires
                    f1 < f2,
                    scale > 0,
            ;
        }
    } else {
        let scale2 = pow2((e2 - 1) as nat);
        lemma_pow2_pos((e2 - 1) as nat);
        assert((0x80_0000 + f2) * scale2 >= 0x80_0000 * scale2) by (nonlinear_arith)
            requires
                f2 >= 0,
                scale2 > 0,
        ;
        if e1 > 0 {
            let scale1 = pow2((e1 - 1) as nat);
            lemma_pow2_pos((e1 - 1) as nat);
            lemma_pow2_unfold(e1 as nat);
            if e1 < e2 - 1 {
                lemma_pow2_strictly_increases(e1 as nat, (e2 - 1) as nat);
            }
            assert((0x80_0000 + f1) * scale1 < 0x80_0000 * (2 * scale1)) by (nonlinear_arith)
                requires
                    f1 < 0x80_0000,
                    scale1 > 0,
            ;
        }
    }
}

/// Comparing bit patterns compares the numbers that they stand for.
pub proof fn comparison_is_numeric(a: Scalar, b: Scalar)
    requires
        a.is_finite(),
        b.is_finite(),
    ensures
        a.above(b) <==> a.units() > b.units(),
{
    lemma_absolute_units_nonnegative(a);
    lemma_absolute_units_nonnegative(b);
    if a.magnitude() < b.magnitude() {
        lemma_units_increase(a.magnitude(), b.magnitude());
    } else if b.magnitude() < a.magnitude() {
        lemma_units_increase(b.magnitude(), a.magnitude());
    }
}

/// Among numbers (no NaN) the comparison is a strict order in which two numbers are
/// incomparable only where they rank alike, and nothing compares with a NaN.
pub proof fn comparison_is_strict_order(a: Scalar, b: Scalar, c: Scalar)
    ensures
        !a.above(a),
        !(a.above(b) && b.above(a)),
        a.above(b) && b.above(c) ==> a.above(c),
        !a.is_nan() && !b.is_nan() ==> (a.above(b) || b.above(a) || a.rank() == b.rank()),
        a.is_nan() ==> !a.above(b) && !b.above(a),
{
}

/// A number raised to a floor, where the floor is a number, is a number no smaller: the
/// number itself or the floor, and the floor exactly where the number does not exceed it.
pub proof fn raising_respects_the_floor(s: Scalar, floor: Scalar)
    requires
        !floor.is_nan(),
    ensures
        !s.raised_to(floor).is_nan(),
        !floor.above(s.raised_to(floor)),
        !s.above(s.raised_to(floor)),
        s.above(floor) ==> s.raised_to(floor) == s,
        !s.above(floor) ==> s.raised_to(floor) == floor,
{
}

/// A limited number never lies outside its limits. One that did not before stays what it
/// is; any other ends up at the limit that it crossed.
pub proof fn limiting_stays_within(s: Scalar, low: Scalar, high: Scalar)
    requires
        !low.above(high),
    ensures
        !low.above(s.limited(low, high)),
        !s.limited(low, high).above(high),
        !low.above(s) && !s.above(high) ==> s.limited(low, high) == s,
        low.above(s) ==> s.limited(low, high) == low,
        s.above(high) ==> s.limited(low, high) == high,
{
}

/// A number exceeds a count exactly where it exceeds the number that stands for that count
/// without rounding.
pub proof fn counts_compare_as_numbers(s: Scalar, count: Scalar, n: nat)
    requires
        s.is_finite(),
        count.is_finite(),
        count.units() == n * pow2(149),
    ensures
        s.above_count(n as int) <==> s.above(count),
{
    comparison_is_numeric(s, count);
}

/// A number that exceeds a count exceeds every smaller count. Infinity exceeds every count;
/// negative infinity and what is no number exceed none.
pub proof fn exceeding_a_count_exceeds_the_smaller(s: Scalar, fewer: nat, more: nat)
    requires
        fewer <= more,
    ensures
        s.above_count(more as int) ==> s.above_count(fewer as int),
        !s.is_finite() ==> (s.above_count(more as int) <==> !s.is_nan() && s.rank() > 0),
        s.is_finite() && s.above_count(more as int) ==> s.above(Scalar { bits: ZERO }),
{
    lemma_pow2_pos(149);
    assert(fewer * pow2(149) <= more * pow2(149) && more * pow2(149) >= 0) by (nonlinear_arith)
        requires
            fewer <= more,
            pow2(149) > 0,
    ;
    lemma_absolute_units_nonnegative(s);
    let zero = Scalar { bits: ZERO };
    if s.is_finite() {
        comparison_is_numeric(s, zero);
        lemma_absolute_units_nonnegative(zero);
    }
}

} // verus!
