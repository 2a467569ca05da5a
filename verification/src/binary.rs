//! Single and double precision numbers.
use crate::float::{narrow, narrowed, widen, widened};
use crate::round::Format;
use vstd::arithmetic::power2::pow2;
use vstd::prelude::*;

verus! {

/// An IEEE 754 binary32 number, held by its bits.
#[derive(Clone, Copy, PartialEq, Eq, Structural, Debug)]
pub struct Binary32 {
    pub bits: u32,
}

impl Binary32 {
    /// Zero.
    #[verifier::allow_in_spec]
    pub fn zero() -> Binary32
        returns
            (Binary32 { bits: 0 }),
    {
        Binary32 { bits: 0 }
    }

    /// One half.
    #[verifier::allow_in_spec]
    pub fn half() -> Binary32
        returns
            (Binary32 { bits: 0x3f00_0000 }),
    {
        Binary32 { bits: 0x3f00_0000 }
    }

    /// One.
    #[verifier::allow_in_spec]
    pub fn one() -> Binary32
        returns
            (Binary32 { bits: 0x3f80_0000 }),
    {
        Binary32 { bits: 0x3f80_0000 }
    }

    /// Larger than every number.
    #[verifier::allow_in_spec]
    pub fn infinity() -> Binary32
        returns
            (Binary32 { bits: 0x7f80_0000 }),
    {
        Binary32 { bits: 0x7f80_0000 }
    }

    /// Smaller than every number.
    #[verifier::allow_in_spec]
    pub fn minus_infinity() -> Binary32
        returns
            (Binary32 { bits: 0xff80_0000 }),
    {
        Binary32 { bits: 0xff80_0000 }
    }

    /// The bits as a natural number.
    pub open spec fn raw(self) -> nat {
        self.bits as nat
    }

    pub open spec fn finite(self) -> bool {
        Format::Single.is_finite(self.raw())
    }

    pub open spec fn not_a_number(self) -> bool {
        Format::Single.is_nan(self.raw())
    }

    /// With one pattern of bits for every NaN.
    pub open spec fn settled(self) -> Binary32 {
        if self.not_a_number() {
            Binary32 { bits: 0x7fc0_0000 }
        } else {
            self
        }
    }

    /// `self < other` as numbers.
    pub open spec fn below(self, other: Binary32) -> bool {
        Format::Single.less(self.raw(), other.raw())
    }

    /// `self == other` as numbers: equal zeros, and NaN equal to nothing.
    pub open spec fn equals(self, other: Binary32) -> bool {
        Format::Single.same(self.raw(), other.raw())
    }

    /// The rounded sum.
    pub open spec fn spec_plus(self, other: Binary32) -> Binary32 {
        Binary32 { bits: Format::Single.sum_of(self.raw(), other.raw()) as u32 }
    }

    /// The rounded difference.
    pub open spec fn spec_minus(self, other: Binary32) -> Binary32 {
        Binary32 { bits: Format::Single.difference_of(self.raw(), other.raw()) as u32 }
    }

    /// The rounded product.
    pub open spec fn spec_times(self, other: Binary32) -> Binary32 {
        Binary32 { bits: Format::Single.product_of(self.raw(), other.raw()) as u32 }
    }

    /// The rounded quotient.
    pub open spec fn spec_over(self, other: Binary32) -> Binary32 {
        Binary32 { bits: Format::Single.quotient_of(self.raw(), other.raw()) as u32 }
    }

    /// The smaller number; the other one when one is NaN.
    pub open spec fn spec_min(self, other: Binary32) -> Binary32 {
        Binary32 { bits: Format::Single.lesser(self.raw(), other.raw()) as u32 }
    }

    /// The larger number; the other one when one is NaN.
    pub open spec fn spec_max(self, other: Binary32) -> Binary32 {
        Binary32 { bits: Format::Single.greater(self.raw(), other.raw()) as u32 }
    }

    /// The rounded square root.
    pub open spec fn spec_root(self) -> Binary32 {
        Binary32 { bits: Format::Single.root_of(self.raw()) as u32 }
    }

    /// The number nearest to `n`.
    pub open spec fn nearest_to(n: nat) -> Binary32 {
        Binary32 { bits: Format::Single.from_nat(n) as u32 }
    }

    /// Held between `lo` and `hi`; NaN stays as it is.
    pub open spec fn spec_clamp(self, lo: Binary32, hi: Binary32) -> Binary32 {
        if self.below(lo) {
            lo
        } else if hi.below(self) {
            hi
        } else {
            self
        }
    }

    pub fn plus(self, other: Binary32) -> (r: Binary32)
        ensures
            r == self.spec_plus(other),
    {
        Binary32 { bits: Format::Single.add_bits(self.bits as u64, other.bits as u64) as u32 }
    }

    pub fn minus(self, other: Binary32) -> (r: Binary32)
        ensures
            r == self.spec_minus(other),
    {
        Binary32 { bits: Format::Single.subtract_bits(self.bits as u64, other.bits as u64) as u32 }
    }

    pub fn times(self, other: Binary32) -> (r: Binary32)
        ensures
            r == self.spec_times(other),
    {
        Binary32 { bits: Format::Single.multiply_bits(self.bits as u64, other.bits as u64) as u32 }
    }

    pub fn over(self, other: Binary32) -> (r: Binary32)
        ensures
            r == self.spec_over(other),
    {
        Binary32 { bits: Format::Single.divide_bits(self.bits as u64, other.bits as u64) as u32 }
    }

    pub fn min(self, other: Binary32) -> (r: Binary32)
        ensures
            r == self.spec_min(other),
    {
        Binary32 { bits: Format::Single.pick_lesser(self.bits as u64, other.bits as u64) as u32 }
    }

    pub fn max(self, other: Binary32) -> (r: Binary32)
        ensures
            r == self.spec_max(other),
    {
        Binary32 { bits: Format::Single.pick_greater(self.bits as u64, other.bits as u64) as u32 }
    }

    pub fn root(self) -> (r: Binary32)
        ensures
            r == self.spec_root(),
    {
        Binary32 { bits: Format::Single.root_bits(self.bits as u64) as u32 }
    }

    pub fn from_usize(n: usize) -> (r: Binary32)
        ensures
            r == Binary32::nearest_to(n as nat),
    {
        Binary32 { bits: Format::Single.from_unsigned(n as u128) as u32 }
    }

    /// The number nearest to a sum, which may be too large for a `usize`.
    pub fn from_sum(a: usize, b: usize) -> (r: Binary32)
        ensures
            r == Binary32::nearest_to((a + b) as nat),
    {
        Binary32 { bits: Format::Single.from_unsigned(a as u128 + b as u128) as u32 }
    }

    pub fn clamp(self, lo: Binary32, hi: Binary32) -> (r: Binary32)
        ensures
            r == self.spec_clamp(lo, hi),
    {
        if self.is_below(lo) {
            lo
        } else if hi.is_below(self) {
            hi
        } else {
            self
        }
    }

    pub fn is_below(self, other: Binary32) -> (r: bool)
        ensures
            r == self.below(other),
    {
        Format::Single.test_less(self.bits as u64, other.bits as u64)
    }

    pub fn is_equal(self, other: Binary32) -> (r: bool)
        ensures
            r == self.equals(other),
    {
        Format::Single.test_same(self.bits as u64, other.bits as u64)
    }

    pub fn is_finite(self) -> (r: bool)
        ensures
            r == self.finite(),
    {
        Format::Single.test_finite(self.bits as u64)
    }

    /// Rounded to the nearest index, halves up; see [`Format::round_index`].
    pub fn round_index(self) -> (n: usize)
        ensures
            n == Format::Single.round_index(self.raw()),
    {
        Format::Single.round_to_index(self.bits as u64)
    }

    /// The integer below; see [`Format::floor_index`].
    pub fn floor_index(self) -> (n: i64)
        ensures
            n == Format::Single.floor_index(self.raw()),
    {
        Format::Single.floor_to_index(self.bits as u64)
    }

    /// The same number as a double.
    pub open spec fn spec_widen(self) -> Binary64 {
        Binary64 { bits: widened(self.raw()) as u64 }
    }

    pub fn widen(self) -> (r: Binary64)
        ensures
            r == self.spec_widen(),
    {
        Binary64 { bits: widen(self.bits) }
    }

}

/// An IEEE 754 binary64 number, held by its bits.
#[derive(Clone, Copy, PartialEq, Eq, Structural, Debug)]
pub struct Binary64 {
    pub bits: u64,
}

impl Binary64 {
    /// Zero.
    #[verifier::allow_in_spec]
    pub fn zero() -> Binary64
        returns
            (Binary64 { bits: 0 }),
    {
        Binary64 { bits: 0 }
    }

    /// Minus zero: adding it changes no number.
    #[verifier::allow_in_spec]
    pub fn minus_zero() -> Binary64
        returns
            (Binary64 { bits: 0x8000_0000_0000_0000 }),
    {
        Binary64 { bits: 0x8000_0000_0000_0000 }
    }

    /// Two.
    #[verifier::allow_in_spec]
    pub fn two() -> Binary64
        returns
            (Binary64 { bits: 0x4000_0000_0000_0000 }),
    {
        Binary64 { bits: 0x4000_0000_0000_0000 }
    }

    /// A hundred.
    #[verifier::allow_in_spec]
    pub fn hundred() -> Binary64
        returns
            (Binary64 { bits: 0x4059_0000_0000_0000 }),
    {
        Binary64 { bits: 0x4059_0000_0000_0000 }
    }

    /// A thousand.
    #[verifier::allow_in_spec]
    pub fn thousand() -> Binary64
        returns
            (Binary64 { bits: 0x408f_4000_0000_0000 }),
    {
        Binary64 { bits: 0x408f_4000_0000_0000 }
    }

    /// Not a number.
    #[verifier::allow_in_spec]
    pub fn nan() -> Binary64
        returns
            (Binary64 { bits: 0x7ff8_0000_0000_0000 }),
    {
        Binary64 { bits: 0x7ff8_0000_0000_0000 }
    }

    /// The bits as a natural number.
    pub open spec fn raw(self) -> nat {
        self.bits as nat
    }

    pub open spec fn finite(self) -> bool {
        Format::Double.is_finite(self.raw())
    }

    pub open spec fn not_a_number(self) -> bool {
        Format::Double.is_nan(self.raw())
    }

    /// With one pattern of bits for every NaN.
    pub open spec fn settled(self) -> Binary64 {
        if self.not_a_number() {
            Binary64::nan()
        } else {
            self
        }
    }

    /// `self < other` as numbers.
    pub open spec fn below(self, other: Binary64) -> bool {
        Format::Double.less(self.raw(), other.raw())
    }

    /// `self == other` as numbers: equal zeros, and NaN equal to nothing.
    pub open spec fn equals(self, other: Binary64) -> bool {
        Format::Double.same(self.raw(), other.raw())
    }

    /// The rounded sum.
    pub open spec fn spec_plus(self, other: Binary64) -> Binary64 {
        Binary64 { bits: Format::Double.sum_of(self.raw(), other.raw()) as u64 }
    }

    /// The rounded difference.
    pub open spec fn spec_minus(self, other: Binary64) -> Binary64 {
        Binary64 { bits: Format::Double.difference_of(self.raw(), other.raw()) as u64 }
    }

    /// The rounded product.
    pub open spec fn spec_times(self, other: Binary64) -> Binary64 {
        Binary64 { bits: Format::Double.product_of(self.raw(), other.raw()) as u64 }
    }

    /// The rounded quotient.
    pub open spec fn spec_over(self, other: Binary64) -> Binary64 {
        Binary64 { bits: Format::Double.quotient_of(self.raw(), other.raw()) as u64 }
    }

    /// The smaller number; the other one when one is NaN.
    pub open spec fn spec_min(self, other: Binary64) -> Binary64 {
        Binary64 { bits: Format::Double.lesser(self.raw(), other.raw()) as u64 }
    }

    /// The larger number; the other one when one is NaN.
    pub open spec fn spec_max(self, other: Binary64) -> Binary64 {
        Binary64 { bits: Format::Double.greater(self.raw(), other.raw()) as u64 }
    }

    /// The rounded square root.
    pub open spec fn spec_root(self) -> Binary64 {
        Binary64 { bits: Format::Double.root_of(self.raw()) as u64 }
    }

    /// The number nearest to `n`.
    pub open spec fn nearest_to(n: nat) -> Binary64 {
        Binary64 { bits: Format::Double.from_nat(n) as u64 }
    }

    /// Held between `lo` and `hi`; NaN stays as it is.
    pub open spec fn spec_clamp(self, lo: Binary64, hi: Binary64) -> Binary64 {
        if self.below(lo) {
            lo
        } else if hi.below(self) {
            hi
        } else {
            self
        }
    }

    pub fn plus(self, other: Binary64) -> (r: Binary64)
        ensures
            r == self.spec_plus(other),
    {
        Binary64 { bits: Format::Double.add_bits(self.bits, other.bits) }
    }

    pub fn minus(self, other: Binary64) -> (r: Binary64)
        ensures
            r == self.spec_minus(other),
    {
        Binary64 { bits: Format::Double.subtract_bits(self.bits, other.bits) }
    }

    pub fn times(self, other: Binary64) -> (r: Binary64)
        ensures
            r == self.spec_times(other),
    {
        Binary64 { bits: Format::Double.multiply_bits(self.bits, other.bits) }
    }

    pub fn over(self, other: Binary64) -> (r: Binary64)
        ensures
            r == self.spec_over(other),
    {
        Binary64 { bits: Format::Double.divide_bits(self.bits, other.bits) }
    }

    pub fn min(self, other: Binary64) -> (r: Binary64)
        ensures
            r == self.spec_min(other),
    {
        Binary64 { bits: Format::Double.pick_lesser(self.bits, other.bits) }
    }

    pub fn max(self, other: Binary64) -> (r: Binary64)
        ensures
            r == self.spec_max(other),
    {
        Binary64 { bits: Format::Double.pick_greater(self.bits, other.bits) }
    }

    pub fn root(self) -> (r: Binary64)
        ensures
            r == self.spec_root(),
    {
        Binary64 { bits: Format::Double.root_bits(self.bits) }
    }

    pub fn from_usize(n: usize) -> (r: Binary64)
        ensures
            r == Binary64::nearest_to(n as nat),
    {
        Binary64 { bits: Format::Double.from_unsigned(n as u128) }
    }

    pub fn clamp(self, lo: Binary64, hi: Binary64) -> (r: Binary64)
        ensures
            r == self.spec_clamp(lo, hi),
    {
        if self.is_below(lo) {
            lo
        } else if hi.is_below(self) {
            hi
        } else {
            self
        }
    }

    pub fn is_below(self, other: Binary64) -> (r: bool)
        ensures
            r == self.below(other),
    {
        Format::Double.test_less(self.bits, other.bits)
    }

    pub fn is_equal(self, other: Binary64) -> (r: bool)
        ensures
            r == self.equals(other),
    {
        Format::Double.test_same(self.bits, other.bits)
    }

    pub fn is_finite(self) -> (r: bool)
        ensures
            r == self.finite(),
    {
        Format::Double.test_finite(self.bits)
    }

    /// Rounded to the nearest index, halves up; see [`Format::round_index`].
    pub fn round_index(self) -> (n: usize)
        ensures
            n == Format::Double.round_index(self.raw()),
    {
        Format::Double.round_to_index(self.bits)
    }

    /// The nearest single.
    pub open spec fn spec_narrow(self) -> Binary32 {
        Binary32 { bits: narrowed(self.raw()) as u32 }
    }

    pub fn narrow(self) -> (r: Binary32)
        ensures
            r == self.spec_narrow(),
    {
        Binary32 { bits: narrow(self.bits) }
    }

    /// Without its sign.
    pub open spec fn spec_abs(self) -> Binary64 {
        Binary64 { bits: Format::Double.code(self.raw()) as u64 }
    }

    pub fn abs(self) -> (r: Binary64)
        ensures
            r == self.spec_abs(),
    {
        Binary64 { bits: Format::Double.magnitude(self.bits) }
    }

    /// The place in the total order of all bit patterns.
    pub open spec fn place(self) -> int {
        Format::Double.total_rank(self.raw())
    }

    /// `self` comes before `other` in the total order.
    pub fn is_before(self, other: Binary64) -> (r: bool)
        ensures
            r == (self.place() < other.place()),
    {
        Format::Double.test_before(self.bits, other.bits)
    }

}

// ----- laws --------------------------------------------------------------------------

/// A value of `q * 2^k` units, with at most as many bits as the significand has, is
/// a value of the format.
pub proof fn lemma_exact_value(f: Format, q: nat, k: nat) -> (code: nat)
    requires
        0 < q < 2 * f.unit(),
        q * pow2(k) >= f.unit(),
    ensures
        f.units(code) == q * pow2(k),
        code < (k + 2) * f.unit(),
    decreases 2 * f.unit() - q,
{
    if q >= f.unit() {
        crate::round::lemma_units_of_parts(f, q, k);
        let code = q + k * f.unit();
        assert(code < (k + 2) * f.unit()) by (nonlinear_arith)
            requires
                code == q + k * f.unit(),
                q < 2 * f.unit(),
        ;
        code
    } else {
        vstd::arithmetic::power2::lemma2_to64();
        assert(k > 0) by (nonlinear_arith)
            requires
                q * pow2(k) >= f.unit(),
                q < f.unit(),
                pow2(0) == 1,
        ;
        vstd::arithmetic::power2::lemma_pow2_unfold(k);
        assert(q * pow2(k) == (2 * q) * pow2((k - 1) as nat)) by (nonlinear_arith)
            requires
                pow2(k) == 2 * pow2((k - 1) as nat),
        ;
        let code = lemma_exact_value(f, 2 * q, (k - 1) as nat);
        assert((k - 1 + 2) * f.unit() <= (k + 2) * f.unit()) by (nonlinear_arith);
        code
    }
}

impl Binary32 {
    /// Widening keeps the value: the double has the same sign, and its magnitude
    /// is that of the single.
    pub proof fn law_widening_keeps_the_value(self)
        requires
            self.finite(),
        ensures
            self.spec_widen().finite(),
            Format::Double.negative(self.spec_widen().raw()) == Format::Single.negative(self.raw()),
            Format::Double.value(self.spec_widen().raw()) == Format::Single.value(self.raw()) * pow2(
                925,
            ),
    {
        let (f, g) = (Format::Single, Format::Double);
        let c = f.code(self.raw());
        let u = f.units(c);
        crate::round::lemma_units_of_zero(f);
        crate::round::lemma_units_of_zero(g);
        let code = if c == 0 {
            assert(0 * pow2(925) == 0);
            0
        } else {
            crate::round::lemma_units_increase(f, 0, c);
            vstd::arithmetic::power2::lemma_pow2_strictly_increases(52, 925);
            crate::round::lemma_unit_is_pow2(g);
            if c < f.unit() {
                reveal(Format::units);
                assert(c * pow2(925) >= pow2(925)) by (nonlinear_arith)
                    requires
                        c >= 1,
                ;
                lemma_exact_value(g, c, 925)
            } else {
                let e = (c / f.unit() - 1) as nat;
                let q = f.unit() + c % f.unit();
                assert(u == q * pow2(e)) by {
                    reveal(Format::units);
                }
                vstd::arithmetic::power2::lemma_pow2_adds(e, 925);
                vstd::arithmetic::power2::lemma_pow2_pos(e);
                assert(u * pow2(925) == q * pow2(e + 925)) by (nonlinear_arith)
                    requires
                        u == q * pow2(e),
                        pow2(e + 925) == pow2(e) * pow2(925),
                ;
                vstd::arithmetic::power2::lemma_pow2_strictly_increases(52, e + 925);
                assert(q * pow2(e + 925) >= pow2(e + 925)) by (nonlinear_arith)
                    requires
                        q >= 1,
                ;
                assert(f.unit() == 0x80_0000);
                assert(1 <= c / 0x80_0000 < 255);
                let code = lemma_exact_value(g, q, e + 925);
                assert((e + 925 + 2) * g.unit() <= 1200 * g.unit()) by (nonlinear_arith)
                    requires
                        e <= 254,
                ;
                code
            }
        };
        crate::round::lemma_rounded_exact(g, code);
        let n = pow2(925);
        assert(-(u as int) * n == -(u * n)) by (nonlinear_arith);
    }

    /// Narrowing undoes widening.
    pub proof fn law_widening_is_undone_by_narrowing(self)
        requires
            self.finite(),
        ensures
            self.spec_widen().spec_narrow() == self,
    {
        let (f, g) = (Format::Single, Format::Double);
        let u = f.units(f.code(self.raw()));
        let n = pow2(925);
        vstd::arithmetic::power2::lemma_pow2_pos(925);
        self.law_widening_keeps_the_value();
        assert(-(u as int) * n == -(u * n)) by (nonlinear_arith);
        assert(1 * n == n);
        crate::float::lemma_rounded_scaled(f, u, 1, n);
        crate::round::lemma_rounded_exact(f, f.code(self.raw()));
    }
}

impl Binary32 {
    /// The smaller and the larger one of two numbers are the two numbers, and NaN gives
    /// way to a number. A number held between two others lies between them, and stays as
    /// it is where it does already.
    pub proof fn law_extremes_are_the_numbers(self, other: Binary32, lo: Binary32, hi: Binary32)
        ensures
            ({
                let (a, b) = (self.spec_min(other), self.spec_max(other));
                &&& a == self && b == other || a == other && b == self || self.equals(other)
                    || self.not_a_number() || other.not_a_number()
                &&& !b.below(a) && !self.below(a) && !other.below(a) && !b.below(self) && !b.below(
                    other,
                )
                &&& self.not_a_number() ==> a == other && b == other
                &&& other.not_a_number() && !self.not_a_number() ==> a == self && b == self
            }),
            !self.not_a_number() && !hi.below(lo) && !lo.not_a_number() && !hi.not_a_number() ==> ({
                let c = self.spec_clamp(lo, hi);
                &&& !c.below(lo) && !hi.below(c)
                &&& !self.below(lo) && !hi.below(self) ==> c == self
                &&& self.below(lo) ==> c == lo
                &&& hi.below(self) ==> c == hi
            }),
    {
    }
}

impl Binary64 {
    /// The smaller and the larger one of two numbers are the two numbers, and NaN gives
    /// way to a number. A number held between two others lies between them, and stays as
    /// it is where it does already.
    pub proof fn law_extremes_are_the_numbers(self, other: Binary64, lo: Binary64, hi: Binary64)
        ensures
            ({
                let (a, b) = (self.spec_min(other), self.spec_max(other));
                &&& a == self && b == other || a == other && b == self || self.equals(other)
                    || self.not_a_number() || other.not_a_number()
                &&& !b.below(a) && !self.below(a) && !other.below(a) && !b.below(self) && !b.below(
                    other,
                )
                &&& self.not_a_number() ==> a == other && b == other
                &&& other.not_a_number() && !self.not_a_number() ==> a == self && b == self
            }),
            !self.not_a_number() && !hi.below(lo) && !lo.not_a_number() && !hi.not_a_number() ==> ({
                let c = self.spec_clamp(lo, hi);
                &&& !c.below(lo) && !hi.below(c)
                &&& !self.below(lo) && !hi.below(self) ==> c == self
                &&& self.below(lo) ==> c == lo
                &&& hi.below(self) ==> c == hi
            }),
    {
    }
}

} // verus!
