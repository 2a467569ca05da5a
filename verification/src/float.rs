//! IEEE 754 arithmetic on bit patterns.
//!
//! A value of a binary format is held by its bits. What an operation returns is
//! stated over the exact values: the sum of two finite numbers, for instance, is
//! the exact sum of their [`Format::value`]s, rounded once by
//! [`Format::rounded`]. Where a result is not a number, the quiet NaN with an
//! empty payload is returned.
use crate::round::{
    bit_length, in_cell, lemma_quotient_bounds, lemma_same_cell, lemma_shl_is_mul,
    lemma_unit_is_pow2, lemma_units_increase, Format,
};
use vstd::arithmetic::div_mod::{lemma_div_is_ordered, lemma_fundamental_div_mod};
use vstd::arithmetic::power2::{
    lemma_pow2_adds, lemma_pow2_pos, lemma_pow2_strictly_increases, lemma_pow2_unfold, pow2,
};
use vstd::prelude::*;

verus! {

impl Format {
    /// The bits are those of a value of the format.
    pub open spec fn valid(self, bits: nat) -> bool {
        bits < 2 * self.sign_weight()
    }

    /// The sign bit is set.
    pub open spec fn negative(self, bits: nat) -> bool {
        bits >= self.sign_weight()
    }

    /// The bits without the sign.
    pub open spec fn code(self, bits: nat) -> nat {
        if bits >= self.sign_weight() {
            (bits - self.sign_weight()) as nat
        } else {
            bits
        }
    }

    pub open spec fn is_nan(self, bits: nat) -> bool {
        self.code(bits) > self.infinity()
    }

    pub open spec fn is_infinite(self, bits: nat) -> bool {
        self.code(bits) == self.infinity()
    }

    pub open spec fn is_finite(self, bits: nat) -> bool {
        self.code(bits) < self.infinity()
    }

    pub open spec fn is_zero(self, bits: nat) -> bool {
        self.code(bits) == 0
    }

    /// The value of finite bits, in units of the smallest positive value.
    pub open spec fn value(self, bits: nat) -> int {
        if self.negative(bits) {
            -(self.units(self.code(bits)) as int)
        } else {
            self.units(self.code(bits)) as int
        }
    }

    /// The bits with the given sign and code.
    pub open spec fn pack(self, negative: bool, code: nat) -> nat {
        if negative {
            code + self.sign_weight()
        } else {
            code
        }
    }

    /// The quiet NaN with an empty payload.
    pub open spec fn nan(self) -> nat {
        self.infinity() + self.unit() / 2
    }

    /// Numbers (infinities counted, NaN not) are ordered as their ranks; the two
    /// zeros share one.
    pub open spec fn rank(self, bits: nat) -> int {
        if self.negative(bits) {
            -(self.code(bits) as int)
        } else {
            self.code(bits) as int
        }
    }

    /// The place of the bits in the total order of IEEE 754: negative NaN first,
    /// then the numbers with the negative zero before the positive one, then
    /// positive NaN.
    pub open spec fn total_rank(self, bits: nat) -> int {
        if self.negative(bits) {
            -1 - self.code(bits)
        } else {
            self.code(bits) as int
        }
    }

    /// `a < b`; false when either is NaN.
    pub open spec fn less(self, a: nat, b: nat) -> bool {
        !self.is_nan(a) && !self.is_nan(b) && self.rank(a) < self.rank(b)
    }

    /// `a == b` as numbers; false when either is NaN.
    pub open spec fn same(self, a: nat, b: nat) -> bool {
        !self.is_nan(a) && !self.is_nan(b) && self.rank(a) == self.rank(b)
    }

    /// The smaller number; the other argument when one is NaN.
    pub open spec fn lesser(self, a: nat, b: nat) -> nat {
        if self.is_nan(a) {
            b
        } else if self.less(b, a) {
            b
        } else {
            a
        }
    }

    /// The larger number; the other argument when one is NaN.
    pub open spec fn greater(self, a: nat, b: nat) -> nat {
        if self.is_nan(a) {
            b
        } else if self.less(a, b) {
            b
        } else {
            a
        }
    }

    /// The bits with the opposite sign.
    pub open spec fn negated(self, bits: nat) -> nat {
        self.pack(!self.negative(bits), self.code(bits))
    }

    /// The value nearest to the integer `v` of units.
    pub open spec fn nearest(self, v: int) -> nat {
        if v < 0 {
            self.pack(true, self.rounded((-v) as nat, 1))
        } else {
            self.rounded(v as nat, 1)
        }
    }

    pub open spec fn sum_of(self, a: nat, b: nat) -> nat {
        if self.is_nan(a) || self.is_nan(b) {
            self.nan()
        } else if self.is_infinite(a) {
            if self.is_infinite(b) && self.negative(a) != self.negative(b) {
                self.nan()
            } else {
                a
            }
        } else if self.is_infinite(b) {
            b
        } else if self.is_zero(a) && self.is_zero(b) {
            self.pack(self.negative(a) && self.negative(b), 0)
        } else {
            self.nearest(self.value(a) + self.value(b))
        }
    }

    pub open spec fn difference_of(self, a: nat, b: nat) -> nat {
        self.sum_of(a, self.negated(b))
    }

    pub open spec fn product_of(self, a: nat, b: nat) -> nat {
        let sign = self.negative(a) != self.negative(b);
        if self.is_nan(a) || self.is_nan(b) {
            self.nan()
        } else if self.is_infinite(a) || self.is_infinite(b) {
            if self.is_zero(a) || self.is_zero(b) {
                self.nan()
            } else {
                self.pack(sign, self.infinity())
            }
        } else {
            self.pack(
                sign,
                self.rounded(
                    self.units(self.code(a)) * self.units(self.code(b)),
                    pow2(self.scale()),
                ),
            )
        }
    }

    pub open spec fn quotient_of(self, a: nat, b: nat) -> nat {
        let sign = self.negative(a) != self.negative(b);
        if self.is_nan(a) || self.is_nan(b) {
            self.nan()
        } else if self.is_infinite(a) {
            if self.is_infinite(b) {
                self.nan()
            } else {
                self.pack(sign, self.infinity())
            }
        } else if self.is_infinite(b) {
            self.pack(sign, 0)
        } else if self.is_zero(b) {
            if self.is_zero(a) {
                self.nan()
            } else {
                self.pack(sign, self.infinity())
            }
        } else {
            self.pack(
                sign,
                self.rounded(
                    self.units(self.code(a)) * pow2(self.scale()),
                    self.units(self.code(b)),
                ),
            )
        }
    }

    /// `code` is nearest to the square root of `n` (in units): `n` lies between
    /// the squares of the midpoints to both neighbours, and on a midpoint the
    /// even code is taken.
    pub open spec fn is_root(self, code: nat, n: nat) -> bool {
        let below = self.units((code - 1) as nat) + self.units(code);
        let above = self.units(code) + self.units(code + 1);
        &&& code < self.infinity()
        &&& code > 0 ==> below * below <= 4 * n
        &&& code > 0 && below * below == 4 * n ==> code % 2 == 0
        &&& 4 * n <= above * above
        &&& 4 * n == above * above ==> code % 2 == 0
    }
}

proof fn lemma_exact_cell(num: nat, m: nat, s: nat)
    requires
        num == m * pow2(s),
    ensures
        in_cell(num, 1, m, s as int, false),
{
    vstd::arithmetic::power2::lemma2_to64();
    lemma_pow2_pos(s);
    assert(num * pow2(0) == num) by (nonlinear_arith)
        requires
            pow2(0) == 1,
    ;
    assert((m + 1) * pow2(s) > m * pow2(s)) by (nonlinear_arith)
        requires
            pow2(s) > 0,
    ;
    assert(1 * pow2(s) == pow2(s));
}

impl Format {
    /// Significand and exponent of a code: its value is `m * 2^e` units.
    fn decode(self, code: u64) -> (parts: (u64, i32))
        requires
            code <= self.infinity(),
        ensures
            0 <= parts.1 <= 2046,
            self.units(code as nat) == parts.0 * pow2(parts.1 as nat),
            parts.0 < 2 * self.unit(),
            parts.1 > 0 ==> parts.0 >= self.unit(),
            parts.1 == (if code < self.unit() {
                0
            } else {
                code as nat / self.unit() - 1
            }),
            parts.0 == 0 <==> code == 0,
            self is Single ==> parts.1 <= 254,
    {
        let unit: u64 = self.unit_code();
        proof {
            reveal(Format::units);
            vstd::arithmetic::power2::lemma2_to64();
            lemma_quotient_bounds(code as nat, self.unit(), 1);
            lemma_quotient_bounds(code as nat, self.unit(), 2048);
            lemma_quotient_bounds(code as nat, self.unit(), 256);
        }
        if code < unit {
            proof {
                assert(code * pow2(0) == code) by (nonlinear_arith)
                    requires
                        pow2(0) == 1,
                ;
            }
            (code, 0)
        } else {
            (unit + code % unit, (code / unit) as i32 - 1)
        }
    }

    /// The sum of two magnitudes, the larger one first.
    fn add_codes(self, hi: u64, lo: u64) -> (code: u64)
        requires
            lo <= hi < self.infinity(),
        ensures
            code == self.rounded(self.units(hi as nat) + self.units(lo as nat), 1),
            code <= self.infinity(),
    {
        let (mh, eh): (u64, i32) = self.decode(hi);
        let (ml, el): (u64, i32) = self.decode(lo);
        let ghost num: nat = self.units(hi as nat) + self.units(lo as nat);
        proof {
            lemma_div_is_ordered(lo as int, hi as int, self.unit() as int);
            lemma_quotient_bounds(lo as nat, self.unit(), 1);
            lemma_quotient_bounds(hi as nat, self.unit(), 1);
        }
        let d: u32 = (eh - el) as u32;
        if d <= 64 {
            proof {
                lemma_aligned(mh as nat, d as nat);
                lemma_shl_is_mul(mh as u128, d);
                lemma_pow2_adds(d as nat, el as nat);
            }
            let x: u128 = (mh as u128) << d;
            let m: u128 = x + ml as u128;
            proof {
                assert(num == m * pow2(el as nat)) by (nonlinear_arith)
                    requires
                        num == mh * pow2(eh as nat) + ml * pow2(el as nat),
                        pow2(eh as nat) == pow2(d as nat) * pow2(el as nat),
                        m == mh * pow2(d as nat) + ml,
                ;
                lemma_exact_cell(num, m as nat, el as nat);
            }
            self.encode(m, el, false, Ghost(num), Ghost(1))
        } else {
            let m: u128 = mh as u128 * 1024;
            proof {
                lemma_far_apart(mh as nat, eh as nat, ml as nat, el as nat);
                let s = (eh - 10) as nat;
                let p = pow2(s);
                assert(num * pow2(0) == num && 1 * p == p && (m + 1) * p == m * p + p)
                    by (nonlinear_arith)
                    requires
                        pow2(0) == 1,
                ;
                lemma_pow2_pos(el as nat);
                assert(ml > 0 ==> ml * pow2(el as nat) > 0) by (nonlinear_arith)
                    requires
                        pow2(el as nat) > 0,
                ;
                assert(ml == 0 ==> ml * pow2(el as nat) == 0) by (nonlinear_arith);
            }
            self.encode(m, eh - 10, ml > 0, Ghost(num), Ghost(1))
        }
    }

    /// The difference of two magnitudes, the larger one first.
    fn subtract_codes(self, hi: u64, lo: u64) -> (code: u64)
        requires
            lo <= hi < self.infinity(),
        ensures
            self.units(hi as nat) >= self.units(lo as nat),
            code == self.rounded((self.units(hi as nat) - self.units(lo as nat)) as nat, 1),
            code <= self.infinity(),
    {
        let (mh, eh): (u64, i32) = self.decode(hi);
        let (ml, el): (u64, i32) = self.decode(lo);
        proof {
            if lo < hi {
                lemma_units_increase(self, lo as nat, hi as nat);
            }
            lemma_div_is_ordered(lo as int, hi as int, self.unit() as int);
            lemma_quotient_bounds(lo as nat, self.unit(), 1);
            lemma_quotient_bounds(hi as nat, self.unit(), 1);
        }
        let ghost num: nat = (self.units(hi as nat) - self.units(lo as nat)) as nat;
        let d: u32 = (eh - el) as u32;
        if d <= 64 {
            proof {
                lemma_aligned(mh as nat, d as nat);
                lemma_shl_is_mul(mh as u128, d);
                lemma_pow2_adds(d as nat, el as nat);
                lemma_pow2_pos(el as nat);
                assert(mh * pow2(d as nat) >= ml) by (nonlinear_arith)
                    requires
                        mh * pow2(eh as nat) >= ml * pow2(el as nat),
                        pow2(eh as nat) == pow2(d as nat) * pow2(el as nat),
                        pow2(el as nat) > 0,
                ;
            }
            let x: u128 = (mh as u128) << d;
            let m: u128 = x - ml as u128;
            proof {
                assert(num == m * pow2(el as nat)) by (nonlinear_arith)
                    requires
                        num == mh * pow2(eh as nat) - ml * pow2(el as nat),
                        pow2(eh as nat) == pow2(d as nat) * pow2(el as nat),
                        m == mh * pow2(d as nat) - ml,
                ;
                lemma_exact_cell(num, m as nat, el as nat);
            }
            self.encode(m, el, false, Ghost(num), Ghost(1))
        } else {
            proof {
                lemma_far_apart(mh as nat, eh as nat, ml as nat, el as nat);
                let s = (eh - 10) as nat;
                let p = pow2(s);
                let m = mh as nat * 1024;
                assert(num * pow2(0) == num && 1 * p == p && (m + 1) * p == m * p + p && (m - 1) * p
                    == m * p - p && ((m - 1) as nat + 1) * p == m * p) by (nonlinear_arith)
                    requires
                        pow2(0) == 1,
                        m >= 1,
                ;
                lemma_pow2_pos(el as nat);
                assert(ml > 0 ==> ml * pow2(el as nat) > 0) by (nonlinear_arith)
                    requires
                        pow2(el as nat) > 0,
                ;
                assert(ml == 0 ==> ml * pow2(el as nat) == 0) by (nonlinear_arith);
            }
            if ml > 0 {
                self.encode(mh as u128 * 1024 - 1, eh - 10, true, Ghost(num), Ghost(1))
            } else {
                self.encode(mh as u128 * 1024, eh - 10, false, Ghost(num), Ghost(1))
            }
        }
    }
}

proof fn lemma_aligned(m: nat, d: nat)
    requires
        m < 0x20_0000_0000_0000,
        d <= 64,
    ensures
        m * pow2(d) < 0x20_0000_0000_0000_0000_0000_0000_0000,
{
    vstd::arithmetic::power2::lemma2_to64();
    vstd::arithmetic::power2::lemma2_to64_rest();
    lemma_pow2_pos(d);
    if d < 64 {
        lemma_pow2_strictly_increases(d, 64);
    }
    assert(m * pow2(d) <= m * 0x1_0000_0000_0000_0000) by (nonlinear_arith)
        requires
            pow2(d) <= 0x1_0000_0000_0000_0000,
    ;
}

/// A magnitude that is far below another is less than one step of its cell.
proof fn lemma_far_apart(mh: nat, eh: nat, ml: nat, el: nat)
    requires
        ml < 0x20_0000_0000_0000,
        el + 64 < eh,
    ensures
        pow2(0) == 1,
        mh * pow2(eh) == (mh * 1024) * pow2((eh - 10) as nat),
        ml * pow2(el) < pow2((eh - 10) as nat),
{
    vstd::arithmetic::power2::lemma2_to64();
    vstd::arithmetic::power2::lemma2_to64_rest();
    lemma_pow2_adds(10, (eh - 10) as nat);
    assert(mh * pow2(eh) == (mh * 1024) * pow2((eh - 10) as nat)) by (nonlinear_arith)
        requires
            pow2(eh) == 1024 * pow2((eh - 10) as nat),
    ;
    lemma_pow2_adds(53, el);
    lemma_pow2_strictly_increases(53 + el, (eh - 10) as nat);
    lemma_pow2_pos(el);
    assert(ml * pow2(el) < pow2(53) * pow2(el)) by (nonlinear_arith)
        requires
            ml < pow2(53),
            pow2(el) > 0,
    ;
}

proof fn lemma_exact_fraction(num: nat, den: nat, m: nat, s: int)
    requires
        den > 0,
        num * pow2(if s < 0 { (-s) as nat } else { 0 }) == m * (den * pow2(if s > 0 {
            s as nat
        } else {
            0
        })),
    ensures
        in_cell(num, den, m, s, false),
{
    let p = pow2(if s > 0 { s as nat } else { 0 });
    lemma_pow2_pos(if s > 0 { s as nat } else { 0 });
    assert((m + 1) * (den * p) > m * (den * p)) by (nonlinear_arith)
        requires
            den > 0,
            p > 0,
    ;
}

/// A common factor cancels from a quotient.
pub proof fn lemma_cancel(a: nat, b: nat, c: nat)
    requires
        b > 0,
        c > 0,
    ensures
        (a * c) / (b * c) == a / b,
{
    lemma_fundamental_div_mod(a as int, b as int);
    let q = a / b;
    let r = a % b;
    assert(a * c == q * (b * c) + r * c) by (nonlinear_arith)
        requires
            a == b * q + r,
    ;
    assert(r * c < b * c && r * c >= 0) by (nonlinear_arith)
        requires
            r < b,
            c > 0,
    ;
    vstd::arithmetic::div_mod::lemma_fundamental_div_mod_converse(
        (a * c) as int,
        (b * c) as int,
        q as int,
        (r * c) as int,
    );
}

impl Format {
    fn sign_of(self, bits: u64) -> (r: bool)
        ensures
            r == self.negative(bits as nat),
    {
        bits >= self.sign_code()
    }

    fn code_of(self, bits: u64) -> (r: u64)
        requires
            self.valid(bits as nat),
        ensures
            r == self.code(bits as nat),
            r < self.sign_weight(),
    {
        let w: u64 = self.sign_code();
        if bits >= w {
            bits - w
        } else {
            bits
        }
    }

    fn join(self, negative: bool, code: u64) -> (bits: u64)
        requires
            code < self.sign_weight(),
        ensures
            bits == self.pack(negative, code as nat),
            self.valid(bits as nat),
            self.negative(bits as nat) == negative,
            self.code(bits as nat) == code,
    {
        if negative {
            code + self.sign_code()
        } else {
            code
        }
    }

    fn nan_bits(self) -> (bits: u64)
        ensures
            bits == self.nan(),
            self.valid(bits as nat),
            self.is_nan(bits as nat),
    {
        self.infinity_code() + self.unit_code() / 2
    }

    pub fn test_nan(self, bits: u64) -> (r: bool)
        requires
            self.valid(bits as nat),
        ensures
            r == self.is_nan(bits as nat),
    {
        self.code_of(bits) > self.infinity_code()
    }

    pub fn test_finite(self, bits: u64) -> (r: bool)
        requires
            self.valid(bits as nat),
        ensures
            r == self.is_finite(bits as nat),
    {
        self.code_of(bits) < self.infinity_code()
    }

    pub fn test_less(self, a: u64, b: u64) -> (r: bool)
        requires
            self.valid(a as nat),
            self.valid(b as nat),
        ensures
            r == self.less(a as nat, b as nat),
    {
        if self.test_nan(a) || self.test_nan(b) {
            return false;
        }
        let (na, nb): (bool, bool) = (self.sign_of(a), self.sign_of(b));
        let (ca, cb): (u64, u64) = (self.code_of(a), self.code_of(b));
        if na {
            if nb {
                cb < ca
            } else {
                ca > 0 || cb > 0
            }
        } else {
            !nb && ca < cb
        }
    }

    pub fn test_same(self, a: u64, b: u64) -> (r: bool)
        requires
            self.valid(a as nat),
            self.valid(b as nat),
        ensures
            r == self.same(a as nat, b as nat),
    {
        !self.test_nan(a) && !self.test_nan(b) && !self.test_less(a, b) && !self.test_less(b, a)
    }

    /// `a` comes before `b` in the total order.
    pub fn test_before(self, a: u64, b: u64) -> (r: bool)
        requires
            self.valid(a as nat),
            self.valid(b as nat),
        ensures
            r == (self.total_rank(a as nat) < self.total_rank(b as nat)),
    {
        let (na, nb): (bool, bool) = (self.sign_of(a), self.sign_of(b));
        let (ca, cb): (u64, u64) = (self.code_of(a), self.code_of(b));
        if na {
            !nb || cb < ca
        } else {
            !nb && ca < cb
        }
    }

    pub fn pick_lesser(self, a: u64, b: u64) -> (r: u64)
        requires
            self.valid(a as nat),
            self.valid(b as nat),
        ensures
            r == self.lesser(a as nat, b as nat),
            r == a || r == b,
    {
        if self.test_nan(a) || self.test_less(b, a) {
            b
        } else {
            a
        }
    }

    pub fn pick_greater(self, a: u64, b: u64) -> (r: u64)
        requires
            self.valid(a as nat),
            self.valid(b as nat),
        ensures
            r == self.greater(a as nat, b as nat),
            r == a || r == b,
    {
        if self.test_nan(a) || self.test_less(a, b) {
            b
        } else {
            a
        }
    }

    pub fn negate(self, bits: u64) -> (r: u64)
        requires
            self.valid(bits as nat),
        ensures
            r == self.negated(bits as nat),
            self.valid(r as nat),
    {
        self.join(!self.sign_of(bits), self.code_of(bits))
    }

    pub fn magnitude(self, bits: u64) -> (r: u64)
        requires
            self.valid(bits as nat),
        ensures
            r == self.code(bits as nat),
            self.valid(r as nat),
    {
        self.code_of(bits)
    }

    pub fn add_bits(self, a: u64, b: u64) -> (r: u64)
        requires
            self.valid(a as nat),
            self.valid(b as nat),
        ensures
            r == self.sum_of(a as nat, b as nat),
            self.valid(r as nat),
    {
        if self.test_nan(a) || self.test_nan(b) {
            return self.nan_bits();
        }
        let (na, nb): (bool, bool) = (self.sign_of(a), self.sign_of(b));
        let (ca, cb): (u64, u64) = (self.code_of(a), self.code_of(b));
        let inf: u64 = self.infinity_code();
        if ca == inf {
            return if cb == inf && na != nb {
                self.nan_bits()
            } else {
                a
            };
        }
        if cb == inf {
            return b;
        }
        if ca == 0 && cb == 0 {
            return self.join(na && nb, 0);
        }
        proof {
            if ca < cb {
                lemma_units_increase(self, ca as nat, cb as nat);
            } else if cb < ca {
                lemma_units_increase(self, cb as nat, ca as nat);
            }
            crate::round::lemma_units_of_zero(self);
            if ca > 0 {
                lemma_units_increase(self, 0, ca as nat);
            }
            if cb > 0 {
                lemma_units_increase(self, 0, cb as nat);
            }
        }
        if na == nb {
            let code: u64 = if ca < cb {
                self.add_codes(cb, ca)
            } else {
                self.add_codes(ca, cb)
            };
            self.join(na, code)
        } else if ca < cb {
            let code: u64 = self.subtract_codes(cb, ca);
            self.join(nb, code)
        } else if cb < ca {
            let code: u64 = self.subtract_codes(ca, cb);
            self.join(na, code)
        } else {
            proof {
                crate::round::lemma_rounded_zero_over(self, 1);
            }
            self.join(false, 0)
        }
    }

    pub fn subtract_bits(self, a: u64, b: u64) -> (r: u64)
        requires
            self.valid(a as nat),
            self.valid(b as nat),
        ensures
            r == self.difference_of(a as nat, b as nat),
            self.valid(r as nat),
    {
        let nb: u64 = self.negate(b);
        self.add_bits(a, nb)
    }

    pub fn multiply_bits(self, a: u64, b: u64) -> (r: u64)
        requires
            self.valid(a as nat),
            self.valid(b as nat),
        ensures
            r == self.product_of(a as nat, b as nat),
            self.valid(r as nat),
    {
        if self.test_nan(a) || self.test_nan(b) {
            return self.nan_bits();
        }
        let sign: bool = self.sign_of(a) != self.sign_of(b);
        let (ca, cb): (u64, u64) = (self.code_of(a), self.code_of(b));
        let inf: u64 = self.infinity_code();
        if ca == inf || cb == inf {
            return if ca == 0 || cb == 0 {
                self.nan_bits()
            } else {
                self.join(sign, inf)
            };
        }
        let (ma, ea): (u64, i32) = self.decode(ca);
        let (mb, eb): (u64, i32) = self.decode(cb);
        let scale: i32 = self.scale_exponent();
        proof {
            assert(ma * mb <= 0x1f_ffff_ffff_ffff * 0x1f_ffff_ffff_ffff) by (nonlinear_arith)
                requires
                    ma <= 0x1f_ffff_ffff_ffff,
                    mb <= 0x1f_ffff_ffff_ffff,
            ;
        }
        let m: u128 = ma as u128 * mb as u128;
        let s: i32 = ea + eb - scale;
        let ghost num: nat = self.units(ca as nat) * self.units(cb as nat);
        let ghost den: nat = pow2(self.scale());
        proof {
            let e = (ea + eb) as nat;
            lemma_pow2_pos(self.scale());
            lemma_pow2_adds(ea as nat, eb as nat);
            assert(num == m * pow2(e)) by (nonlinear_arith)
                requires
                    num == (ma * pow2(ea as nat)) * (mb * pow2(eb as nat)),
                    pow2(e) == pow2(ea as nat) * pow2(eb as nat),
                    m == ma * mb,
            ;
            vstd::arithmetic::power2::lemma2_to64();
            if s < 0 {
                lemma_pow2_adds(e, (-s) as nat);
                assert(num * pow2((-s) as nat) == m * (den * pow2(0))) by (nonlinear_arith)
                    requires
                        num == m * pow2(e),
                        den == pow2(e) * pow2((-s) as nat),
                        pow2(0) == 1,
                ;
            } else {
                lemma_pow2_adds(self.scale(), s as nat);
                assert(num * pow2(0) == m * (den * pow2(s as nat))) by (nonlinear_arith)
                    requires
                        num == m * pow2(e),
                        pow2(e) == den * pow2(s as nat),
                        pow2(0) == 1,
                ;
            }
            lemma_exact_fraction(num, den, m as nat, s as int);
        }
        let code: u64 = self.encode(m, s, false, Ghost(num), Ghost(den));
        self.join(sign, code)
    }

    pub fn divide_bits(self, a: u64, b: u64) -> (r: u64)
        requires
            self.valid(a as nat),
            self.valid(b as nat),
        ensures
            r == self.quotient_of(a as nat, b as nat),
            self.valid(r as nat),
    {
        if self.test_nan(a) || self.test_nan(b) {
            return self.nan_bits();
        }
        let sign: bool = self.sign_of(a) != self.sign_of(b);
        let (ca, cb): (u64, u64) = (self.code_of(a), self.code_of(b));
        let inf: u64 = self.infinity_code();
        if ca == inf {
            return if cb == inf {
                self.nan_bits()
            } else {
                self.join(sign, inf)
            };
        }
        if cb == inf {
            return self.join(sign, 0);
        }
        if cb == 0 {
            return if ca == 0 {
                self.nan_bits()
            } else {
                self.join(sign, inf)
            };
        }
        proof {
            lemma_units_increase(self, 0, cb as nat);
            lemma_pow2_pos(self.scale());
        }
        if ca == 0 {
            proof {
                crate::round::lemma_units_of_zero(self);
                assert(0 * pow2(self.scale()) == 0);
                crate::round::lemma_rounded_zero_over(self, self.units(cb as nat));
            }
            return self.join(sign, 0);
        }
        let code: u64 = self.divide_codes(ca, cb);
        self.join(sign, code)
    }

    fn divide_codes(self, ca: u64, cb: u64) -> (code: u64)
        requires
            0 < ca < self.infinity(),
            0 < cb < self.infinity(),
        ensures
            code == self.rounded(
                self.units(ca as nat) * pow2(self.scale()),
                self.units(cb as nat),
            ),
            code <= self.infinity(),
    {
        let (ma, ea): (u64, i32) = self.decode(ca);
        let (mb, eb): (u64, i32) = self.decode(cb);
        let scale: i32 = self.scale_exponent();
        let len: u32 = bit_length(ma as u128);
        proof {
            lemma_length_of_significand(ma as nat, len as nat);
            lemma_pow2_adds(len as nat, (126 - len) as nat);
            lemma_pow2_adds((len - 1) as nat, (126 - len) as nat);
            lemma_large_powers();
            let p = pow2((126 - len) as nat);
            lemma_pow2_pos((126 - len) as nat);
            assert(ma * p < pow2(len as nat) * p && ma * p >= pow2((len - 1) as nat) * p)
                by (nonlinear_arith)
                requires
                    ma < pow2(len as nat),
                    ma >= pow2((len - 1) as nat),
                    p > 0,
            ;
            lemma_shl_is_mul(ma as u128, (126 - len) as u32);
        }
        let g: u32 = 126 - len;
        let x: u128 = (ma as u128) << g;
        let q: u128 = x / mb as u128;
        let r: u128 = x % mb as u128;
        let s: i32 = ea + scale - eb - g as i32;
        let ghost num: nat = self.units(ca as nat) * pow2(self.scale());
        let ghost den: nat = self.units(cb as nat);
        proof {
            lemma_fundamental_div_mod(x as int, mb as int);
            assert(q >= 0x40_0000_0000_0000) by (nonlinear_arith)
                requires
                    x == mb * q + r,
                    r < mb,
                    mb < 0x20_0000_0000_0000,
                    x >= 0x2000_0000_0000_0000_0000_0000_0000_0000,
            ;
            let sn: nat = if s < 0 { (-s) as nat } else { 0 };
            let sp: nat = if s > 0 { s as nat } else { 0 };
            let w = pow2((eb + sp) as nat);
            lemma_pow2_pos((eb + sp) as nat);
            lemma_pow2_adds(eb as nat, sp);
            lemma_pow2_adds(ea as nat, self.scale());
            lemma_pow2_adds((ea + scale) as nat, sn);
            lemma_pow2_adds(g as nat, (eb + sp) as nat);
            assert(ea + scale + sn == g + (eb + sp));
            assert(num * pow2(sn) == x * w) by (nonlinear_arith)
                requires
                    num == (ma * pow2(ea as nat)) * pow2(self.scale()),
                    pow2((ea + scale) as nat) == pow2(ea as nat) * pow2(self.scale()),
                    pow2((ea + scale) as nat) * pow2(sn) == pow2(g as nat) * w,
                    x == ma * pow2(g as nat),
            ;
            assert(den * pow2(sp) == mb * w) by (nonlinear_arith)
                requires
                    den == mb * pow2(eb as nat),
                    w == pow2(eb as nat) * pow2(sp),
            ;
            assert(q * (mb * w) <= x * w && x * w < (q + 1) * (mb * w) && (r > 0 <==> x * w != q * (
            mb * w))) by (nonlinear_arith)
                requires
                    x == mb * q + r,
                    0 <= r < mb,
                    w > 0,
            ;
            lemma_pow2_pos(eb as nat);
            assert(den > 0) by (nonlinear_arith)
                requires
                    den == mb * pow2(eb as nat),
                    mb > 0,
                    pow2(eb as nat) > 0,
            ;
            assert(q <= x) by (nonlinear_arith)
                requires
                    x == mb * q + r,
                    r >= 0,
                    mb >= 1,
            ;
        }
        self.encode(q, s, r > 0, Ghost(num), Ghost(den))
    }
}

proof fn lemma_large_powers()
    ensures
        pow2(125) == 0x2000_0000_0000_0000_0000_0000_0000_0000,
        pow2(126) == 0x4000_0000_0000_0000_0000_0000_0000_0000,
{
    vstd::arithmetic::power2::lemma2_to64();
    vstd::arithmetic::power2::lemma2_to64_rest();
    lemma_pow2_adds(64, 61);
    lemma_pow2_adds(64, 62);
}

proof fn lemma_length_of_significand(m: nat, len: nat)
    requires
        m < 0x20_0000_0000_0000,
        len > 0,
        pow2((len - 1) as nat) <= m,
    ensures
        len <= 53,
{
    vstd::arithmetic::power2::lemma2_to64_rest();
    if len > 54 {
        lemma_pow2_strictly_increases(53, (len - 1) as nat);
    }
}

impl Format {
    /// The code nearest to the square root of `n` (in units).
    pub open spec fn nearest_root(self, n: nat) -> nat {
        choose|code: nat| self.is_root(code, n)
    }

    pub open spec fn root_of(self, bits: nat) -> nat {
        if self.is_nan(bits) {
            self.nan()
        } else if self.is_zero(bits) {
            bits
        } else if self.negative(bits) {
            self.nan()
        } else if self.is_infinite(bits) {
            bits
        } else {
            self.nearest_root(self.units(bits) * pow2(self.scale()))
        }
    }

    /// Two codes cannot both be nearest to one square root.
    pub proof fn lemma_root_unique(self, c1: nat, c2: nat, n: nat)
        requires
            self.is_root(c1, n),
            self.is_root(c2, n),
        ensures
            c2 <= c1,
    {
        let a = self.units(c1) + self.units(c1 + 1);
        let b = self.units((c2 - 1) as nat) + self.units(c2);
        if c1 + 1 < c2 {
            lemma_units_increase(self, c1, (c2 - 1) as nat);
            lemma_units_increase(self, c1 + 1, c2);
            assert(a * a < b * b) by (nonlinear_arith)
                requires
                    0 <= a < b,
            ;
        }
    }

    pub fn root_bits(self, bits: u64) -> (r: u64)
        requires
            self.valid(bits as nat),
        ensures
            r == self.root_of(bits as nat),
            self.valid(r as nat),
            0 < bits < self.infinity() ==> self.is_root(
                r as nat,
                self.units(bits as nat) * pow2(self.scale()),
            ),
    {
        if self.test_nan(bits) {
            return self.nan_bits();
        }
        let code: u64 = self.code_of(bits);
        if code == 0 {
            return bits;
        }
        if self.sign_of(bits) {
            return self.nan_bits();
        }
        if code == self.infinity_code() {
            return bits;
        }
        let r: u64 = self.root_code(bits);
        proof {
            let n = self.units(bits as nat) * pow2(self.scale());
            let c = self.nearest_root(n);
            assert(self.is_root(c, n));
            self.lemma_root_unique(c, r as nat, n);
            self.lemma_root_unique(r as nat, c, n);
        }
        r
    }

    fn root_code(self, code: u64) -> (r: u64)
        requires
            0 < code < self.infinity(),
        ensures
            self.is_root(r as nat, self.units(code as nat) * pow2(self.scale())),
    {
        let (m, e): (u64, i32) = self.decode(code);
        let ex: i32 = e + self.scale_exponent();
        let len: u32 = bit_length(m as u128);
        proof {
            lemma_length_of_significand(m as nat, len as nat);
        }
        let h: u32 = if (ex - (124 - len as i32)) % 2 == 0 {
            124 - len
        } else {
            125 - len
        };
        proof {
            lemma_large_powers();
            lemma_pow2_unfold(125);
            lemma_pow2_unfold(124);
            lemma_pow2_adds(len as nat, h as nat);
            lemma_pow2_adds((len - 1) as nat, h as nat);
            if len + h < 125 {
                lemma_pow2_strictly_increases((len + h) as nat, 125);
            }
            if 123 < len - 1 + h {
                lemma_pow2_strictly_increases(123, (len - 1 + h) as nat);
            }
            let p = pow2(h as nat);
            lemma_pow2_pos(h as nat);
            assert(m * p < pow2(len as nat) * p && m * p >= pow2((len - 1) as nat) * p)
                by (nonlinear_arith)
                requires
                    m < pow2(len as nat),
                    m >= pow2((len - 1) as nat),
                    p > 0,
            ;
            lemma_shl_is_mul(m as u128, h);
        }
        let x: u128 = (m as u128) << h;
        let s: i32 = (ex - h as i32) / 2;
        let root: u64 = floor_root(x);
        let ghost n: nat = self.units(code as nat) * pow2(self.scale());
        let ghost p: nat = pow2(s as nat);
        proof {
            lemma_pow2_pos(s as nat);
            assert(s >= 0 && ex == h + s + s);
            lemma_pow2_adds(e as nat, self.scale());
            lemma_pow2_adds(h as nat, (s + s) as nat);
            lemma_pow2_adds(s as nat, s as nat);
            assert(n == x * (p * p)) by (nonlinear_arith)
                requires
                    n == (m * pow2(e as nat)) * pow2(self.scale()),
                    pow2(ex as nat) == pow2(e as nat) * pow2(self.scale()),
                    pow2(ex as nat) == pow2(h as nat) * (p * p),
                    x == m * pow2(h as nat),
            ;
            assert(root >= 0x40_0000_0000_0000) by (nonlinear_arith)
                requires
                    (root + 1) * (root + 1) > x,
                    x >= 0x800_0000_0000_0000_0000_0000_0000_0000,
                    root >= 0,
            ;
        }
        proof {
            self.lemma_root_in_range(root as nat, s as nat);
        }
        if root as u128 * root as u128 == x {
            let ghost num: nat = root as nat * p;
            proof {
                lemma_exact_cell(num, root as nat, s as nat);
            }
            let c: u64 = self.encode(root as u128, s, false, Ghost(num), Ghost(1));
            proof {
                self.lemma_exact_root(root as nat, p, n, c as nat);
            }
            c
        } else {
            let ghost j: nat = 4 * p;
            let ghost lo: nat = (root as nat * j + 1) * p;
            let ghost hi: nat = ((root as nat + 1) * j - 1) as nat * p;
            proof {
                lemma_surrogates(root as nat, s as nat, p);
                lemma_same_cell(self, lo, j, hi, j, root as nat, s as int);
            }
            let c: u64 = self.encode(root as u128, s, true, Ghost(lo), Ghost(j));
            proof {
                self.lemma_inexact_root(root as nat, p, x as nat, n, c as nat);
            }
            c
        }
    }

    /// Roots are far from overflow.
    proof fn lemma_root_in_range(self, root: nat, s: nat)
        requires
            root < 0x8000_0000_0000_0000,
            s <= (match self {
                Format::Single => 170nat,
                Format::Double => 1530nat,
            }),
        ensures
            forall|num: nat, den: nat|
                den > 0 && num < den * ((root + 1) * pow2(s)) ==> #[trigger] self.rounded(num, den)
                    < self.infinity(),
    {
        assert forall|num: nat, den: nat|
            den > 0 && num < den * ((root + 1) * pow2(s)) implies #[trigger] self.rounded(num, den)
            < self.infinity() by {
            crate::round::lemma_rounded_below(self, num, den, root + 1, s);
        }
    }

    proof fn lemma_exact_root(self, root: nat, p: nat, n: nat, c: nat)
        requires
            p > 0,
            n == (root * root) * (p * p),
            c == self.rounded(root * p, 1),
            c < self.infinity(),
        ensures
            self.is_root(c, n),
    {
        let v = root * p;
        crate::round::lemma_rounded_is_nearest(self, v, 1);
        let below = self.units((c - 1) as nat) + self.units(c);
        let above = self.units(c) + self.units(c + 1);
        assert(4 * n == (2 * v) * (2 * v)) by (nonlinear_arith)
            requires
                n == (root * root) * (p * p),
                v == root * p,
        ;
        if c > 0 {
            lemma_squares(below, 2 * v);
        }
        lemma_squares(2 * v, above);
    }

    proof fn lemma_inexact_root(self, root: nat, p: nat, x: nat, n: nat, c: nat)
        requires
            p > 0,
            root * root < x < (root + 1) * (root + 1),
            n == x * (p * p),
            c == self.rounded((root * (4 * p) + 1) * p, 4 * p),
            c == self.rounded(((root + 1) * (4 * p) - 1) as nat * p, 4 * p),
            c < self.infinity(),
        ensures
            self.is_root(c, n),
    {
        let j = 4 * p;
        let lo = (root * j + 1) * p;
        let hi = ((root + 1) * j - 1) as nat * p;
        crate::round::lemma_rounded_is_nearest(self, lo, j);
        crate::round::lemma_rounded_is_nearest(self, hi, j);
        let below = self.units((c - 1) as nat) + self.units(c);
        let above = self.units(c) + self.units(c + 1);
        let a = 2 * (root * p);
        let b = 2 * ((root + 1) * p);
        assert(a * a < 4 * n && 4 * n < b * b) by (nonlinear_arith)
            requires
                root * root < x < (root + 1) * (root + 1),
                n == x * (p * p),
                a == 2 * (root * p),
                b == 2 * ((root + 1) * p),
                p > 0,
        ;
        if c > 0 {
            assert(below <= a) by (nonlinear_arith)
                requires
                    below * j <= 2 * lo,
                    lo == (root * j + 1) * p,
                    j == 4 * p,
                    a == 2 * (root * p),
                    p > 0,
            ;
            lemma_squares(below, a);
        }
        assert((root + 1) * j >= 1) by (nonlinear_arith)
            requires
                j == 4 * p,
                p > 0,
        ;
        assert(above >= b) by (nonlinear_arith)
            requires
                2 * hi <= above * j,
                hi == ((root + 1) * j - 1) * p,
                j == 4 * p,
                b == 2 * ((root + 1) * p),
                p > 0,
        ;
        lemma_squares(b, above);
    }
}

proof fn lemma_squares(a: nat, b: nat)
    requires
        a <= b,
    ensures
        a * a <= b * b,
        a * a == b * b ==> a == b,
{
    assert(a * a <= b * b && (a * a == b * b ==> a == b)) by (nonlinear_arith)
        requires
            0 <= a <= b,
    ;
}

/// Fractions next to both ends of the cell of `root * 2^s`.
proof fn lemma_surrogates(root: nat, s: nat, p: nat)
    requires
        p == pow2(s),
    ensures
        p > 0,
        in_cell((root * (4 * p) + 1) * p, 4 * p, root, s as int, true),
        in_cell(((root + 1) * (4 * p) - 1) as nat * p, 4 * p, root, s as int, true),
        (root * (4 * p) + 1) * p < (4 * p) * ((root + 1) * p),
{
    lemma_pow2_pos(s);
    vstd::arithmetic::power2::lemma2_to64();
    let j = 4 * p;
    let lo = (root * j + 1) * p;
    assert((root + 1) * j >= 1) by (nonlinear_arith)
        requires
            j == 4 * p,
            p > 0,
    ;
    let hi = ((root + 1) * j - 1) as nat * p;
    assert(lo * pow2(0) == lo && hi * pow2(0) == hi) by (nonlinear_arith)
        requires
            pow2(0) == 1,
    ;
    assert(root * (j * p) < lo && lo < (root + 1) * (j * p)) by (nonlinear_arith)
        requires
            lo == (root * j + 1) * p,
            j == 4 * p,
            p > 0,
    ;
    assert(root * (j * p) < hi && hi < (root + 1) * (j * p)) by (nonlinear_arith)
        requires
            hi == ((root + 1) * j - 1) * p,
            j == 4 * p,
            p > 0,
    ;
    assert((root + 1) * (j * p) == j * ((root + 1) * p)) by (nonlinear_arith);
}

/// The integer part of the square root of `x`.
fn floor_root(x: u128) -> (root: u64)
    requires
        x < 0x2000_0000_0000_0000_0000_0000_0000_0000,
    ensures
        root < 0x8000_0000_0000_0000,
        root * root <= x < (root + 1) * (root + 1),
{
    let mut root: u64 = 0;
    let mut bit: u64 = 0x4000_0000_0000_0000;
    let ghost mut i: nat = 62;
    proof {
        vstd::arithmetic::power2::lemma2_to64_rest();
    }
    while bit > 0
        invariant
            x < 0x2000_0000_0000_0000_0000_0000_0000_0000,
            bit == 0 || bit == pow2(i),
            bit <= 0x4000_0000_0000_0000,
            root + 2 * bit <= 0x8000_0000_0000_0000,
            root * root <= x,
            bit > 0 ==> x < (root + 2 * bit) * (root + 2 * bit),
            bit == 0 ==> x < (root + 1) * (root + 1) && root < 0x8000_0000_0000_0000,
        decreases bit,
    {
        let c: u64 = root + bit;
        proof {
            assert(c * c <= 0x8000_0000_0000_0000 * 0x8000_0000_0000_0000) by (nonlinear_arith)
                requires
                    c <= 0x8000_0000_0000_0000,
            ;
        }
        if c as u128 * c as u128 <= x {
            root = c;
        }
        bit = bit / 2;
        proof {
            if i > 0 {
                lemma_pow2_unfold(i);
                i = (i - 1) as nat;
            } else {
                vstd::arithmetic::power2::lemma2_to64();
            }
        }
    }
    root
}

/// The bits in the double format of the value that single bits stand for.
pub open spec fn widened(bits: nat) -> nat {
    let (f, g) = (Format::Single, Format::Double);
    if f.is_nan(bits) {
        g.nan()
    } else if f.is_infinite(bits) {
        g.pack(f.negative(bits), g.infinity())
    } else {
        g.pack(f.negative(bits), g.rounded(f.units(f.code(bits)) * pow2(925), 1))
    }
}

/// The single bits nearest to the value that double bits stand for.
pub open spec fn narrowed(bits: nat) -> nat {
    let (f, g) = (Format::Double, Format::Single);
    if f.is_nan(bits) {
        g.nan()
    } else if f.is_infinite(bits) {
        g.pack(f.negative(bits), g.infinity())
    } else {
        g.pack(f.negative(bits), g.rounded(f.units(f.code(bits)), pow2(925)))
    }
}

impl Format {
    /// The value nearest to the natural number `n`.
    pub open spec fn from_nat(self, n: nat) -> nat {
        self.rounded(n * pow2(self.scale()), 1)
    }

    /// Rounded to the nearest integer, halves away from zero; zero for negative
    /// numbers and NaN, `usize::MAX` for what is larger.
    pub open spec fn round_index(self, bits: nat) -> nat {
        if self.is_nan(bits) || self.negative(bits) {
            0
        } else if self.is_infinite(bits) {
            usize::MAX as nat
        } else {
            let n = (2 * self.units(bits) + pow2(self.scale())) / pow2(self.scale() + 1);
            if n < usize::MAX {
                n
            } else {
                usize::MAX as nat
            }
        }
    }

    /// The largest integer that is not above the number, held within the range
    /// of `i64`; zero for NaN.
    pub open spec fn floor_index(self, bits: nat) -> int {
        if self.is_nan(bits) {
            0
        } else if self.is_infinite(bits) {
            if self.negative(bits) {
                i64::MIN as int
            } else {
                i64::MAX as int
            }
        } else {
            let n = self.value(bits) / (pow2(self.scale()) as int);
            if n < i64::MIN {
                i64::MIN as int
            } else if n > i64::MAX {
                i64::MAX as int
            } else {
                n
            }
        }
    }

    /// A multiple of the magnitude, rounded to the nearest natural number, ties
    /// to even.
    pub open spec fn multiple(self, bits: nat, factor: nat) -> nat {
        crate::round::nearest_even(self.units(self.code(bits)) * factor, pow2(self.scale()))
    }

    pub fn from_unsigned(self, n: u128) -> (r: u64)
        requires
            n < 0x8000_0000_0000_0000_0000_0000_0000_0000,
        ensures
            r == self.from_nat(n as nat),
            r <= self.infinity(),
            self.valid(r as nat),
    {
        let ghost num: nat = n as nat * pow2(self.scale());
        proof {
            lemma_exact_cell(num, n as nat, self.scale());
        }
        self.encode(n, self.scale_exponent(), false, Ghost(num), Ghost(1))
    }

    pub fn round_to_index(self, bits: u64) -> (n: usize)
        requires
            self.valid(bits as nat),
        ensures
            n == self.round_index(bits as nat),
    {
        if self.test_nan(bits) || self.sign_of(bits) {
            return 0;
        }
        if bits == self.infinity_code() {
            return usize::MAX;
        }
        let (m, e): (u64, i32) = self.decode(bits);
        let scale: i32 = self.scale_exponent();
        let ghost half: nat = pow2(self.scale());
        proof {
            lemma_pow2_pos(e as nat);
            lemma_pow2_pos(self.scale());
            lemma_pow2_unfold(self.scale() + 1);
            lemma_large_powers();
            vstd::arithmetic::power2::lemma2_to64();
            vstd::arithmetic::power2::lemma2_to64_rest();
        }
        if e >= scale {
            let c: u32 = (e - scale) as u32;
            proof {
                lemma_pow2_adds(c as nat, self.scale());
                let v = m * pow2(c as nat);
                assert(2 * (m * pow2(e as nat)) + half == v * (2 * half) + half) by (nonlinear_arith)
                    requires
                        pow2(e as nat) == pow2(c as nat) * half,
                        v == m * pow2(c as nat),
                ;
                vstd::arithmetic::div_mod::lemma_fundamental_div_mod_converse(
                    (v * (2 * half) + half) as int,
                    (2 * half) as int,
                    v as int,
                    half as int,
                );
            }
            if c > 64 {
                proof {
                    lemma_pow2_strictly_increases(64, c as nat);
                    assert(m * pow2(c as nat) > usize::MAX) by (nonlinear_arith)
                        requires
                            pow2(c as nat) > 0xffff_ffff_ffff_ffff,
                            m >= 1,
                            usize::MAX <= 0xffff_ffff_ffff_ffff,
                    ;
                }
                return usize::MAX;
            }
            proof {
                lemma_aligned(m as nat, c as nat);
                lemma_shl_is_mul(m as u128, c);
            }
            let v: u128 = (m as u128) << c;
            if v < usize::MAX as u128 {
                v as usize
            } else {
                usize::MAX
            }
        } else {
            let t: u32 = (scale - e) as u32;
            proof {
                lemma_pow2_adds(t as nat, e as nat);
                lemma_pow2_unfold(t as nat);
                let p = pow2(e as nat);
                let h = pow2((t - 1) as nat);
                lemma_pow2_pos(t as nat);
                lemma_pow2_pos((t - 1) as nat);
                assert(2 * (m * p) + half == (m + h) * (2 * p)) by (nonlinear_arith)
                    requires
                        half == pow2(t as nat) * p,
                        pow2(t as nat) == 2 * h,
                ;
                assert(2 * half == pow2(t as nat) * (2 * p)) by (nonlinear_arith)
                    requires
                        half == pow2(t as nat) * p,
                ;
                lemma_cancel(m as nat + h, pow2(t as nat), 2 * p);
            }
            if t > 100 {
                proof {
                    lemma_pow2_strictly_increases(53, (t - 1) as nat);
                    lemma_quotient_bounds(
                        m as nat + pow2((t - 1) as nat),
                        pow2(t as nat),
                        1,
                    );
                }
                return 0;
            }
            proof {
                if t < 101 {
                    lemma_pow2_strictly_increases(t as nat, 125);
                }
                lemma_pow2_strictly_increases((t - 1) as nat, 125);
                assert(1 * pow2((t - 1) as nat) == pow2((t - 1) as nat));
                lemma_shl_is_mul(1, (t - 1) as u32);
            }
            let h: u128 = 1u128 << (t - 1);
            let v: u128 = (m as u128 + h) >> (t as u128);
            proof {
                vstd::bits::lemma_u128_shr_is_div((m as u128 + h) as u128, t as u128);
            }
            if v < usize::MAX as u128 {
                v as usize
            } else {
                usize::MAX
            }
        }
    }

    /// A small multiple of a magnitude below `2^64`, rounded to the nearest
    /// integer.
    pub fn round_multiple(self, bits: u64, factor: u64) -> (n: u128)
        requires
            factor <= 10,
            self.valid(bits as nat),
            self.is_finite(bits as nat),
            self.units(self.code(bits as nat)) < pow2(self.scale() + 64),
        ensures
            n == self.multiple(bits as nat, factor as nat),
    {
        let code: u64 = self.code_of(bits);
        let (m, e): (u64, i32) = self.decode(code);
        let scale: i32 = self.scale_exponent();
        proof {
            assert(m * factor <= m * 10) by (nonlinear_arith)
                requires
                    factor <= 10,
            ;
        }
        let scaled: u128 = m as u128 * factor as u128;
        let ghost p: nat = pow2(e as nat);
        let ghost q: nat = pow2(self.scale());
        proof {
            lemma_pow2_pos(e as nat);
            lemma_pow2_pos(self.scale());
            vstd::arithmetic::power2::lemma2_to64();
            vstd::arithmetic::power2::lemma2_to64_rest();
        }
        if e >= scale {
            let c: u32 = (e - scale) as u32;
            proof {
                lemma_pow2_adds(c as nat, self.scale());
                lemma_pow2_adds(self.scale(), 64);
                if c > 64 {
                    lemma_pow2_strictly_increases(64, c as nat);
                    assert(m * p >= q * pow2(64)) by (nonlinear_arith)
                        requires
                            p == pow2(c as nat) * q,
                            pow2(c as nat) >= pow2(64),
                            m >= 1,
                            q > 0,
                    ;
                }
                lemma_aligned(m as nat, c as nat);
                assert(scaled * pow2(c as nat) == factor * (m * pow2(c as nat))) by (nonlinear_arith)
                    requires
                        scaled == m * factor,
                ;
                assert(factor * (m * pow2(c as nat)) <= 10 * (m * pow2(c as nat))) by (nonlinear_arith)
                    requires
                        factor <= 10,
                        m * pow2(c as nat) >= 0,
                ;
                lemma_shl_is_mul(scaled, c);
                let v = scaled * pow2(c as nat);
                assert((m * p) * factor == v * q + 0) by (nonlinear_arith)
                    requires
                        p == pow2(c as nat) * q,
                        v == scaled * pow2(c as nat),
                        scaled == m * factor,
                ;
                vstd::arithmetic::div_mod::lemma_fundamental_div_mod_converse(
                    ((m * p) * factor) as int,
                    q as int,
                    v as int,
                    0,
                );
            }
            scaled << c
        } else {
            let t: u32 = (scale - e) as u32;
            proof {
                lemma_pow2_adds(t as nat, e as nat);
                lemma_pow2_pos(t as nat);
                crate::round::lemma_nearest_even_scaled(scaled as nat, pow2(t as nat), p);
                assert(scaled as nat * p == (m * p) * factor) by (nonlinear_arith)
                    requires
                        scaled == m * factor,
                ;
            }
            self.shift_nearest_even(scaled, t)
        }
    }

    /// The integer part of a finite magnitude, held below `2^64`, and whether
    /// something was cut off.
    fn truncate(self, code: u64) -> (r: (u64, bool))
        requires
            code < self.infinity(),
        ensures
            ({
                let v = self.units(code as nat);
                let p = pow2(self.scale());
                if v / p < 0x1_0000_0000_0000_0000 {
                    r.0 == v / p && r.1 == (v % p != 0)
                } else {
                    r.0 == u64::MAX && !r.1
                }
            }),
    {
        let (m, e): (u64, i32) = self.decode(code);
        let scale: i32 = self.scale_exponent();
        let ghost p: nat = pow2(self.scale());
        let ghost v: nat = self.units(code as nat);
        proof {
            lemma_pow2_pos(e as nat);
            lemma_pow2_pos(self.scale());
            lemma_large_powers();
            vstd::arithmetic::power2::lemma2_to64();
            vstd::arithmetic::power2::lemma2_to64_rest();
        }
        if e >= scale {
            let c: u32 = (e - scale) as u32;
            proof {
                lemma_pow2_adds(c as nat, self.scale());
                let n = m * pow2(c as nat);
                assert(v == n * p + 0) by (nonlinear_arith)
                    requires
                        v == m * pow2(e as nat),
                        pow2(e as nat) == pow2(c as nat) * p,
                        n == m * pow2(c as nat),
                ;
                vstd::arithmetic::div_mod::lemma_fundamental_div_mod_converse(
                    v as int,
                    p as int,
                    n as int,
                    0,
                );
            }
            if c > 64 {
                proof {
                    lemma_pow2_strictly_increases(64, c as nat);
                    assert(m * pow2(c as nat) >= 0x1_0000_0000_0000_0000) by (nonlinear_arith)
                        requires
                            pow2(c as nat) > 0xffff_ffff_ffff_ffff,
                            m >= 1,
                    ;
                }
                return (u64::MAX, false);
            }
            proof {
                lemma_aligned(m as nat, c as nat);
                lemma_shl_is_mul(m as u128, c);
            }
            let n: u128 = (m as u128) << c;
            if n < 0x1_0000_0000_0000_0000 {
                (n as u64, false)
            } else {
                (u64::MAX, false)
            }
        } else {
            let t: u32 = (scale - e) as u32;
            let ghost w: nat = pow2(t as nat);
            proof {
                lemma_pow2_adds(t as nat, e as nat);
                lemma_pow2_pos(t as nat);
                let q = m as nat / w;
                let r = m as nat % w;
                lemma_fundamental_div_mod(m as int, w as int);
                let pe = pow2(e as nat);
                assert(v == q * p + r * pe) by (nonlinear_arith)
                    requires
                        v == m * pe,
                        p == w * pe,
                        m == w * q + r,
                ;
                assert(r * pe < p && (r == 0 <==> r * pe == 0)) by (nonlinear_arith)
                    requires
                        r < w,
                        p == w * pe,
                        pe > 0,
                ;
                vstd::arithmetic::div_mod::lemma_fundamental_div_mod_converse(
                    v as int,
                    p as int,
                    q as int,
                    (r * pe) as int,
                );
                vstd::arithmetic::div_mod::lemma_div_nonincreasing(m as int, w as int);
            }
            if t > 63 {
                proof {
                    lemma_pow2_strictly_increases(53, t as nat);
                    vstd::arithmetic::div_mod::lemma_small_mod(m as nat, w);
                    vstd::arithmetic::div_mod::lemma_basic_div(m as int, w as int);
                }
                return (0, m > 0);
            }
            proof {
                vstd::bits::lemma_u64_shr_is_div(m, t as u64);
                vstd::bits::lemma_u64_pow2_no_overflow(t as nat);
                vstd::bits::lemma_u64_shl_is_mul(1, t as u64);
            }
            let n: u64 = m >> (t as u64);
            let w64: u64 = 1u64 << (t as u64);
            (n, m % w64 != 0)
        }
    }

    pub fn floor_to_index(self, bits: u64) -> (n: i64)
        requires
            self.valid(bits as nat),
        ensures
            n == self.floor_index(bits as nat),
    {
        if self.test_nan(bits) {
            return 0;
        }
        let code: u64 = self.code_of(bits);
        let neg: bool = self.sign_of(bits);
        if code == self.infinity_code() {
            return if neg {
                i64::MIN
            } else {
                i64::MAX
            };
        }
        let (n, cut): (u64, bool) = self.truncate(code);
        proof {
            lemma_pow2_pos(self.scale());
            lemma_floor_of_negative(self.units(code as nat), pow2(self.scale()));
        }
        if neg {
            let up: u64 = if cut && n < u64::MAX {
                n + 1
            } else {
                n
            };
            if up < 0x8000_0000_0000_0000 {
                -(up as i64)
            } else {
                i64::MIN
            }
        } else if n < 0x8000_0000_0000_0000 {
            n as i64
        } else {
            i64::MAX
        }
    }
}

proof fn lemma_floor_of_negative(v: nat, p: nat)
    requires
        p > 0,
    ensures
        (-(v as int)) / (p as int) == -((v / p) as int) - (if v % p != 0 {
            1int
        } else {
            0int
        }),
        (v as int) / (p as int) == v / p,
{
    lemma_fundamental_div_mod(v as int, p as int);
    let q = v / p;
    let r = v % p;
    if r == 0 {
        assert(-v == (-q) * p + 0) by (nonlinear_arith)
            requires
                v == p * q,
        ;
        vstd::arithmetic::div_mod::lemma_fundamental_div_mod_converse(
            -(v as int),
            p as int,
            -(q as int),
            0,
        );
    } else {
        assert(-v == (-q - 1) * p + (p - r)) by (nonlinear_arith)
            requires
                v == p * q + r,
        ;
        vstd::arithmetic::div_mod::lemma_fundamental_div_mod_converse(
            -(v as int),
            p as int,
            -q - 1,
            p - r,
        );
    }
}

pub fn widen(bits: u32) -> (r: u64)
    ensures
        r == widened(bits as nat),
{
    let f: Format = Format::Single;
    let g: Format = Format::Double;
    let b: u64 = bits as u64;
    if f.test_nan(b) {
        return g.nan_bits();
    }
    let neg: bool = f.sign_of(b);
    let code: u64 = f.code_of(b);
    if code == f.infinity_code() {
        return g.join(neg, g.infinity_code());
    }
    let (m, e): (u64, i32) = f.decode(code);
    let ghost num: nat = f.units(code as nat) * pow2(925);
    proof {
        lemma_pow2_adds(e as nat, 925);
        assert(num == m * pow2((e + 925) as nat)) by (nonlinear_arith)
            requires
                num == (m * pow2(e as nat)) * pow2(925),
                pow2((e + 925) as nat) == pow2(e as nat) * pow2(925),
        ;
        lemma_exact_cell(num, m as nat, (e + 925) as nat);
    }
    let wide: u64 = g.encode(m as u128, e + 925, false, Ghost(num), Ghost(1));
    g.join(neg, wide)
}

pub fn narrow(bits: u64) -> (r: u32)
    ensures
        r == narrowed(bits as nat),
{
    let f: Format = Format::Double;
    let g: Format = Format::Single;
    if f.test_nan(bits) {
        return g.nan_bits() as u32;
    }
    let neg: bool = f.sign_of(bits);
    let code: u64 = f.code_of(bits);
    if code == f.infinity_code() {
        return g.join(neg, g.infinity_code()) as u32;
    }
    let (m, e): (u64, i32) = f.decode(code);
    let s: i32 = e - 925;
    let ghost num: nat = f.units(code as nat);
    let ghost den: nat = pow2(925);
    proof {
        lemma_pow2_pos(925);
        vstd::arithmetic::power2::lemma2_to64();
        if s < 0 {
            lemma_pow2_adds(e as nat, (-s) as nat);
            assert(num * pow2((-s) as nat) == m * (den * pow2(0))) by (nonlinear_arith)
                requires
                    num == m * pow2(e as nat),
                    den == pow2(e as nat) * pow2((-s) as nat),
                    pow2(0) == 1,
            ;
        } else {
            lemma_pow2_adds(925, s as nat);
            assert(num * pow2(0) == m * (den * pow2(s as nat))) by (nonlinear_arith)
                requires
                    num == m * pow2(e as nat),
                    pow2(e as nat) == den * pow2(s as nat),
                    pow2(0) == 1,
            ;
        }
        lemma_exact_fraction(num, den, m as nat, s as int);
    }
    let thin: u64 = g.encode(m as u128, s, false, Ghost(num), Ghost(den));
    g.join(neg, thin) as u32
}

/// A value of `q * 2^k` units with at most as many bits as the significand has.
proof fn lemma_exact_code(f: Format, q: nat, k: nat) -> (code: nat)
    requires
        0 < q <= 2 * f.unit(),
        k <= f.scale(),
        q >= pow2((f.scale() - k) as nat),
    ensures
        f.units(code) == q * pow2(k),
        code < f.infinity(),
    decreases 2 * f.unit() - q,
{
    lemma_unit_is_pow2(f);
    if q >= f.unit() {
        crate::round::lemma_units_of_parts(f, q, k);
        let code = q + k * f.unit();
        assert(k * f.unit() <= f.scale() * f.unit()) by (nonlinear_arith)
            requires
                k <= f.scale(),
        ;
        code
    } else {
        let j = (f.scale() - k) as nat;
        if j >= f.frac_bits() {
            if j > f.frac_bits() {
                lemma_pow2_strictly_increases(f.frac_bits(), j);
            }
            assert(q >= f.unit());
        }
        lemma_pow2_unfold(j + 1);
        lemma_pow2_unfold(k);
        assert(q * pow2(k) == (2 * q) * pow2((k - 1) as nat)) by (nonlinear_arith)
            requires
                pow2(k) == 2 * pow2((k - 1) as nat),
        ;
        lemma_exact_code(f, 2 * q, (k - 1) as nat)
    }
}

/// Integers of at most as many bits as the significand has are values of the
/// format.
pub proof fn lemma_exact_integer(f: Format, n: nat)
    requires
        n <= 2 * f.unit(),
    ensures
        f.from_nat(n) < f.infinity(),
        f.units(f.from_nat(n)) == n * pow2(f.scale()),
{
    if n == 0 {
        assert(0 * pow2(f.scale()) == 0);
        crate::round::lemma_rounded_zero_over(f, 1);
        crate::round::lemma_units_of_zero(f);
    } else {
        vstd::arithmetic::power2::lemma2_to64();
        let code = lemma_exact_code(f, n, f.scale());
        crate::round::lemma_rounded_exact(f, code);
    }
}

/// Small integers keep their order.
pub proof fn lemma_exact_integers_ordered(f: Format, a: nat, b: nat)
    requires
        a < b <= 2 * f.unit(),
    ensures
        f.from_nat(a) < f.from_nat(b) < f.infinity(),
{
    lemma_exact_integer(f, a);
    lemma_exact_integer(f, b);
    lemma_pow2_pos(f.scale());
    assert(a * pow2(f.scale()) < b * pow2(f.scale())) by (nonlinear_arith)
        requires
            a < b,
            pow2(f.scale()) > 0,
    ;
    if f.from_nat(b) < f.from_nat(a) {
        lemma_units_increase(f, f.from_nat(b), f.from_nat(a));
    }
}

/// A small integer is its own rounding.
pub proof fn lemma_round_of_integer(f: Format, n: nat)
    requires
        n <= 2 * f.unit(),
        n < usize::MAX,
    ensures
        f.round_index(f.from_nat(n)) == n,
{
    lemma_exact_integer(f, n);
    let p = pow2(f.scale());
    lemma_pow2_pos(f.scale());
    lemma_pow2_unfold(f.scale() + 1);
    let num = 2 * f.units(f.from_nat(n)) + p;
    assert(num == n * (2 * p) + p) by (nonlinear_arith)
        requires
            num == 2 * (n * p) + p,
    ;
    vstd::arithmetic::div_mod::lemma_fundamental_div_mod_converse(
        num as int,
        (2 * p) as int,
        n as int,
        p as int,
    );
}

/// A rounded value does not lie beyond a value of the format that the exact one
/// does not lie beyond.
pub proof fn lemma_rounded_at_most(f: Format, num: nat, den: nat, code: nat)
    requires
        den > 0,
        code < f.infinity(),
        num <= f.units(code) * den,
    ensures
        f.rounded(num, den) <= code,
        f.units(f.rounded(num, den)) <= f.units(code),
{
    let c = f.rounded(num, den);
    crate::round::lemma_rounded_is_nearest(f, num, den);
    if c > code {
        lemma_units_increase(f, code, c);
        if c - 1 > code {
            lemma_units_increase(f, code, (c - 1) as nat);
        }
        let (a, b, x) = (f.units((c - 1) as nat), f.units(c), f.units(code));
        assert((a + b) * den > 2 * (x * den)) by (nonlinear_arith)
            requires
                a >= x,
                b > x,
                den > 0,
        ;
    } else if c < code {
        lemma_units_increase(f, c, code);
    }
}

/// A rounded value does not lie before a value of the format that the exact one
/// does not lie before.
pub proof fn lemma_rounded_at_least(f: Format, num: nat, den: nat, code: nat)
    requires
        den > 0,
        code <= f.infinity(),
        f.units(code) * den <= num,
    ensures
        f.rounded(num, den) >= code,
{
    let c = f.rounded(num, den);
    crate::round::lemma_rounded_is_nearest(f, num, den);
    if c < code {
        lemma_units_increase(f, c, code);
        if c + 1 < code {
            lemma_units_increase(f, c + 1, code);
        }
        let (a, b, x) = (f.units(c), f.units(c + 1), f.units(code));
        assert((a + b) * den < 2 * (x * den)) by (nonlinear_arith)
            requires
                a < x,
                b <= x,
                den > 0,
        ;
    }
}

/// Two to the 64th is a value of either format.
proof fn lemma_large_code(f: Format) -> (code: nat)
    ensures
        f.units(code) == pow2(f.scale() + 64),
        code + 7 * f.unit() < f.infinity(),
{
    let k = (f.scale() + 64 - f.frac_bits()) as nat;
    lemma_unit_is_pow2(f);
    crate::round::lemma_units_of_parts(f, f.unit(), k);
    lemma_pow2_adds(f.frac_bits(), k);
    f.unit() + k * f.unit()
}

/// Integers below `2^64` do not become larger than that.
pub proof fn lemma_integer_bound(f: Format, n: nat)
    requires
        n < 0x1_0000_0000_0000_0000,
    ensures
        f.from_nat(n) < f.infinity(),
        f.units(f.from_nat(n)) <= pow2(f.scale() + 64),
{
    let code = lemma_large_code(f);
    vstd::arithmetic::power2::lemma2_to64_rest();
    lemma_pow2_adds(f.scale(), 64);
    assert(n * pow2(f.scale()) <= pow2(f.scale()) * pow2(64)) by (nonlinear_arith)
        requires
            n <= pow2(64),
    ;
    assert(f.units(code) * 1 == f.units(code));
    lemma_rounded_at_most(f, n * pow2(f.scale()), 1, code);
}

/// A number of at most `2^64`, divided by one of at least two, lies below
/// `2^64`.
pub proof fn lemma_quotient_shrinks(f: Format, a: nat, b: nat)
    requires
        a < f.infinity(),
        f.units(a) <= pow2(f.scale() + 64),
        f.units(b) >= 2 * pow2(f.scale()),
    ensures
        ({
            let c = f.rounded(f.units(a) * pow2(f.scale()), f.units(b));
            c < f.infinity() && f.units(c) < pow2(f.scale() + 64)
        }),
{
    let p = pow2(f.scale());
    lemma_pow2_pos(f.scale());
    let k = (f.scale() + 63 - f.frac_bits()) as nat;
    lemma_unit_is_pow2(f);
    crate::round::lemma_units_of_parts(f, f.unit(), k);
    lemma_pow2_adds(f.frac_bits(), k);
    lemma_pow2_unfold(f.scale() + 64);
    lemma_pow2_pos(f.scale() + 63);
    assert(f.frac_bits() + k == f.scale() + 63);
    let code = f.unit() + k * f.unit();
    let (x, y) = (f.units(a), f.units(b));
    assert(x * p <= f.units(code) * y) by (nonlinear_arith)
        requires
            x <= 2 * f.units(code),
            y >= 2 * p,
            p > 0,
    ;
    lemma_rounded_at_most(f, x * p, y, code);
}

/// Rounding keeps the order.
pub proof fn lemma_rounded_monotone(f: Format, a: nat, b: nat, den: nat)
    requires
        den > 0,
        a <= b,
    ensures
        f.rounded(a, den) <= f.rounded(b, den),
{
    let (c, d) = (f.rounded(a, den), f.rounded(b, den));
    crate::round::lemma_rounded_is_nearest(f, a, den);
    crate::round::lemma_rounded_is_nearest(f, b, den);
    if c > d {
        if c > d + 1 {
            lemma_units_increase(f, d + 1, c);
            lemma_units_increase(f, d, (c - 1) as nat);
            let (x, y) = (f.units((c - 1) as nat) + f.units(c), f.units(d) + f.units(d + 1));
            assert(x * den > y * den) by (nonlinear_arith)
                requires
                    x > y,
                    den > 0,
            ;
        }
    }
}

/// A percentage: a hundred times a part of a whole, divided by the whole, lies
/// below `2^64` by far.
pub proof fn lemma_percent_bound(hundred: nat, part: nat, all: nat)
    requires
        hundred < Format::Double.infinity(),
        Format::Double.units(hundred) <= 128 * pow2(1074),
        part <= all,
        1 <= all < 0x1_0000_0000_0000_0000,
    ensures
        ({
            let f = Format::Double;
            let p = f.rounded(f.units(hundred) * f.units(f.from_nat(part)), pow2(1074));
            let q = f.rounded(f.units(p) * pow2(1074), f.units(f.from_nat(all)));
            &&& p < f.infinity()
            &&& q < f.infinity()
            &&& f.units(q) < pow2(1138)
            &&& f.from_nat(part) < f.infinity()
            &&& 0 < f.from_nat(all) < f.infinity()
        }),
{
    let f = Format::Double;
    let s = pow2(1074);
    let u = f.unit();
    let (a, b) = (f.from_nat(part), f.from_nat(all));
    lemma_pow2_pos(1074);
    lemma_integer_bound(f, part);
    lemma_integer_bound(f, all);
    assert(part * s <= all * s) by (nonlinear_arith)
        requires
            part <= all,
    ;
    lemma_rounded_monotone(f, part * s, all * s, 1);
    if a < b {
        lemma_units_increase(f, a, b);
    }
    // The whole is at least one, so that it is not subnormal.
    assert(1 * s <= all * s) by (nonlinear_arith)
        requires
            1 <= all,
    ;
    lemma_rounded_monotone(f, 1 * s, all * s, 1);
    lemma_exact_integer(f, 1);
    crate::round::lemma_units_of_zero(f);
    if f.from_nat(1) < b {
        lemma_units_increase(f, f.from_nat(1), b);
    }
    assert(f.units(b) >= s);
    // 128 times the whole is a value of the format.
    vstd::arithmetic::power2::lemma2_to64();
    vstd::arithmetic::power2::lemma2_to64_rest();
    if b < u {
        lemma_units_increase(f, b, u);
        crate::round::lemma_units_of_parts(f, u, 0);
        assert(u + 0 * u == u);
        assert(u * pow2(0) == u) by (nonlinear_arith)
            requires
                pow2(0) == 1,
        ;
        lemma_pow2_strictly_increases(52, 1074);
        lemma_unit_is_pow2(f);
    }
    let k = (b / u - 1) as nat;
    let q = u + b % u;
    lemma_fundamental_div_mod(b as int, u as int);
    lemma_quotient_bounds(b, u, 1);
    assert(b == q + k * u) by (nonlinear_arith)
        requires
            b == u * (b / u) + b % u,
            k == b / u - 1,
            q == u + b % u,
    ;
    crate::round::lemma_units_of_parts(f, q, k);
    crate::round::lemma_units_of_parts(f, q, k + 7);
    lemma_pow2_adds(k, 7);
    let x = q + (k + 7) * u;
    assert(x == b + 7 * u) by (nonlinear_arith)
        requires
            x == q + (k + 7) * u,
            b == q + k * u,
    ;
    assert(f.units(x) == 128 * f.units(b)) by (nonlinear_arith)
        requires
            f.units(x) == q * pow2(k + 7),
            f.units(b) == q * pow2(k),
            pow2(k + 7) == pow2(k) * pow2(7),
            pow2(7) == 128,
    ;
    let large = lemma_large_code(f);
    if large < b {
        lemma_units_increase(f, large, b);
    }
    let (ha, hb, ub) = (f.units(hundred), f.units(a), f.units(b));
    assert(ha * hb <= (128 * ub) * s) by (nonlinear_arith)
        requires
            ha <= 128 * s,
            hb <= ub,
    ;
    lemma_rounded_at_most(f, ha * hb, s, x);
    let p = f.rounded(ha * hb, s);
    lemma_exact_integer(f, 128);
    let y = f.from_nat(128);
    let up = f.units(p);
    assert(up * s <= (128 * s) * ub) by (nonlinear_arith)
        requires
            up <= 128 * ub,
    ;
    lemma_rounded_at_most(f, up * s, ub, y);
    lemma_pow2_adds(1074, 64);
    assert(128 * s < s * pow2(64)) by (nonlinear_arith)
        requires
            s > 0,
            pow2(64) > 128,
    ;
}

/// A common factor does not change what is rounded.
pub proof fn lemma_rounded_scaled(f: Format, num: nat, den: nat, c: nat)
    requires
        den > 0,
        c > 0,
    ensures
        f.rounded(num * c, den * c) == f.rounded(num, den),
{
    reveal(Format::rounded);
    lemma_cancel(num, den, c);
    let k = f.excess(num / den);
    lemma_pow2_pos(k);
    let d = den * pow2(k);
    assert(d > 0) by (nonlinear_arith)
        requires
            d == den * pow2(k),
            den > 0,
            pow2(k) > 0,
    ;
    assert((den * c) * pow2(k) == d * c) by (nonlinear_arith)
        requires
            d == den * pow2(k),
    ;
    crate::round::lemma_nearest_even_scaled(num, d, c);
}

/// The sum of two small integers is the number nearest to their sum.
pub proof fn lemma_sum_of_integers(f: Format, a: nat, b: nat)
    requires
        a <= 2 * f.unit(),
        b <= 2 * f.unit(),
    ensures
        f.sum_of(f.from_nat(a), f.from_nat(b)) == f.from_nat(a + b),
{
    lemma_exact_integer(f, a);
    lemma_exact_integer(f, b);
    let p = pow2(f.scale());
    assert(a * p + b * p == (a + b) * p) by (nonlinear_arith);
    if f.from_nat(a) == 0 && f.from_nat(b) == 0 {
        crate::round::lemma_units_of_zero(f);
        crate::round::lemma_rounded_zero_over(f, 1);
    }
}

/// The product of two small integers is the number nearest to their product.
pub proof fn lemma_product_of_integers(f: Format, a: nat, b: nat)
    requires
        a <= 2 * f.unit(),
        b <= 2 * f.unit(),
    ensures
        f.product_of(f.from_nat(a), f.from_nat(b)) == f.from_nat(a * b),
{
    lemma_exact_integer(f, a);
    lemma_exact_integer(f, b);
    let p = pow2(f.scale());
    lemma_pow2_pos(f.scale());
    assert((a * p) * (b * p) == (a * b * p) * p) by (nonlinear_arith);
    lemma_rounded_scaled(f, a * b * p, 1, p);
    assert(1 * p == p);
}

/// The quotient of two small integers is the number nearest to their quotient.
pub proof fn lemma_quotient_of_integers(f: Format, a: nat, b: nat)
    requires
        a <= 2 * f.unit(),
        0 < b <= 2 * f.unit(),
    ensures
        f.quotient_of(f.from_nat(a), f.from_nat(b)) == f.rounded(a * pow2(f.scale()), b),
{
    lemma_exact_integer(f, a);
    lemma_exact_integer(f, b);
    let p = pow2(f.scale());
    lemma_pow2_pos(f.scale());
    assert(b * p > 0) by (nonlinear_arith)
        requires
            b > 0,
            p > 0,
    ;
    crate::round::lemma_units_of_zero(f);
    lemma_rounded_scaled(f, a * p, b, p);
}

/// Widening an integer that single precision holds gives the same integer.
pub proof fn lemma_widened_integer(n: nat)
    requires
        n <= 0x100_0000,
    ensures
        widened(Format::Single.from_nat(n)) == Format::Double.from_nat(n),
{
    lemma_exact_integer(Format::Single, n);
    lemma_pow2_adds(149, 925);
    assert(n * pow2(149) * pow2(925) == n * (pow2(149) * pow2(925))) by (nonlinear_arith);
}

} // verus!
