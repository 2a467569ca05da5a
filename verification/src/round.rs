//! Rounding to the IEEE 754 binary formats, on integers alone.
//!
//! A magnitude of a binary format is held as its bit pattern without the sign,
//! its *code*. Every finite magnitude is a whole number of units of the
//! smallest positive one, so the value of a code is the natural number
//! [`Format::units`], and "round to nearest, ties to even" is a statement about
//! fractions of naturals: [`Format::rounded`].
use vstd::arithmetic::div_mod::{
    lemma_div_is_ordered, lemma_fundamental_div_mod, lemma_fundamental_div_mod_converse,
};
use vstd::arithmetic::power2::{
    lemma_pow2_adds, lemma_pow2_pos, lemma_pow2_strictly_increases, lemma_pow2_unfold, pow2,
};
use vstd::prelude::*;

verus! {

/// The two formats in use: binary32 and binary64.
#[derive(Clone, Copy, PartialEq, Eq, Structural, Debug)]
pub enum Format {
    Single,
    Double,
}

/// `n / d` rounded to the nearest natural number, ties to the even one.
pub open spec fn nearest_even(n: nat, d: nat) -> nat {
    let q = n / d;
    let r = n % d;
    if 2 * r < d || (2 * r == d && q % 2 == 0) {
        q
    } else {
        q + 1
    }
}

impl Format {
    /// Number of bits of the fraction field.
    pub open spec fn frac_bits(self) -> nat {
        match self {
            Format::Single => 23,
            Format::Double => 52,
        }
    }

    /// The code of the smallest normal magnitude, `2^frac_bits`.
    pub open spec fn unit(self) -> nat {
        match self {
            Format::Single => 0x80_0000,
            Format::Double => 0x10_0000_0000_0000,
        }
    }

    /// The code of infinity; finite codes lie below it, NaN codes above.
    pub open spec fn infinity(self) -> nat {
        match self {
            Format::Single => 0x7f80_0000,
            Format::Double => 0x7ff0_0000_0000_0000,
        }
    }

    /// The weight of the sign bit: one past the largest code.
    pub open spec fn sign_weight(self) -> nat {
        match self {
            Format::Single => 0x8000_0000,
            Format::Double => 0x8000_0000_0000_0000,
        }
    }

    /// The smallest positive magnitude is `2^-scale`.
    pub open spec fn scale(self) -> nat {
        match self {
            Format::Single => 149,
            Format::Double => 1074,
        }
    }

    /// The value of a finite code, in multiples of the smallest positive one.
    #[verifier::opaque]
    pub open spec fn units(self, code: nat) -> nat {
        if code < self.unit() {
            code
        } else {
            (self.unit() + code % self.unit()) * pow2((code / self.unit() - 1) as nat)
        }
    }

    /// How often `x` has to be halved to fit the significand.
    pub open spec fn excess(self, x: nat) -> nat
        decreases x,
    {
        if x < 2 * self.unit() {
            0
        } else {
            1 + self.excess(x / 2)
        }
    }

    /// The code nearest to `num / den` units, ties to even; infinity when the
    /// rounded value is too large.
    #[verifier::opaque]
    pub open spec fn rounded(self, num: nat, den: nat) -> nat {
        let k = self.excess(num / den);
        let code = nearest_even(num, den * pow2(k)) + k * self.unit();
        if code < self.infinity() {
            code
        } else {
            self.infinity()
        }
    }
}

/// `num / den` lies in `[m * 2^s, (m + 1) * 2^s)`, on the lower end exactly when
/// `above` is false.
pub open spec fn in_cell(num: nat, den: nat, m: nat, s: int, above: bool) -> bool {
    let a = num * pow2(if s < 0 { (-s) as nat } else { 0 });
    let b = den * pow2(if s > 0 { s as nat } else { 0 });
    &&& m * b <= a < (m + 1) * b
    &&& above <==> a != m * b
}

pub proof fn lemma_unit_is_pow2(f: Format)
    ensures
        f.unit() == pow2(f.frac_bits()),
        2 * f.unit() == pow2(f.frac_bits() + 1),
{
    vstd::arithmetic::power2::lemma2_to64();
    vstd::arithmetic::power2::lemma2_to64_rest();
    lemma_pow2_unfold(f.frac_bits() + 1);
}

proof fn lemma_nearest_even_by_parts(n: nat, d: nat, q: nat, r: nat)
    requires
        r < d,
        n == q * d + r,
    ensures
        nearest_even(n, d) == (if 2 * r < d || (2 * r == d && q % 2 == 0) {
            q
        } else {
            q + 1
        }),
{
    lemma_fundamental_div_mod_converse(n as int, d as int, q as int, r as int);
}

pub proof fn lemma_nearest_even_scaled(n: nat, d: nat, c: nat)
    requires
        d > 0,
        c > 0,
    ensures
        nearest_even(n * c, d * c) == nearest_even(n, d),
{
    let q = n / d;
    let r = n % d;
    lemma_fundamental_div_mod(n as int, d as int);
    assert(n == q * d + r) by (nonlinear_arith)
        requires
            n == d * q + r,
    ;
    assert(n * c == q * (d * c) + r * c) by (nonlinear_arith)
        requires
            n == q * d + r,
    ;
    assert(r * c < d * c) by (nonlinear_arith)
        requires
            r < d,
            c > 0,
    ;
    assert(2 * (r * c) < d * c <==> 2 * r < d) by (nonlinear_arith)
        requires
            c > 0,
    ;
    assert(2 * (r * c) == d * c <==> 2 * r == d) by (nonlinear_arith)
        requires
            c > 0,
    ;
    lemma_nearest_even_by_parts(n * c, d * c, q, r * c);
    lemma_nearest_even_by_parts(n, d, q, r);
}

/// Rounding `a / (b * w)` when `a / b` is known to lie in the cell of `m`.
proof fn lemma_nearest_even_in_cell(a: nat, b: nat, m: nat, w: nat)
    requires
        b > 0,
        w > 0,
        m * b <= a < (m + 1) * b,
        w % 2 == 0 || a == m * b,
    ensures
        nearest_even(a, b * w) == (if 2 * (m % w) < w || (2 * (m % w) == w && a == m * b && (m / w)
            % 2 == 0) {
            m / w
        } else {
            m / w + 1
        }),
{
    let q = m / w;
    let rem = m % w;
    let d = (a - m * b) as nat;
    lemma_fundamental_div_mod(m as int, w as int);
    let r = d + rem * b;
    assert(a == q * (b * w) + r) by (nonlinear_arith)
        requires
            m == w * q + rem,
            d == a - m * b,
            r == d + rem * b,
    ;
    assert(d < b) by (nonlinear_arith)
        requires
            a < (m + 1) * b,
            d == a - m * b,
    ;
    assert(r < b * w) by (nonlinear_arith)
        requires
            d < b,
            rem <= w - 1,
            r == d + rem * b,
    ;
    lemma_nearest_even_by_parts(a, b * w, q, r);
    if a == m * b {
        assert(2 * (rem * b) < b * w <==> 2 * rem < w) by (nonlinear_arith)
            requires
                b > 0,
        ;
        assert(2 * (rem * b) == b * w <==> 2 * rem == w) by (nonlinear_arith)
            requires
                b > 0,
        ;
    } else {
        let h = w / 2;
        assert(w == 2 * h);
        if rem < h {
            assert(2 * r < b * w) by (nonlinear_arith)
                requires
                    rem + 1 <= h,
                    w == 2 * h,
                    d < b,
                    r == d + rem * b,
            ;
        } else {
            assert(2 * r > b * w) by (nonlinear_arith)
                requires
                    rem >= h,
                    w == 2 * h,
                    d > 0,
                    r == d + rem * b,
            ;
        }
    }
}

proof fn lemma_excess(f: Format, x: nat, k: nat)
    requires
        x < 2 * f.unit() * pow2(k),
        k > 0 ==> f.unit() * pow2(k) <= x,
    ensures
        f.excess(x) == k,
    decreases k,
{
    if k == 0 {
        assert(pow2(0) == 1) by {
            vstd::arithmetic::power2::lemma2_to64();
        }
    } else {
        lemma_pow2_unfold(k);
        let p = pow2((k - 1) as nat);
        lemma_pow2_pos((k - 1) as nat);
        let u = f.unit();
        assert(u * pow2(k) == 2 * (u * p)) by (nonlinear_arith)
            requires
                pow2(k) == 2 * p,
        ;
        assert(2 * u * pow2(k) == 2 * (2 * u * p)) by (nonlinear_arith)
            requires
                pow2(k) == 2 * p,
        ;
        assert(u * p >= u) by (nonlinear_arith)
            requires
                p >= 1,
        ;
        lemma_excess(f, x / 2, (k - 1) as nat);
    }
}

/// The scaling by powers of two that brings `num / den` to the grid of `m`.
proof fn lemma_cell_bounds(num: nat, den: nat, m: nat, s: int, above: bool, len: nat, e: nat)
    requires
        den > 0,
        in_cell(num, den, m, s, above),
        len + s == e,
    ensures
        m < pow2(len) ==> num < den * pow2(e),
        m >= pow2(len) ==> num >= den * pow2(e),
{
    let sn = if s < 0 { (-s) as nat } else { 0 };
    let sp = if s > 0 { s as nat } else { 0 };
    let a = num * pow2(sn);
    let b = den * pow2(sp);
    lemma_pow2_pos(sn);
    lemma_pow2_pos(sp);
    lemma_pow2_adds(len, sp);
    lemma_pow2_adds(e, sn);
    assert(len + sp == e + sn);
    let x = pow2(len);
    assert(x * b == (den * pow2(e)) * pow2(sn)) by (nonlinear_arith)
        requires
            b == den * pow2(sp),
            x * pow2(sp) == pow2(e) * pow2(sn),
    ;
    if m < x {
        assert((m + 1) * b <= x * b) by (nonlinear_arith)
            requires
                m + 1 <= x,
        ;
        assert(num < den * pow2(e)) by (nonlinear_arith)
            requires
                num * pow2(sn) < (den * pow2(e)) * pow2(sn),
        ;
    } else {
        assert(m * b >= x * b) by (nonlinear_arith)
            requires
                m >= x,
        ;
        assert(num >= den * pow2(e)) by (nonlinear_arith)
            requires
                num * pow2(sn) >= (den * pow2(e)) * pow2(sn),
                pow2(sn) > 0,
        ;
    }
}

pub proof fn lemma_quotient_bounds(num: nat, den: nat, x: nat)
    requires
        den > 0,
    ensures
        num < den * x <==> num / den < x,
{
    lemma_fundamental_div_mod(num as int, den as int);
    let q = num / den;
    let r = num % den;
    if num < den * x {
        assert(q < x) by (nonlinear_arith)
            requires
                num < den * x,
                num == den * q + r,
                r >= 0,
                den > 0,
        ;
    } else {
        assert(q >= x) by (nonlinear_arith)
            requires
                num >= den * x,
                num == den * q + r,
                r < den,
        ;
    }
}

/// The excess of a fraction follows from the bit length of its cell.
proof fn lemma_excess_of_cell(
    f: Format,
    num: nat,
    den: nat,
    m: nat,
    s: int,
    above: bool,
    len: nat,
    k: nat,
)
    requires
        den > 0,
        in_cell(num, den, m, s, above),
        len > 0,
        pow2((len - 1) as nat) <= m < pow2(len),
        k == (if len + s > f.frac_bits() + 1 {
            len + s - (f.frac_bits() + 1)
        } else {
            0
        }),
    ensures
        f.excess(num / den) == k,
{
    lemma_unit_is_pow2(f);
    let p = f.frac_bits() + 1;
    if k == 0 {
        // The cell lies below `2^(frac_bits + 1)`, whatever the exponent.
        let e: nat = if len + s >= 0 { (len + s) as nat } else { 0 };
        let wide: nat = if len + s >= 0 { len } else { (-s) as nat };
        if wide > len {
            lemma_pow2_strictly_increases(len, wide);
        }
        lemma_cell_bounds(num, den, m, s, above, wide, e);
        if e < p {
            lemma_pow2_strictly_increases(e, p);
        }
        assert(den * pow2(e) <= den * pow2(p)) by (nonlinear_arith)
            requires
                pow2(e) <= pow2(p),
        ;
        lemma_quotient_bounds(num, den, pow2(p));
        assert(pow2(0) == 1) by {
            vstd::arithmetic::power2::lemma2_to64();
        }
        lemma_excess(f, num / den, 0);
    } else {
        lemma_cell_bounds(num, den, m, s, above, len, p + k);
        lemma_cell_bounds(num, den, m, s, above, (len - 1) as nat, (p + k - 1) as nat);
        lemma_quotient_bounds(num, den, pow2(p + k));
        lemma_quotient_bounds(num, den, pow2((p + k - 1) as nat));
        lemma_pow2_adds(p, k);
        lemma_pow2_adds((p - 1) as nat, k);
        assert(p - 1 + k == p + k - 1);
        lemma_excess(f, num / den, k);
    }
}

/// The rounding step on the grid of the cell.
proof fn lemma_rounding_step(
    num: nat,
    den: nat,
    m: nat,
    s: int,
    above: bool,
    k: nat,
    t: nat,
)
    requires
        den > 0,
        in_cell(num, den, m, s, above),
        k - s == t,
        above ==> t > 0,
    ensures
        nearest_even(num, den * pow2(k)) == (if 2 * (m % pow2(t)) < pow2(t) || (2 * (m % pow2(t))
            == pow2(t) && !above && (m / pow2(t)) % 2 == 0) {
            m / pow2(t)
        } else {
            m / pow2(t) + 1
        }),
{
    let sn = if s < 0 { (-s) as nat } else { 0 };
    let sp = if s > 0 { s as nat } else { 0 };
    let a = num * pow2(sn);
    let b = den * pow2(sp);
    lemma_pow2_pos(sn);
    lemma_pow2_pos(sp);
    lemma_pow2_pos(k);
    lemma_pow2_pos(t);
    lemma_pow2_adds(k, sn);
    lemma_pow2_adds(sp, t);
    assert(k + sn == sp + t);
    assert((den * pow2(k)) * pow2(sn) == b * pow2(t)) by (nonlinear_arith)
        requires
            b == den * pow2(sp),
            pow2(k) * pow2(sn) == pow2(sp) * pow2(t),
    ;
    assert(den * pow2(k) > 0) by (nonlinear_arith)
        requires
            den > 0,
            pow2(k) > 0,
    ;
    assert(b > 0) by (nonlinear_arith)
        requires
            den > 0,
            pow2(sp) > 0,
            b == den * pow2(sp),
    ;
    lemma_nearest_even_scaled(num, den * pow2(k), pow2(sn));
    if t > 0 {
        lemma_pow2_unfold(t);
        assert(pow2(t) % 2 == 0);
    }
    lemma_nearest_even_in_cell(a, b, m, pow2(t));
}

/// A cell on a grid coarser than the result is already exact.
proof fn lemma_exact_step(num: nat, den: nat, m: nat, s: int, k: nat)
    requires
        den > 0,
        in_cell(num, den, m, s, false),
        s >= k,
    ensures
        nearest_even(num, den * pow2(k)) == m * pow2((s - k) as nat),
{
    let c = (s - k) as nat;
    assert(pow2(0) == 1) by {
        vstd::arithmetic::power2::lemma2_to64();
    }
    lemma_pow2_adds(k, c);
    lemma_pow2_pos(k);
    assert(k + c == s);
    assert(num * pow2(0) == num) by (nonlinear_arith)
        requires
            pow2(0) == 1,
    ;
    assert(num == m * (den * pow2(s as nat)));
    assert(num == (m * pow2(c)) * (den * pow2(k)) + 0) by (nonlinear_arith)
        requires
            num == m * (den * pow2(s as nat)),
            pow2(s as nat) == pow2(k) * pow2(c),
    ;
    assert(den * pow2(k) > 0) by (nonlinear_arith)
        requires
            den > 0,
            pow2(k) > 0,
    ;
    lemma_nearest_even_by_parts(num, den * pow2(k), m * pow2(c), 0);
}

impl Format {
    /// Number of bits of the fraction field.
    pub fn frac_width(self) -> (n: u32)
        ensures
            n == self.frac_bits(),
    {
        match self {
            Format::Single => 23,
            Format::Double => 52,
        }
    }

    /// The code of the smallest normal magnitude.
    pub fn unit_code(self) -> (n: u64)
        ensures
            n == self.unit(),
    {
        match self {
            Format::Single => 0x80_0000,
            Format::Double => 0x10_0000_0000_0000,
        }
    }

    /// The code of infinity.
    pub fn infinity_code(self) -> (n: u64)
        ensures
            n == self.infinity(),
    {
        match self {
            Format::Single => 0x7f80_0000,
            Format::Double => 0x7ff0_0000_0000_0000,
        }
    }

    /// The weight of the sign bit.
    pub fn sign_code(self) -> (n: u64)
        ensures
            n == self.sign_weight(),
    {
        match self {
            Format::Single => 0x8000_0000,
            Format::Double => 0x8000_0000_0000_0000,
        }
    }

    /// Exponent of the smallest positive magnitude, negated.
    pub fn scale_exponent(self) -> (n: i32)
        ensures
            n == self.scale(),
    {
        match self {
            Format::Single => 149,
            Format::Double => 1074,
        }
    }

    /// The code nearest to the fraction `num / den`, which is known only by the
    /// cell `m * 2^s` it lies in. An inexact cell must be two bits finer than the
    /// significand.
    pub fn encode(
        self,
        m: u128,
        s: i32,
        above: bool,
        Ghost(num): Ghost<nat>,
        Ghost(den): Ghost<nat>,
    ) -> (code: u64)
        requires
            den > 0,
            -10000 <= s <= 10000,
            m < 0x8000_0000_0000_0000_0000_0000_0000_0000,
            in_cell(num, den, m as nat, s as int, above),
            above ==> m >= 4 * self.unit(),
        ensures
            code == self.rounded(num, den),
            code <= self.infinity(),
    {
        if m == 0 {
            proof {
                reveal(Format::rounded);
                self.lemma_rounded_zero(num, den, s as int);
            }
            return 0;
        }
        let len: u32 = bit_length(m);
        let p: i32 = self.frac_width() as i32 + 1;
        let top: i32 = len as i32 + s;
        let k: i32 = if top > p { top - p } else { 0 };
        let t: i32 = k - s;
        proof {
            reveal(Format::rounded);
            lemma_excess_of_cell(
                self,
                num,
                den,
                m as nat,
                s as int,
                above,
                len as nat,
                k as nat,
            );
            lemma_unit_is_pow2(self);
            if above {
                lemma_pow2_adds(self.frac_bits(), 2);
                assert(pow2(2) == 4) by {
                    vstd::arithmetic::power2::lemma2_to64();
                }
                if len <= self.frac_bits() + 2 {
                    if len < self.frac_bits() + 2 {
                        lemma_pow2_strictly_increases(len as nat, self.frac_bits() + 2);
                    }
                }
                assert(t > 0);
            }
        }
        let q: u128 = if t < 0 {
            let c: u32 = (-t) as u32;
            proof {
                lemma_exact_step(num, den, m as nat, s as int, k as nat);
                self.lemma_shifted_fits(m as nat, len as nat, c as nat);
                lemma_shl_is_mul(m, c);
            }
            m << c
        } else {
            proof {
                lemma_rounding_step(num, den, m as nat, s as int, above, k as nat, t as nat);
            }
            self.shift_round(m, t as u32, above)
        };
        proof {
            self.lemma_significand_fits(num, den, k as nat);
        }
        let unit: u64 = self.unit_code();
        let inf: u64 = self.infinity_code();
        if k >= 2047 {
            proof {
                assert(k * self.unit() >= self.infinity()) by (nonlinear_arith)
                    requires
                        k >= 2047,
                        self.unit() * 2047 >= self.infinity(),
                ;
            }
            return inf;
        }
        proof {
            assert(k * self.unit() <= 2047 * self.unit()) by (nonlinear_arith)
                requires
                    k <= 2047,
            ;
        }
        let code: u64 = q as u64 + k as u64 * unit;
        if code < inf {
            code
        } else {
            inf
        }
    }

    proof fn lemma_rounded_zero(self, num: nat, den: nat, s: int)
        requires
            den > 0,
            in_cell(num, den, 0, s, false),
        ensures
            self.rounded(num, den) == 0,
    {
        reveal(Format::rounded);
        let sn = if s < 0 { (-s) as nat } else { 0 };
        lemma_pow2_pos(sn);
        assert(num == 0) by (nonlinear_arith)
            requires
                num * pow2(sn) == 0,
                pow2(sn) > 0,
        ;
        assert(pow2(0) == 1) by {
            vstd::arithmetic::power2::lemma2_to64();
        }
        assert(0nat / den == 0 && 0nat % den == 0) by (nonlinear_arith)
            requires
                den > 0,
        ;
        assert(self.excess(0) == 0);
        assert(den * pow2(0) == den) by (nonlinear_arith)
            requires
                pow2(0) == 1,
        ;
        assert(0 * self.unit() == 0);
    }

    proof fn lemma_shifted_fits(self, m: nat, len: nat, c: nat)
        requires
            m < pow2(len),
            len + c <= self.frac_bits() + 1,
        ensures
            m * pow2(c) < 2 * self.unit(),
    {
        lemma_unit_is_pow2(self);
        lemma_pow2_adds(len, c);
        lemma_pow2_pos(c);
        assert(m * pow2(c) < pow2(len) * pow2(c)) by (nonlinear_arith)
            requires
                m < pow2(len),
                pow2(c) > 0,
        ;
        if len + c < self.frac_bits() + 1 {
            lemma_pow2_strictly_increases(len + c, self.frac_bits() + 1);
        }
    }

    /// A rounded significand is at most `2^(frac_bits + 1)`.
    proof fn lemma_significand_fits(self, num: nat, den: nat, k: nat)
        requires
            den > 0,
            self.excess(num / den) == k,
        ensures
            nearest_even(num, den * pow2(k)) <= 2 * self.unit(),
    {
        lemma_excess_bound(self, num / den);
        lemma_quotient_bounds(num, den, 2 * self.unit() * pow2(k));
        lemma_pow2_pos(k);
        assert(den * pow2(k) > 0) by (nonlinear_arith)
            requires
                den > 0,
                pow2(k) > 0,
        ;
        assert(den * (2 * self.unit() * pow2(k)) == (den * pow2(k)) * (2 * self.unit()))
            by (nonlinear_arith);
        lemma_quotient_bounds(num, den * pow2(k), 2 * self.unit());
    }

    /// `m / 2^t` rounded to nearest even.
    pub fn shift_nearest_even(self, m: u128, t: u32) -> (q: u128)
        requires
            m < 0x8000_0000_0000_0000_0000_0000_0000_0000,
        ensures
            q == nearest_even(m as nat, pow2(t as nat)),
    {
        self.shift_round(m, t, false)
    }

    /// `m / 2^t` rounded to nearest even; `above` says that the true numerator
    /// is a little more than `m`.
    fn shift_round(self, m: u128, t: u32, above: bool) -> (q: u128)
        requires
            m < 0x8000_0000_0000_0000_0000_0000_0000_0000,
        ensures
            q == (if 2 * (m as nat % pow2(t as nat)) < pow2(t as nat) || (2 * (m as nat % pow2(
                t as nat,
            )) == pow2(t as nat) && !above && (m as nat / pow2(t as nat)) % 2 == 0) {
                m as nat / pow2(t as nat)
            } else {
                m as nat / pow2(t as nat) + 1
            }),
    {
        proof {
            vstd::arithmetic::power2::lemma2_to64_rest();
            vstd::arithmetic::power2::lemma2_to64();
            lemma_pow2_adds(64, 63);
            lemma_pow2_adds(64, 64);
        }
        if t >= 128 {
            proof {
                if t > 128 {
                    lemma_pow2_strictly_increases(128, t as nat);
                }
                vstd::arithmetic::div_mod::lemma_small_mod(m as nat, pow2(t as nat));
                vstd::arithmetic::div_mod::lemma_basic_div(m as int, pow2(t as nat) as int);
            }
            return 0;
        }
        proof {
            lemma_pow2_pos(t as nat);
            if t < 127 {
                lemma_pow2_strictly_increases(t as nat, 127);
            }
            lemma_shl_is_mul(1, t);
            vstd::bits::lemma_u128_shr_is_div(m, t as u128);
            lemma_fundamental_div_mod(m as int, pow2(t as nat) as int);
            assert(m as nat / pow2(t as nat) <= m) by {
                vstd::arithmetic::div_mod::lemma_div_nonincreasing(
                    m as int,
                    pow2(t as nat) as int,
                );
            }
        }
        let w: u128 = 1u128 << t;
        let q: u128 = m >> (t as u128);
        proof {
            let r = m as nat % pow2(t as nat);
            assert(q * w <= m) by (nonlinear_arith)
                requires
                    m == w * q + r,
                    r >= 0,
            ;
        }
        let rem: u128 = m - q * w;
        proof {
            assert(rem == m as nat % pow2(t as nat)) by (nonlinear_arith)
                requires
                    rem == m - q * w,
                    m == w * q + m as nat % pow2(t as nat),
            ;
        }
        if rem < w - rem || (rem == w - rem && !above && q % 2 == 0) {
            q
        } else {
            q + 1
        }
    }
}

proof fn lemma_excess_bound(f: Format, x: nat)
    ensures
        x < 2 * f.unit() * pow2(f.excess(x)),
    decreases x,
{
    if x < 2 * f.unit() {
        assert(pow2(0) == 1) by {
            vstd::arithmetic::power2::lemma2_to64();
        }
        assert(2 * f.unit() * pow2(0) == 2 * f.unit()) by (nonlinear_arith)
            requires
                pow2(0) == 1,
        ;
    } else {
        lemma_excess_bound(f, x / 2);
        let k = f.excess(x / 2);
        assert(f.excess(x) == k + 1);
        lemma_pow2_unfold(k + 1);
        assert(2 * f.unit() * pow2(k + 1) == 2 * (2 * f.unit() * pow2(k))) by (nonlinear_arith)
            requires
                pow2(k + 1) == 2 * pow2(k),
        ;
    }
}

/// Fractions strictly inside one cell that is finer than the significand round
/// alike.
pub proof fn lemma_same_cell(f: Format, n1: nat, d1: nat, n2: nat, d2: nat, m: nat, s: int)
    requires
        d1 > 0,
        d2 > 0,
        in_cell(n1, d1, m, s, true),
        in_cell(n2, d2, m, s, true),
        m >= 4 * f.unit(),
    ensures
        f.rounded(n1, d1) == f.rounded(n2, d2),
{
    reveal(Format::rounded);
    let len = lemma_bit_length_exists(m);
    let p = f.frac_bits() + 1;
    let k: nat = if len + s > p { (len + s - p) as nat } else { 0 };
    lemma_excess_of_cell(f, n1, d1, m, s, true, len, k);
    lemma_excess_of_cell(f, n2, d2, m, s, true, len, k);
    lemma_unit_is_pow2(f);
    lemma_pow2_unfold(p);
    lemma_pow2_unfold(p + 1);
    if len < p + 1 {
        lemma_pow2_strictly_increases(len, p + 1);
    }
    assert(k - s > 0);
    lemma_rounding_step(n1, d1, m, s, true, k, (k - s) as nat);
    lemma_rounding_step(n2, d2, m, s, true, k, (k - s) as nat);
}

proof fn lemma_bit_length_exists(m: nat) -> (len: nat)
    requires
        m > 0,
    ensures
        len > 0,
        pow2((len - 1) as nat) <= m < pow2(len),
    decreases m,
{
    vstd::arithmetic::power2::lemma2_to64();
    if m == 1 {
        1
    } else {
        let h = lemma_bit_length_exists(m / 2);
        lemma_pow2_unfold(h);
        lemma_pow2_unfold(h + 1);
        h + 1
    }
}

/// Codes are ordered as the values they stand for.
pub proof fn lemma_units_increase(f: Format, a: nat, b: nat)
    requires
        a < b,
    ensures
        f.units(a) < f.units(b),
{
    reveal(Format::units);
    let u = f.unit();
    vstd::arithmetic::power2::lemma2_to64();
    lemma_fundamental_div_mod(a as int, u as int);
    lemma_fundamental_div_mod(b as int, u as int);
    let (qa, ra) = (a / u, a % u);
    let (qb, rb) = (b / u, b % u);
    if b >= u {
        lemma_quotient_bounds(b, u, 1);
        let pb = pow2((qb - 1) as nat);
        lemma_pow2_pos((qb - 1) as nat);
        assert(f.units(b) >= u * pb) by (nonlinear_arith)
            requires
                f.units(b) == (u + rb) * pb,
        ;
        if a < u {
            assert(u * pb >= u) by (nonlinear_arith)
                requires
                    pb >= 1,
            ;
        } else {
            lemma_quotient_bounds(a, u, 1);
            let pa = pow2((qa - 1) as nat);
            lemma_pow2_pos((qa - 1) as nat);
            lemma_div_is_ordered(a as int, b as int, u as int);
            if qa == qb {
                assert((u + ra) * pa < (u + rb) * pb) by (nonlinear_arith)
                    requires
                        ra < rb,
                        pa == pb,
                        pa >= 1,
                ;
            } else {
                lemma_pow2_unfold(qa);
                if qa < qb - 1 {
                    lemma_pow2_strictly_increases(qa, (qb - 1) as nat);
                }
                assert((u + ra) * pa < u * pb) by (nonlinear_arith)
                    requires
                        ra < u,
                        2 * pa <= pb,
                        pa >= 1,
                ;
            }
        }
    }
}

/// The value of a code that is put together from a significand and an exponent.
pub proof fn lemma_units_of_parts(f: Format, q: nat, k: nat)
    requires
        q <= 2 * f.unit(),
        k > 0 ==> q >= f.unit(),
    ensures
        f.units(q + k * f.unit()) == q * pow2(k),
{
    reveal(Format::units);
    let u = f.unit();
    let code = q + k * u;
    vstd::arithmetic::power2::lemma2_to64();
    if q < u {
        assert(k * u == 0) by (nonlinear_arith)
            requires
                k == 0,
        ;
        assert(q * pow2(0) == q) by (nonlinear_arith)
            requires
                pow2(0) == 1,
        ;
    } else if q < 2 * u {
        assert(code == (k + 1) * u + (q - u)) by (nonlinear_arith)
            requires
                code == q + k * u,
        ;
        lemma_fundamental_div_mod_converse(code as int, u as int, (k + 1) as int, q - u);
        assert(code >= u) by (nonlinear_arith)
            requires
                code == q + k * u,
                q >= u,
        ;
    } else {
        assert(code == (k + 2) * u + 0) by (nonlinear_arith)
            requires
                code == q + k * u,
                q == 2 * u,
        ;
        lemma_fundamental_div_mod_converse(code as int, u as int, (k + 2) as int, 0);
        lemma_pow2_unfold(k + 1);
        assert(u * pow2(k + 1) == (2 * u) * pow2(k)) by (nonlinear_arith)
            requires
                pow2(k + 1) == 2 * pow2(k),
        ;
        assert(code >= u) by (nonlinear_arith)
            requires
                code == q + k * u,
                q >= u,
        ;
    }
}

pub proof fn lemma_units_of_zero(f: Format)
    ensures
        f.units(0) == 0,
{
    reveal(Format::units);
}

/// A value of the format is its own rounding.
pub proof fn lemma_rounded_exact(f: Format, code: nat)
    requires
        code <= f.infinity(),
    ensures
        f.rounded(f.units(code), 1) == code,
{
    let v = f.units(code);
    let c = f.rounded(v, 1);
    lemma_rounded_is_nearest(f, v, 1);
    if c < code {
        lemma_units_increase(f, c, code);
        if c + 1 < code {
            lemma_units_increase(f, c + 1, code);
        }
    } else if c > code {
        lemma_units_increase(f, code, c);
        if code + 1 < c {
            lemma_units_increase(f, code, (c - 1) as nat);
        }
    }
}

/// A fraction well below the largest value does not round to infinity.
pub proof fn lemma_rounded_below(f: Format, num: nat, den: nat, m: nat, s: nat)
    requires
        den > 0,
        num < den * (m * pow2(s)),
        m <= 0x8000_0000_0000_0000,
        s <= (match f {
            Format::Single => 170nat,
            Format::Double => 1530nat,
        }),
    ensures
        f.rounded(num, den) < f.infinity(),
{
    reveal(Format::rounded);
    let x = num / den;
    let k = f.excess(x);
    lemma_quotient_bounds(num, den, m * pow2(s));
    lemma_unit_is_pow2(f);
    vstd::arithmetic::power2::lemma2_to64();
    vstd::arithmetic::power2::lemma2_to64_rest();
    lemma_pow2_adds(63, s);
    assert(m * pow2(s) <= pow2(63) * pow2(s)) by (nonlinear_arith)
        requires
            m <= pow2(63),
    ;
    let j = (63 + s - f.frac_bits()) as nat;
    lemma_pow2_adds(f.frac_bits(), j);
    if k >= j {
        lemma_excess_lower(f, x);
        if k > j {
            lemma_pow2_strictly_increases(j, k);
        }
        assert(f.unit() * pow2(k) >= f.unit() * pow2(j)) by (nonlinear_arith)
            requires
                pow2(k) >= pow2(j),
        ;
    }
    f.lemma_significand_fits(num, den, k);
    assert(k * f.unit() <= (j - 1) * f.unit()) by (nonlinear_arith)
        requires
            k <= j - 1,
    ;
}

pub proof fn lemma_rounded_zero_over(f: Format, den: nat)
    requires
        den > 0,
    ensures
        f.rounded(0, den) == 0,
{
    vstd::arithmetic::power2::lemma2_to64();
    assert(0 * pow2(0) == 0);
    assert(0 * (den * pow2(0)) == 0);
    assert(den * pow2(0) == den) by (nonlinear_arith)
        requires
            pow2(0) == 1,
    ;
    let d = den * pow2(0);
    assert((0 + 1) * d == d && 0 * d == 0) by (nonlinear_arith);
    f.lemma_rounded_zero(0, den, 0);
}

/// Twice the distance to the nearest natural number is at most one step.
proof fn lemma_half_step(num: nat, d: nat)
    requires
        d > 0,
    ensures
        ({
            let q = nearest_even(num, d);
            &&& 2 * num <= (2 * q + 1) * d
            &&& 2 * num == (2 * q + 1) * d ==> q % 2 == 0
            &&& q > 0 ==> (2 * q - 1) * d <= 2 * num
            &&& q > 0 && (2 * q - 1) * d == 2 * num ==> q % 2 == 0
        }),
{
    let q = nearest_even(num, d);
    let fl = num / d;
    let r = num % d;
    lemma_fundamental_div_mod(num as int, d as int);
    assert(2 * num == 2 * (fl * d) + 2 * r) by (nonlinear_arith)
        requires
            num == d * fl + r,
    ;
    assert((2 * fl + 1) * d == 2 * (fl * d) + d) by (nonlinear_arith);
    assert((2 * fl - 1) * d == 2 * (fl * d) - d) by (nonlinear_arith);
    assert((2 * (fl + 1) + 1) * d == 2 * (fl * d) + 3 * d) by (nonlinear_arith);
    if q == fl {
    } else {
        assert(2 * q - 1 == 2 * fl + 1);
        assert(2 * q + 1 == 2 * (fl + 1) + 1);
    }
}

/// The code `q + k * unit` and its upper neighbour, against a fraction within
/// half a step of it.
proof fn lemma_upper_midpoint(f: Format, q: nat, k: nat, num: nat, den: nat)
    requires
        den > 0,
        q <= 2 * f.unit(),
        k > 0 ==> q >= f.unit(),
        2 * num <= (2 * q + 1) * (den * pow2(k)),
    ensures
        ({
            let code = q + k * f.unit();
            let mid = (f.units(code) + f.units(code + 1)) * den;
            &&& 2 * num <= mid
            &&& 2 * num == mid ==> 2 * num == (2 * q + 1) * (den * pow2(k))
        }),
{
    let u = f.unit();
    let p = pow2(k);
    let d = den * p;
    let code = q + k * u;
    lemma_pow2_pos(k);
    lemma_units_of_parts(f, q, k);
    if q < 2 * u {
        lemma_units_of_parts(f, q + 1, k);
        assert((q * p + (q + 1) * p) * den == (2 * q + 1) * d) by (nonlinear_arith)
            requires
                d == den * p,
        ;
    } else {
        lemma_units_of_parts(f, u + 1, k + 1);
        assert(code + 1 == (u + 1) + (k + 1) * u) by (nonlinear_arith)
            requires
                code == q + k * u,
                q == 2 * u,
        ;
        lemma_pow2_unfold(k + 1);
        assert((q * p + (u + 1) * (2 * p)) * den == (2 * q + 2) * d) by (nonlinear_arith)
            requires
                d == den * p,
                q == 2 * u,
        ;
        assert((2 * q + 2) * d > (2 * q + 1) * d) by (nonlinear_arith)
            requires
                d == den * p,
                den > 0,
                p > 0,
        ;
    }
}

proof fn lemma_lower_midpoint(f: Format, q: nat, k: nat, num: nat, den: nat)
    requires
        den > 0,
        q <= 2 * f.unit(),
        k > 0 ==> q >= f.unit(),
        k > 0 ==> num >= (den * pow2(k)) * f.unit(),
        q > 0,
        (2 * q - 1) * (den * pow2(k)) <= 2 * num,
    ensures
        ({
            let code = q + k * f.unit();
            let mid = (f.units((code - 1) as nat) + f.units(code)) * den;
            &&& mid <= 2 * num
            &&& mid == 2 * num ==> (2 * q - 1) * (den * pow2(k)) == 2 * num
        }),
{
    let u = f.unit();
    let p = pow2(k);
    let d = den * p;
    let code = q + k * u;
    lemma_pow2_pos(k);
    lemma_units_of_parts(f, q, k);
    if k == 0 || q > u {
        lemma_units_of_parts(f, (q - 1) as nat, k);
        assert(((q - 1) * p + q * p) * den == (2 * q - 1) * d) by (nonlinear_arith)
            requires
                d == den * p,
        ;
    } else {
        lemma_units_of_parts(f, (2 * u - 1) as nat, (k - 1) as nat);
        assert(code - 1 == (2 * u - 1) + (k - 1) * u) by (nonlinear_arith)
            requires
                code == q + k * u,
                q == u,
        ;
        lemma_pow2_unfold(k);
        let h = pow2((k - 1) as nat);
        lemma_pow2_pos((k - 1) as nat);
        assert(((2 * u - 1) * h + u * (2 * h)) * den < 2 * (d * u)) by (nonlinear_arith)
            requires
                d == den * (2 * h),
                den > 0,
                h > 0,
        ;
    }
}

/// Rounding picks the nearest code: the fraction lies between the midpoints to
/// both neighbours, and on a midpoint the even code is taken.
pub proof fn lemma_rounded_is_nearest(f: Format, num: nat, den: nat)
    requires
        den > 0,
    ensures
        ({
            let c = f.rounded(num, den);
            &&& c <= f.infinity()
            &&& c > 0 ==> (f.units((c - 1) as nat) + f.units(c)) * den <= 2 * num
            &&& 0 < c < f.infinity() && (f.units((c - 1) as nat) + f.units(c)) * den == 2 * num
                ==> c % 2 == 0
            &&& c < f.infinity() ==> 2 * num <= (f.units(c) + f.units(c + 1)) * den
            &&& c < f.infinity() && 2 * num == (f.units(c) + f.units(c + 1)) * den ==> c % 2 == 0
        }),
{
    reveal(Format::rounded);
    let u = f.unit();
    let k = f.excess(num / den);
    let p = pow2(k);
    let d = den * p;
    lemma_pow2_pos(k);
    assert(d > 0) by (nonlinear_arith)
        requires
            den > 0,
            p > 0,
            d == den * p,
    ;
    let q = nearest_even(num, d);
    let code = q + k * u;
    f.lemma_significand_fits(num, den, k);
    // With a positive excess the quotient is at least a full significand.
    if k > 0 {
        lemma_excess_lower(f, num / den);
        lemma_quotient_bounds(num, den, u * p);
        assert(den * (u * p) == d * u) by (nonlinear_arith)
            requires
                d == den * p,
        ;
        lemma_quotient_bounds(num, d, u);
    }
    lemma_half_step(num, d);
    lemma_upper_midpoint(f, q, k, num, den);
    let h = u / 2;
    assert(k * u == 2 * (k * h)) by (nonlinear_arith)
        requires
            u == 2 * h,
    ;
    assert(code > 0 ==> q > 0) by (nonlinear_arith)
        requires
            code == q + k * u,
            k > 0 ==> q >= u,
            u > 0,
    ;
    if q > 0 {
        lemma_lower_midpoint(f, q, k, num, den);
    }
    if code > f.infinity() {
        lemma_units_increase(f, f.infinity(), code);
        lemma_units_increase(f, (f.infinity() - 1) as nat, (code - 1) as nat);
        let lo = f.units((f.infinity() - 1) as nat) + f.units(f.infinity());
        let hi = f.units((code - 1) as nat) + f.units(code);
        assert(lo * den < hi * den) by (nonlinear_arith)
            requires
                lo < hi,
                den > 0,
        ;
    }
}

proof fn lemma_excess_lower(f: Format, x: nat)
    requires
        f.excess(x) > 0,
    ensures
        f.unit() * pow2(f.excess(x)) <= x,
    decreases x,
{
    let k = f.excess(x / 2);
    assert(f.excess(x) == k + 1);
    lemma_pow2_unfold(k + 1);
    vstd::arithmetic::power2::lemma2_to64();
    if k > 0 {
        lemma_excess_lower(f, x / 2);
        assert(f.unit() * pow2(k + 1) == 2 * (f.unit() * pow2(k))) by (nonlinear_arith)
            requires
                pow2(k + 1) == 2 * pow2(k),
        ;
    } else {
        assert(pow2(1) == 2);
    }
}

/// Shifting left multiplies, as long as nothing is shifted out.
pub proof fn lemma_shl_is_mul(x: u128, c: u32)
    requires
        c < 128,
        x * pow2(c as nat) <= u128::MAX,
    ensures
        x << c == x * pow2(c as nat),
    decreases c,
{
    if c == 0 {
        assert(x << 0u32 == x) by (bit_vector);
        assert(pow2(0) == 1) by {
            vstd::arithmetic::power2::lemma2_to64();
        }
        assert(x * pow2(0) == x) by (nonlinear_arith)
            requires
                pow2(0) == 1,
        ;
    } else {
        let d: u32 = (c - 1) as u32;
        lemma_pow2_unfold(c as nat);
        let p = pow2(d as nat);
        assert(x * pow2(c as nat) == 2 * (x * p)) by (nonlinear_arith)
            requires
                pow2(c as nat) == 2 * p,
        ;
        lemma_shl_is_mul(x, d);
        let y = x << d;
        assert(x << c == (x << d) << 1u32) by (bit_vector)
            requires
                c < 128,
                d == c - 1,
                c > 0,
        ;
        assert(y <= 0x7fff_ffff_ffff_ffff_ffff_ffff_ffff_ffff ==> y << 1u32 == 2 * y)
            by (bit_vector);
    }
}

/// Number of significant bits of `x`.
pub fn bit_length(x: u128) -> (len: u32)
    requires
        x > 0,
    ensures
        0 < len <= 128,
        pow2((len - 1) as nat) <= x < pow2(len as nat),
{
    let mut y: u128 = x;
    let mut len: u32 = 1;
    let mut step: u32 = 64;
    let ghost mut w: nat = 0;
    proof {
        vstd::arithmetic::power2::lemma2_to64();
        vstd::arithmetic::power2::lemma2_to64_rest();
        lemma_pow2_adds(64, 64);
        lemma_div_by_one(x as int);
    }
    while step > 0
        invariant
            step == 64 || step == 32 || step == 16 || step == 8 || step == 4 || step == 2 || step == 1
                || step == 0,
            y > 0,
            len == w + 1,
            y == x as nat / pow2(w),
            step > 0 ==> y < pow2((2 * step) as nat) && len + 2 * step <= 129,
            step == 0 ==> y == 1 && len <= 128,
        decreases step,
    {
        let z: u128 = y >> (step as u128);
        proof {
            vstd::bits::lemma_u128_shr_is_div(y, step as u128);
            lemma_pow2_pos(w);
            lemma_pow2_pos(step as nat);
            vstd::arithmetic::div_mod::lemma_div_denominator(
                x as int,
                pow2(w) as int,
                pow2(step as nat) as int,
            );
            lemma_pow2_adds(w, step as nat);
            lemma_pow2_adds(step as nat, step as nat);
            vstd::arithmetic::power2::lemma2_to64();
            lemma_quotient_bounds(y as nat, pow2(step as nat), 1);
            lemma_quotient_bounds(y as nat, pow2(step as nat), pow2(step as nat));
        }
        if z > 0 {
            y = z;
            len = len + step;
            proof {
                w = w + step as nat;
            }
        }
        step = step / 2;
    }
    proof {
        lemma_pow2_pos(w);
        lemma_quotient_bounds(x as nat, pow2(w), 1);
        lemma_quotient_bounds(x as nat, pow2(w), 2);
        lemma_pow2_unfold(len as nat);
    }
    len
}

proof fn lemma_div_by_one(x: int)
    ensures
        pow2(0) == 1,
        x / pow2(0) as int == x,
{
    vstd::arithmetic::power2::lemma2_to64();
}

} // verus!
