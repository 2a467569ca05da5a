//! Integers in single precision: as long as they are small, arithmetic on them is
//! exact.
use crate::binary::{lemma_exact_value, Binary32};
use crate::float::{
    lemma_exact_integer, lemma_rounded_at_least, lemma_rounded_at_most, lemma_rounded_scaled,
};
use crate::round::{
    lemma_rounded_zero_over, lemma_units_increase, lemma_units_of_zero, Format,
};
use crate::samples::{single_of, stands_for};
use vstd::arithmetic::div_mod::lemma_fundamental_div_mod;
use vstd::arithmetic::power2::{lemma_pow2_adds, lemma_pow2_pos, pow2};
use vstd::prelude::*;

verus! {

/// The number nearest to an integer.
pub open spec fn whole(n: int) -> Binary32 {
    Binary32 { bits: single_of(n) }
}

/// An integer that single precision holds.
pub open spec fn is_small(n: int) -> bool {
    -0x100_0000 <= n <= 0x100_0000
}

/// A small integer is the number that it is.
pub proof fn lemma_whole(n: int)
    requires
        is_small(n),
    ensures
        stands_for(single_of(n), n),
        whole(n).finite(),
        whole(n).raw() == Format::Single.nearest(n * pow2(149)),
        Format::Single.value(whole(n).raw()) == n * pow2(149),
        whole(n).raw() == 0 <==> n == 0,
        Format::Single.is_zero(whole(n).raw()) <==> n == 0,
{
    let f = Format::Single;
    let p = pow2(149);
    let m = if n < 0 {
        (-n) as nat
    } else {
        n as nat
    };
    lemma_exact_integer(f, m);
    lemma_pow2_pos(149);
    assert((-n) * p == -(n * p)) by (nonlinear_arith);
    lemma_units_of_zero(f);
    assert(n != 0 ==> m * p != 0) by (nonlinear_arith)
        requires
            n != 0 ==> m != 0,
            p > 0,
    ;
    assert(n * p >= 0 <==> n >= 0) by (nonlinear_arith)
        requires
            p > 0,
    ;
    assert(0 * p == 0);
    lemma_rounded_zero_over(f, 1);
}

/// The sum of small integers.
pub proof fn lemma_whole_sum(m: int, n: int)
    requires
        is_small(m),
        is_small(n),
        is_small(m + n),
    ensures
        whole(m).spec_plus(whole(n)) == whole(m + n),
{
    lemma_whole(m);
    lemma_whole(n);
    lemma_whole(m + n);
    let p = pow2(149);
    assert(m * p + n * p == (m + n) * p) by (nonlinear_arith);
}

/// The difference of small integers.
pub proof fn lemma_whole_difference(m: int, n: int)
    requires
        is_small(m),
        is_small(n),
        is_small(m - n),
    ensures
        whole(m).spec_minus(whole(n)) == whole(m - n),
{
    let f = Format::Single;
    lemma_whole(m);
    lemma_whole(n);
    lemma_whole(m - n);
    let p = pow2(149);
    assert(m * p - n * p == (m - n) * p) by (nonlinear_arith);
    let b = f.negated(whole(n).raw());
    assert(f.value(b) == -(n * p));
}

/// The product of a small integer and a positive one.
pub proof fn lemma_whole_product(m: int, s: int)
    requires
        is_small(m),
        0 < s,
        is_small(s),
        is_small(m * s),
    ensures
        whole(m).spec_times(whole(s)) == whole(m * s),
{
    let f = Format::Single;
    let p = pow2(149);
    lemma_pow2_pos(149);
    lemma_whole(m);
    lemma_whole(s);
    lemma_whole(m * s);
    let a = if m < 0 {
        -m
    } else {
        m
    };
    assert((a * p) * (s * p) == ((a * s) * p) * p) by (nonlinear_arith);
    assert(a * s >= 0 && (m < 0 ==> m * s < 0) && (m >= 0 ==> m * s >= 0)) by (nonlinear_arith)
        requires
            a >= 0,
            s > 0,
            a == (if m < 0 {
                -m
            } else {
                m
            }),
    ;
    assert((-m) * s == -(m * s)) by (nonlinear_arith);
    assert((-m) * p == -(m * p)) by (nonlinear_arith);
    assert((a * s) * p >= 0) by (nonlinear_arith)
        requires
            a * s >= 0,
            p > 0,
    ;
    lemma_rounded_scaled(f, ((a * s) * p) as nat, 1, p);
    assert(1 * p == p);
}

/// The square of a small integer.
pub proof fn lemma_whole_square(d: int)
    requires
        -0x1000 <= d <= 0x1000,
    ensures
        whole(d).spec_times(whole(d)) == whole(d * d),
        0 <= d * d <= 0x100_0000,
{
    let a = if d < 0 {
        -d
    } else {
        d
    };
    assert(d * d == a * a && 0 <= a * a <= 0x100_0000) by (nonlinear_arith)
        requires
            0 <= a <= 0x1000,
            a == d || a == -d,
    ;
    lemma_whole(d);
    lemma_whole(a);
    if a > 0 {
        lemma_whole_product(a, a);
        assert(Format::Single.code(whole(d).raw()) == Format::Single.code(whole(a).raw()));
    } else {
        lemma_pow2_pos(149);
        lemma_units_of_zero(Format::Single);
        lemma_rounded_zero_over(Format::Single, pow2(149));
        assert(0int * 0int == 0);
    }
}

/// The quotient of a small integer and one that divides it.
pub proof fn lemma_whole_quotient(m: int, s: int)
    requires
        is_small(m),
        0 < s,
        is_small(s),
        is_small(m * s),
    ensures
        whole(m * s).spec_over(whole(s)) == whole(m),
{
    let f = Format::Single;
    let p = pow2(149);
    lemma_pow2_pos(149);
    lemma_whole(m);
    lemma_whole(s);
    lemma_whole(m * s);
    let a = if m < 0 {
        -m
    } else {
        m
    };
    assert(((a * s) * p) * p == (a * p) * (s * p)) by (nonlinear_arith);
    assert(a * s >= 0 && (m < 0 ==> m * s < 0) && (m >= 0 ==> m * s >= 0)) by (nonlinear_arith)
        requires
            a >= 0,
            s > 0,
            a == (if m < 0 {
                -m
            } else {
                m
            }),
    ;
    assert((-m) * s == -(m * s)) by (nonlinear_arith);
    assert((-(m * s)) * p == -((m * s) * p)) by (nonlinear_arith);
    assert((-m) * p == -(m * p)) by (nonlinear_arith);
    assert(a * p >= 0) by (nonlinear_arith)
        requires
            a >= 0,
            p > 0,
    ;
    assert(s * p > 0) by (nonlinear_arith)
        requires
            s > 0,
            p > 0,
    ;
    lemma_rounded_scaled(f, (a * p) as nat, 1, (s * p) as nat);
    assert(1 * (s * p) == s * p);
}

/// The number is the fraction `s / t`, exactly.
pub open spec fn is_fraction(z: Binary32, s: int, t: int) -> bool {
    &&& z.finite()
    &&& s > 0
    &&& t > 0
    &&& !Format::Single.negative(z.raw())
    &&& Format::Single.units(z.raw()) * t == s * pow2(149)
}

/// A multiple of `t`, multiplied by `s / t`, and back.
pub proof fn lemma_whole_fraction(x: int, z: Binary32, s: int, t: int)
    requires
        is_fraction(z, s, t),
        is_small(x * t),
        is_small(x * s),
    ensures
        whole(x * t).spec_times(z) == whole(x * s),
        whole(x * s).spec_over(z) == whole(x * t),
{
    let f = Format::Single;
    let p = pow2(149);
    let u = f.units(z.raw());
    lemma_pow2_pos(149);
    lemma_whole(x * t);
    lemma_whole(x * s);
    assert(u > 0) by (nonlinear_arith)
        requires
            u * t == s * p,
            s > 0,
            p > 0,
            t > 0,
    ;
    lemma_units_of_zero(f);
    let a = if x < 0 {
        -x
    } else {
        x
    };
    let (b, c) = (a * t, a * s);
    assert(b >= 0 && c >= 0 && (x < 0 ==> x * t < 0 && x * s < 0) && (x >= 0 ==> x * t >= 0 && x * s
        >= 0)) by (nonlinear_arith)
        requires
            b == a * t,
            c == a * s,
            a >= 0,
            s > 0,
            t > 0,
            a == (if x < 0 {
                -x
            } else {
                x
            }),
    ;
    assert((-x) * t == -(x * t) && (-x) * s == -(x * s)) by (nonlinear_arith);
    assert((-(x * t)) * p == -((x * t) * p) && (-(x * s)) * p == -((x * s) * p))
        by (nonlinear_arith);
    assert(b * p >= 0 && c * p >= 0) by (nonlinear_arith)
        requires
            b >= 0,
            c >= 0,
            p > 0,
    ;
    // Times.
    assert((b * p) * u == (c * p) * p) by (nonlinear_arith)
        requires
            b == a * t,
            c == a * s,
            u * t == s * p,
    ;
    lemma_rounded_scaled(f, (c * p) as nat, 1, p);
    assert(1 * p == p);
    // Over.
    assert((c * p) * p == (b * p) * u) by (nonlinear_arith)
        requires
            (b * p) * u == (c * p) * p,
    ;
    lemma_rounded_scaled(f, (b * p) as nat, 1, u);
    assert(1 * u == u);
}

/// The quotient of `k * s` and `k * t` is the fraction `s / t`.
pub proof fn lemma_whole_ratio(k: int, z: Binary32, s: int, t: int)
    requires
        is_fraction(z, s, t),
        k > 0,
        is_small(k * s),
        is_small(k * t),
    ensures
        whole(k * s).spec_over(whole(k * t)) == z,
{
    let f = Format::Single;
    let p = pow2(149);
    let u = f.units(z.raw());
    lemma_pow2_pos(149);
    lemma_whole(k * s);
    lemma_whole(k * t);
    assert(k * s > 0 && k * t > 0) by (nonlinear_arith)
        requires
            k > 0,
            s > 0,
            t > 0,
    ;
    let (num, den) = ((k * s) * p, (k * t) * p);
    assert(num > 0 && den > 0) by (nonlinear_arith)
        requires
            num == (k * s) * p,
            den == (k * t) * p,
            k * s > 0,
            k * t > 0,
            p > 0,
    ;
    assert(num * p == u * den) by (nonlinear_arith)
        requires
            num == (k * s) * p,
            den == (k * t) * p,
            u * t == s * p,
    ;
    lemma_rounded_scaled(f, u, 1, den as nat);
    assert(1 * den == den);
    crate::round::lemma_rounded_exact(f, z.raw());
}

/// A number of 64ths, if there are less than `2^24` of them.
proof fn lemma_parts(n: nat) -> (code: nat)
    requires
        n < 0x100_0000,
    ensures
        code < Format::Single.infinity(),
        Format::Single.units(code) == n * pow2(143),
{
    let f = Format::Single;
    if n == 0 {
        lemma_units_of_zero(f);
        assert(0 * pow2(143) == 0);
        0
    } else {
        vstd::arithmetic::power2::lemma_pow2_strictly_increases(23, 143);
        crate::round::lemma_unit_is_pow2(f);
        assert(n * pow2(143) >= pow2(143)) by (nonlinear_arith)
            requires
                n >= 1,
        ;
        let code = lemma_exact_value(f, n, 143);
        assert((143 + 2) * f.unit() < f.infinity());
        code
    }
}

/// The integer below the quotient of a small integer and one of at most 64.
pub proof fn lemma_whole_floor(m: int, s: int)
    requires
        -0x2_0000 <= m <= 0x2_0000,
        1 <= s <= 64,
    ensures
        Format::Single.floor_index(whole(m).spec_over(whole(s)).raw()) == m / s,
{
    let f = Format::Single;
    let p = pow2(149);
    let e = pow2(143);
    lemma_pow2_pos(149);
    lemma_pow2_pos(143);
    lemma_pow2_adds(6, 143);
    vstd::arithmetic::power2::lemma2_to64();
    assert(p == 64 * e);
    lemma_whole(m);
    lemma_whole(s);
    let (q, r) = (m / s, m % s);
    lemma_fundamental_div_mod(m, s);
    let a = if m < 0 {
        -m
    } else {
        m
    };
    assert(-0x2_0000 <= q <= 0x2_0000) by (nonlinear_arith)
        requires
            m == s * q + r,
            0 <= r < s,
            -0x2_0000 <= m <= 0x2_0000,
            1 <= s,
    ;
    // The magnitude of the quotient, in 64ths.
    let (lo, hi) = if m < 0 {
        (-64 * q - 63, -64 * q)
    } else {
        (64 * q, 64 * q + 63)
    };
    assert(lo >= 0 && lo * s <= 64 * a <= hi * s) by (nonlinear_arith)
        requires
            m == s * q + r,
            0 <= r < s,
            1 <= s <= 64,
            m < 0 ==> a == -m && lo == -64 * q - 63 && hi == -64 * q,
            m >= 0 ==> a == m && lo == 64 * q && hi == 64 * q + 63,
    ;
    let x = lemma_parts(lo as nat);
    let y = lemma_parts(hi as nat);
    let (num, den) = (((a * p) * p) as nat, (s * p) as nat);
    assert((a * p) * p >= 0 && s * p > 0) by (nonlinear_arith)
        requires
            a >= 0,
            s >= 1,
            p > 0,
    ;
    assert((lo * e) * (s * p) <= (a * p) * p) by (nonlinear_arith)
        requires
            lo * s <= 64 * a,
            p == 64 * e,
            e > 0,
    ;
    assert((a * p) * p <= (hi * e) * (s * p)) by (nonlinear_arith)
        requires
            64 * a <= hi * s,
            p == 64 * e,
            e > 0,
    ;
    assert((-m) * p == -(m * p)) by (nonlinear_arith);
    let c = f.rounded(num, den);
    lemma_rounded_at_least(f, num, den, x);
    lemma_rounded_at_most(f, num, den, y);
    if x < c {
        lemma_units_increase(f, x, c);
    }
    let bits = whole(m).spec_over(whole(s)).raw();
    assert(f.code(bits) == c);
    let v = f.value(bits);
    assert(q * p <= v <= q * p + 63 * e) by (nonlinear_arith)
        requires
            p == 64 * e,
            m < 0 ==> lo == -64 * q - 63 && hi == -64 * q && -(hi * e) <= v <= -(lo * e),
            m >= 0 ==> lo == 64 * q && hi == 64 * q + 63 && lo * e <= v <= hi * e,
    ;
    vstd::arithmetic::div_mod::lemma_fundamental_div_mod_converse(v, p as int, q, v - q * p);
}

/// Nothing, divided by something, is nothing.
pub proof fn lemma_zero_quotient(s: Binary32)
    requires
        s.finite(),
        Binary32::zero().below(s),
    ensures
        Binary32::zero().spec_over(s) == Binary32::zero(),
{
    let f = Format::Single;
    lemma_units_of_zero(f);
    lemma_units_increase(f, 0, s.raw());
    lemma_rounded_zero_over(f, f.units(s.raw()));
    assert(0 * pow2(149) == 0);
}

/// A finite number less itself is nothing.
pub proof fn lemma_zero_difference(a: Binary32)
    requires
        a.finite(),
    ensures
        a.spec_minus(a) == Binary32::zero(),
{
    let f = Format::Single;
    lemma_units_of_zero(f);
    lemma_rounded_zero_over(f, 1);
    let n = f.negated(a.raw());
    assert(f.value(n) == -f.value(a.raw()));
}

/// Zero and one are integers.
pub proof fn lemma_zero_and_one()
    ensures
        whole(0) == Binary32::zero(),
        whole(1) == Binary32::one(),
{
    let f = Format::Single;
    crate::monotone::lemma_single_codes();
    crate::round::lemma_rounded_exact(f, 0x3f80_0000);
    lemma_rounded_zero_over(f, 1);
    assert(0 * pow2(149) == 0);
    assert(1 * pow2(149) == pow2(149));
}

/// Small integers keep their order.
pub proof fn lemma_whole_order(m: int, n: int)
    requires
        is_small(m),
        is_small(n),
    ensures
        whole(m).below(whole(n)) <==> m < n,
        whole(m) == whole(n) <==> m == n,
{
    let p = pow2(149);
    lemma_pow2_pos(149);
    lemma_whole(m);
    lemma_whole(n);
    assert(m < n <==> m * p < n * p) by (nonlinear_arith)
        requires
            p > 0,
    ;
    assert(m == n <==> m * p == n * p) by (nonlinear_arith)
        requires
            p > 0,
    ;
    crate::monotone::lemma_order_of_values(Format::Single, whole(m).raw(), whole(n).raw());
}

/// A number of the given value is the integer that it is.
pub proof fn lemma_whole_code(n: nat, code: nat)
    requires
        n <= 0x100_0000,
        code < Format::Single.infinity(),
        Format::Single.units(code) == n * pow2(149),
    ensures
        whole(n as int).raw() == code,
{
    crate::round::lemma_rounded_exact(Format::Single, code);
}

// ----- roots -----------------------------------------------------------------------------

/// Some code is nearest to the root: the first one whose midpoint to the next is not
/// below it, or the next one on a tie.
pub proof fn lemma_root_from(f: Format, n: nat, c: nat, limit: nat) -> (code: nat)
    requires
        c <= limit < f.infinity() - 1,
        c > 0 ==> ({
            let b = f.units((c - 1) as nat) + f.units(c);
            b * b < 4 * n
        }),
        ({
            let a = f.units(limit) + f.units(limit + 1);
            4 * n <= a * a
        }),
    ensures
        f.is_root(code, n),
    decreases limit - c,
{
    let a = f.units(c) + f.units(c + 1);
    if 4 * n > a * a {
        lemma_root_from(f, n, c + 1, limit)
    } else if 4 * n == a * a && c % 2 == 1 {
        let b = f.units(c + 1) + f.units(c + 2);
        lemma_units_increase(f, c, c + 1);
        lemma_units_increase(f, c + 1, c + 2);
        assert(a * a < b * b) by (nonlinear_arith)
            requires
                0 <= a < b,
        ;
        c + 1
    } else {
        c
    }
}

/// The root of the square of a small integer is the integer, and the root of anything
/// that is not less than one is not less than one.
pub proof fn lemma_whole_root(m: int, k: int)
    requires
        0 < m,
        is_small(m),
    ensures
        !whole(m).spec_root().below(Binary32::one()),
        k >= 0 && k * k == m ==> whole(m).spec_root() == whole(k),
{
    let f = Format::Single;
    let p = pow2(149);
    lemma_pow2_pos(149);
    lemma_whole(m);
    lemma_whole(1);
    lemma_zero_and_one();
    let n = ((m * p) * p) as nat;
    assert((m * p) * p > 0 && m * p > 0) by (nonlinear_arith)
        requires
            m > 0,
            p > 0,
    ;
    // The integer itself is not below its root.
    let limit = whole(m).raw();
    lemma_units_increase(f, limit, limit + 1);
    let (x, y) = (f.units(limit), f.units(limit + 1));
    assert(4 * ((m * p) * p) <= (x + y) * (x + y)) by (nonlinear_arith)
        requires
            x == m * p,
            y > x,
            m >= 1,
            p > 0,
    ;
    lemma_whole_order(m, 0x100_0000);
    lemma_top();
    let root = lemma_root_from(f, n, 0, limit);
    let c = f.nearest_root(n);
    assert(f.is_root(c, n));
    assert(whole(m).spec_root().raw() == c);
    // Not less than one.
    let one = whole(1).raw();
    if c < one {
        lemma_units_increase(f, c, one);
        if c + 1 < one {
            lemma_units_increase(f, c + 1, one);
        }
        let a = f.units(c) + f.units(c + 1);
        assert(a * a < 4 * ((m * p) * p)) by (nonlinear_arith)
            requires
                0 <= a < 2 * p,
                m >= 1,
        ;
    }
    if k >= 0 && k * k == m {
        assert(0 < k <= m) by (nonlinear_arith)
            requires
                k >= 0,
                k * k == m,
                m > 0,
        ;
        lemma_whole(k);
        let d = whole(k).raw();
        lemma_units_increase(f, (d - 1) as nat, d);
        lemma_units_increase(f, d, d + 1);
        let (u, v, w) = (f.units((d - 1) as nat), f.units(d), f.units(d + 1));
        assert((u + v) * (u + v) < 4 * ((m * p) * p) && 4 * ((m * p) * p) < (v + w) * (v + w))
            by (nonlinear_arith)
            requires
                0 <= u < v,
                v == k * p,
                v < w,
                k * k == m,
                k > 0,
                p > 0,
        ;
        f.lemma_root_unique(c, d, n);
        f.lemma_root_unique(d, c, n);
    }
}

/// The largest of the small integers is far from infinity.
proof fn lemma_top()
    ensures
        whole(0x100_0000).raw() < 0x4c00_0000,
{
    let f = Format::Single;
    lemma_whole(0x100_0000);
    if whole(0x100_0000).raw() >= 0x4c00_0000 {
        if whole(0x100_0000).raw() > 0x4c00_0000 {
            lemma_units_increase(f, 0x4c00_0000, whole(0x100_0000).raw());
        }
        assert(f.units(0x4c00_0000) == 0x200_0000 * pow2(149)) by {
            reveal(Format::units);
            vstd::arithmetic::power2::lemma2_to64();
            assert(0x4c00_0000nat / f.unit() == 152 && 0x4c00_0000nat % f.unit() == 0);
            lemma_pow2_adds(2, 149);
            assert(0x80_0000 * (4 * pow2(149)) == 0x200_0000 * pow2(149)) by (nonlinear_arith);
        }
        lemma_pow2_pos(149);
    }
}

} // verus!
