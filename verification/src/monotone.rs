//! Rounded arithmetic keeps the order of numbers.
use crate::float::{lemma_rounded_at_least, lemma_rounded_monotone};
use crate::round::{
    lemma_rounded_is_nearest, lemma_rounded_zero_over, lemma_units_increase, lemma_units_of_zero,
    Format,
};
use vstd::arithmetic::power2::{lemma_pow2_adds, lemma_pow2_pos, lemma_pow2_unfold, pow2};
use vstd::prelude::*;

verus! {

/// Finite numbers are ordered as their values.
pub proof fn lemma_order_of_values(f: Format, a: nat, b: nat)
    requires
        f.is_finite(a),
        f.is_finite(b),
    ensures
        f.rank(a) < f.rank(b) <==> f.value(a) < f.value(b),
        f.rank(a) == f.rank(b) <==> f.value(a) == f.value(b),
{
    let (c, d) = (f.code(a), f.code(b));
    lemma_units_of_zero(f);
    if c < d {
        lemma_units_increase(f, c, d);
    } else if d < c {
        lemma_units_increase(f, d, c);
    }
    if c > 0 {
        lemma_units_increase(f, 0, c);
    }
    if d > 0 {
        lemma_units_increase(f, 0, d);
    }
}

/// What is nearest to a value is a number of the format.
proof fn lemma_nearest_is_number(f: Format, v: int)
    ensures
        !f.is_nan(f.nearest(v)),
        f.valid(f.nearest(v)),
        -(f.infinity() as int) <= f.rank(f.nearest(v)) <= f.infinity(),
        v >= 0 ==> f.rank(f.nearest(v)) == f.rounded(v as nat, 1),
        v <= 0 ==> f.rank(f.nearest(v)) == -(f.rounded((-v) as nat, 1) as int),
{
    let n = if v < 0 {
        (-v) as nat
    } else {
        v as nat
    };
    lemma_rounded_is_nearest(f, n, 1);
    lemma_rounded_zero_over(f, 1);
}

/// Rounding a value keeps the order.
pub proof fn lemma_nearest_keeps_order(f: Format, v: int, w: int)
    requires
        v <= w,
    ensures
        f.rank(f.nearest(v)) <= f.rank(f.nearest(w)),
{
    lemma_nearest_is_number(f, v);
    lemma_nearest_is_number(f, w);
    if v >= 0 {
        lemma_rounded_monotone(f, v as nat, w as nat, 1);
    } else if w <= 0 {
        lemma_rounded_monotone(f, (-w) as nat, (-v) as nat, 1);
    }
}

/// The sum of finite numbers has the order of what is nearest to the exact sum.
pub proof fn lemma_rank_of_sum(f: Format, a: nat, b: nat)
    requires
        f.is_finite(a),
        f.is_finite(b),
    ensures
        !f.is_nan(f.sum_of(a, b)),
        f.valid(f.sum_of(a, b)),
        f.rank(f.sum_of(a, b)) == f.rank(f.nearest(f.value(a) + f.value(b))),
{
    lemma_nearest_is_number(f, f.value(a) + f.value(b));
    lemma_units_of_zero(f);
    lemma_rounded_zero_over(f, 1);
}

/// The difference from a finite number is larger for a larger number.
pub proof fn lemma_difference_keeps_order(f: Format, a: nat, b: nat, c: nat)
    requires
        f.valid(a),
        f.valid(b),
        f.valid(c),
        !f.is_nan(a),
        !f.is_nan(b),
        f.is_finite(c),
        f.rank(a) <= f.rank(b),
    ensures
        !f.is_nan(f.difference_of(a, c)),
        !f.is_nan(f.difference_of(b, c)),
        f.valid(f.difference_of(a, c)),
        f.valid(f.difference_of(b, c)),
        f.rank(f.difference_of(a, c)) <= f.rank(f.difference_of(b, c)),
{
    let n = f.negated(c);
    assert(f.is_finite(n) && f.code(n) == f.code(c));
    assert(f.value(n) == -f.value(c));
    if f.is_finite(a) {
        lemma_rank_of_sum(f, a, n);
        lemma_nearest_is_number(f, f.value(a) + f.value(n));
    }
    if f.is_finite(b) {
        lemma_rank_of_sum(f, b, n);
        lemma_nearest_is_number(f, f.value(b) + f.value(n));
    }
    if f.is_finite(a) && f.is_finite(b) {
        lemma_order_of_values(f, a, b);
        lemma_nearest_keeps_order(f, f.value(a) + f.value(n), f.value(b) + f.value(n));
    }
}

/// Divided by a positive number, a larger number gives a larger one.
pub proof fn lemma_quotient_keeps_order(f: Format, a: nat, b: nat, c: nat)
    requires
        f.valid(a),
        f.valid(b),
        !f.is_nan(a),
        !f.is_nan(b),
        0 < c < f.infinity(),
        f.rank(a) <= f.rank(b),
    ensures
        !f.is_nan(f.quotient_of(a, c)),
        !f.is_nan(f.quotient_of(b, c)),
        f.valid(f.quotient_of(a, c)),
        f.valid(f.quotient_of(b, c)),
        f.rank(f.quotient_of(a, c)) <= f.rank(f.quotient_of(b, c)),
{
    let p = pow2(f.scale());
    let (x, y, z) = (f.units(f.code(a)), f.units(f.code(b)), f.units(c));
    lemma_units_of_zero(f);
    lemma_units_increase(f, 0, c);
    lemma_rounded_is_nearest(f, x * p, z);
    lemma_rounded_is_nearest(f, y * p, z);
    lemma_rounded_zero_over(f, z);
    assert(0 * p == 0);
    if f.code(a) <= f.code(b) {
        if f.code(a) < f.code(b) {
            lemma_units_increase(f, f.code(a), f.code(b));
        }
        assert(x * p <= y * p) by (nonlinear_arith)
            requires
                x <= y,
        ;
        lemma_rounded_monotone(f, x * p, y * p, z);
    } else {
        lemma_units_increase(f, f.code(b), f.code(a));
        assert(y * p <= x * p) by (nonlinear_arith)
            requires
                y <= x,
        ;
        lemma_rounded_monotone(f, y * p, x * p, z);
    }
}

/// Multiplied by a positive number, a larger number gives a larger one.
pub proof fn lemma_product_keeps_order(f: Format, a: nat, b: nat, c: nat)
    requires
        f.valid(a),
        f.valid(b),
        !f.is_nan(a),
        !f.is_nan(b),
        0 < c < f.infinity(),
        f.rank(a) <= f.rank(b),
    ensures
        !f.is_nan(f.product_of(a, c)),
        !f.is_nan(f.product_of(b, c)),
        f.valid(f.product_of(a, c)),
        f.valid(f.product_of(b, c)),
        f.rank(f.product_of(a, c)) <= f.rank(f.product_of(b, c)),
{
    let p = pow2(f.scale());
    lemma_pow2_pos(f.scale());
    let (x, y, z) = (f.units(f.code(a)), f.units(f.code(b)), f.units(c));
    lemma_units_of_zero(f);
    lemma_rounded_is_nearest(f, x * z, p);
    lemma_rounded_is_nearest(f, y * z, p);
    lemma_rounded_zero_over(f, p);
    assert(0 * z == 0);
    if f.code(a) <= f.code(b) {
        if f.code(a) < f.code(b) {
            lemma_units_increase(f, f.code(a), f.code(b));
        }
        assert(x * z <= y * z) by (nonlinear_arith)
            requires
                x <= y,
        ;
        lemma_rounded_monotone(f, x * z, y * z, p);
    } else {
        lemma_units_increase(f, f.code(b), f.code(a));
        assert(y * z <= x * z) by (nonlinear_arith)
            requires
                y <= x,
        ;
        lemma_rounded_monotone(f, y * z, x * z, p);
    }
}

/// The index of a larger number is not smaller.
pub proof fn lemma_index_keeps_order(f: Format, a: nat, b: nat)
    requires
        !f.is_nan(a),
        !f.is_nan(b),
        f.rank(a) <= f.rank(b),
    ensures
        f.round_index(a) <= f.round_index(b),
{
    let p = pow2(f.scale());
    lemma_pow2_pos(f.scale() + 1);
    lemma_units_of_zero(f);
    if !f.negative(a) && f.is_finite(a) && f.is_finite(b) {
        if f.negative(b) {
            // Both are zero.
            lemma_pow2_unfold(f.scale() + 1);
            lemma_pow2_pos(f.scale());
            assert((2 * 0 + p) / (2 * p) == 0) by (nonlinear_arith)
                requires
                    p > 0,
            ;
        } else {
            if a < b {
                lemma_units_increase(f, a, b);
            }
            vstd::arithmetic::div_mod::lemma_div_is_ordered(
                (2 * f.units(a) + p) as int,
                (2 * f.units(b) + p) as int,
                pow2(f.scale() + 1) as int,
            );
        }
    }
}

/// Divided by a positive number, what is not smaller gives at least one.
pub proof fn lemma_divided_by_itself(f: Format, a: nat, c: nat, one: nat)
    requires
        f.valid(a),
        !f.is_nan(a),
        0 < c < f.infinity(),
        f.rank(a) >= c,
        one < f.infinity(),
        f.units(one) == pow2(f.scale()),
    ensures
        !f.is_nan(f.quotient_of(a, c)),
        f.valid(f.quotient_of(a, c)),
        f.rank(f.quotient_of(a, c)) >= one,
{
    let p = pow2(f.scale());
    let (x, z) = (f.units(f.code(a)), f.units(c));
    lemma_units_of_zero(f);
    lemma_units_increase(f, 0, c);
    if f.is_finite(a) {
        if c < f.code(a) {
            lemma_units_increase(f, c, f.code(a));
        }
        assert(p * z <= x * p) by (nonlinear_arith)
            requires
                z <= x,
        ;
        lemma_rounded_at_least(f, x * p, z, one);
        lemma_rounded_is_nearest(f, x * p, z);
    }
}

/// Twice a normal number has the next exponent, however it was rounded.
pub proof fn lemma_rounded_double(f: Format, h: nat)
    requires
        h >= f.unit(),
        f.rounded(2 * h, 1) < f.infinity(),
    ensures
        f.rounded(2 * h, 1) == f.rounded(h, 1) + f.unit(),
        f.units(f.rounded(2 * h, 1)) == 2 * f.units(f.rounded(h, 1)),
        f.rounded(h, 1) >= f.unit(),
{
    let k = f.excess(h);
    let c = f.rounded(h, 1);
    assert(f.excess(2 * h) == 1 + k) by {
        assert((2 * h) / 2 == h);
    }
    lemma_pow2_unfold(k + 1);
    lemma_pow2_pos(k);
    assert(1 * pow2(k) == pow2(k));
    assert(1 * pow2(k + 1) == pow2(k + 1));
    crate::round::lemma_nearest_even_scaled(h, pow2(k), 2);
    assert(h * 2 == 2 * h && pow2(k) * 2 == pow2(k + 1));
    assert((k + 1) * f.unit() == k * f.unit() + f.unit()) by (nonlinear_arith);
    vstd::arithmetic::div_mod::lemma_div_basics(h as int);
    vstd::arithmetic::div_mod::lemma_div_basics((2 * h) as int);
    assert(f.rounded(2 * h, 1) == c + f.unit()) by {
        reveal(Format::rounded);
    }
    crate::round::lemma_units_of_parts(f, f.unit(), 0);
    vstd::arithmetic::power2::lemma2_to64();
    assert(f.unit() + 0 * f.unit() == f.unit());
    assert(f.unit() * pow2(0) == f.unit()) by (nonlinear_arith)
        requires
            pow2(0) == 1,
    ;
    assert(f.units(f.unit()) * 1 <= h);
    lemma_rounded_at_least(f, h, 1, f.unit());
    assert(f.units(c + f.unit()) == 2 * f.units(c)) by {
        reveal(Format::units);
        let u = f.unit();
        assert((c + u) / u == c / u + 1 && (c + u) % u == c % u) by (nonlinear_arith)
            requires
                u > 0,
        ;
        assert(c / u >= 1) by (nonlinear_arith)
            requires
                c >= u,
                u > 0,
        ;
        let e = (c / u - 1) as nat;
        lemma_pow2_unfold(e + 1);
        assert((u + c % u) * pow2(e + 1) == 2 * ((u + c % u) * pow2(e))) by (nonlinear_arith)
            requires
                pow2(e + 1) == 2 * pow2(e),
        ;
    }
}

/// The codes of one half, one, 127½ and 255 in single precision.
pub proof fn lemma_single_codes()
    ensures
        ({
            let f = Format::Single;
            let p = pow2(149);
            &&& 2 * f.units(0x3f00_0000) == p
            &&& f.units(0x3f80_0000) == p
            &&& f.units(0x437f_0000) == 255 * p
            &&& 2 * f.units(0x42ff_0000) == 255 * p
        }),
{
    let f = Format::Single;
    reveal(Format::units);
    vstd::arithmetic::power2::lemma2_to64();
    assert(0x3f00_0000nat / f.unit() == 126 && 0x3f00_0000nat % f.unit() == 0);
    assert(0x3f80_0000nat / f.unit() == 127 && 0x3f80_0000nat % f.unit() == 0);
    assert(0x437f_0000nat / f.unit() == 134 && 0x437f_0000nat % f.unit() == 0x7f_0000);
    assert(0x42ff_0000nat / f.unit() == 133 && 0x42ff_0000nat % f.unit() == 0x7f_0000);
    lemma_pow2_adds(24, 125);
    lemma_pow2_adds(23, 126);
    lemma_pow2_adds(16, 133);
    lemma_pow2_adds(17, 132);
    assert(0x80_0000 * pow2(125) * 2 == 0x100_0000 * pow2(125)) by (nonlinear_arith);
    assert(0xff_0000 * pow2(133) == 255 * (0x1_0000 * pow2(133))) by (nonlinear_arith);
    assert(2 * (0xff_0000 * pow2(132)) == 255 * (0x2_0000 * pow2(132))) by (nonlinear_arith);
}

} // verus!
