//! Images of counts. Detectors count, and counts are natural numbers: as long as
//! they can be told apart in the formats in use, sums of them are exact, and
//! means are the exact ones, rounded once.
use crate::binary::{Binary32, Binary64};
use crate::crop::CropRect;
use crate::float::{
    lemma_exact_integer, lemma_exact_integers_ordered, lemma_product_of_integers, lemma_quotient_of_integers,
    lemma_rounded_scaled, lemma_sum_of_integers, lemma_widened_integer,
};
use crate::frame::{sum_of, Image};
use crate::loader::{mean_at, std_at, sum_at};
use crate::project::{accumulated, joined, Cell};
use crate::round::{
    lemma_rounded_exact, lemma_rounded_zero_over, lemma_units_increase, lemma_units_of_zero, Format,
};
use crate::order::{is_order, lemma_order_is_one, order_of};
use crate::stats::{deviation, finite_ones, inner_region, is_farthest, means_of, median_of};
use vstd::arithmetic::power2::{lemma_pow2_adds, lemma_pow2_pos, pow2};
use vstd::prelude::*;

verus! {

/// Up to here, binary32 holds every natural number.
pub open spec fn single_limit() -> nat {
    0x100_0000
}

/// Up to here, binary64 holds every natural number.
pub open spec fn double_limit() -> nat {
    0x20_0000_0000_0000
}

/// The sum of some counts.
pub open spec fn total(counts: Seq<nat>) -> nat
    decreases counts.len(),
{
    if counts.len() == 0 {
        0
    } else {
        total(counts.drop_last()) + counts.last()
    }
}

/// The values are counts, each small enough for binary32.
pub open spec fn are_counts(values: Seq<u32>, counts: Seq<nat>) -> bool {
    &&& values.len() == counts.len()
    &&& forall|i: int|
        #![trigger values[i]]
        #![trigger counts[i]]
        0 <= i < values.len() ==> counts[i] <= single_limit() && values[i]
            == Binary32::nearest_to(counts[i]).bits
}

proof fn lemma_start(n: nat)
    requires
        n <= double_limit(),
    ensures
        Binary64::minus_zero().spec_plus(Binary64::nearest_to(n)) == Binary64::nearest_to(n),
{
    let f = Format::Double;
    lemma_exact_integer(f, n);
    lemma_units_of_zero(f);
    lemma_rounded_exact(f, f.from_nat(n));
}

/// Sums of counts are exact.
pub proof fn law_sum_of_counts_is_exact(values: Seq<u32>, counts: Seq<nat>)
    requires
        are_counts(values, counts),
        total(counts) <= double_limit(),
        values.len() > 0,
    ensures
        sum_of(values) == Binary64::nearest_to(total(counts)),
    decreases values.len(),
{
    let f = Format::Double;
    let (v, c) = (values.drop_last(), counts.drop_last());
    let last = counts.last();
    assert(values[values.len() - 1] == Binary32::nearest_to(last).bits);
    lemma_exact_integer(Format::Single, last);
    lemma_widened_integer(last);
    lemma_exact_integer(f, last);
    assert((Binary32 { bits: values.last() }).spec_widen() == Binary64::nearest_to(last));
    if v.len() == 0 {
        assert(total(c) == 0);
        assert(sum_of(v) == Binary64::minus_zero());
        lemma_start(last);
    } else {
        assert forall|i: int|
            #![trigger v[i]]
            #![trigger c[i]]
            0 <= i < v.len() implies c[i] <= single_limit() && v[i] == Binary32::nearest_to(
            c[i],
        ).bits by {
            assert(v[i] == values[i] && c[i] == counts[i]);
        }
        law_sum_of_counts_is_exact(v, c);
        lemma_exact_integer(f, total(c));
        lemma_sum_of_integers(f, total(c), last);
    }
}

/// The mean of counts is the exact one, rounded once.
pub proof fn law_mean_of_counts_is_nearest(values: Seq<u32>, counts: Seq<nat>)
    requires
        are_counts(values, counts),
        total(counts) <= double_limit(),
        0 < values.len() <= double_limit(),
    ensures
        sum_of(values).spec_over(Binary64::nearest_to(values.len())).raw()
            == Format::Double.rounded(total(counts) * pow2(1074), values.len()),
{
    let f = Format::Double;
    law_sum_of_counts_is_exact(values, counts);
    lemma_exact_integer(f, total(counts));
    lemma_exact_integer(f, values.len());
    lemma_quotient_of_integers(f, total(counts), values.len());
    crate::round::lemma_rounded_is_nearest(f, total(counts) * pow2(1074), values.len());
}

/// The mean counts inside the crop are the exact mean of its pixels, rounded
/// once.
pub proof fn law_inside_mean_is_nearest(
    image: Image,
    image_total: Binary64,
    pixels: nat,
    crop: CropRect,
    band: nat,
    counts: Seq<nat>,
)
    requires
        crop.width > 0,
        crop.height > 0,
        are_counts(image.region(crop), counts),
        total(counts) <= double_limit(),
        crop.width * crop.height <= double_limit(),
    ensures
        means_of(image, image_total, pixels, crop, band).inside.raw() == Format::Double.rounded(
            total(counts) * pow2(1074),
            (crop.width * crop.height) as nat,
        ),
{
    assert(crop.width * crop.height > 0) by (nonlinear_arith)
        requires
            crop.width > 0,
            crop.height > 0,
    ;
    law_mean_of_counts_is_nearest(image.region(crop), counts);
}

/// The same count `n` times.
pub proof fn lemma_total_of_equal(n: nat, v: nat)
    ensures
        total(Seq::new(n, |i: int| v)) == n * v,
    decreases n,
{
    let s = Seq::new(n, |i: int| v);
    if n > 0 {
        lemma_total_of_equal((n - 1) as nat, v);
        assert(s.drop_last() =~= Seq::new((n - 1) as nat, |i: int| v));
        assert((n - 1) * v + v == n * v) by (nonlinear_arith);
    } else {
        assert(0 * v == 0);
    }
}

proof fn lemma_sum_of_equal(values: Seq<u32>, v: nat)
    requires
        v <= single_limit(),
        values.len() > 0,
        values.len() * v <= double_limit(),
        forall|i: int| 0 <= i < values.len() ==> #[trigger] values[i] == Binary32::nearest_to(v).bits,
    ensures
        sum_of(values) == Binary64::nearest_to(values.len() * v),
{
    let counts = Seq::new(values.len(), |i: int| v);
    lemma_total_of_equal(values.len(), v);
    law_sum_of_counts_is_exact(values, counts);
}

/// The difference of two small integers is their difference.
pub proof fn lemma_difference(a: nat, b: nat)
    requires
        b <= a <= double_limit(),
    ensures
        Binary64::nearest_to(a).spec_minus(Binary64::nearest_to(b)) == Binary64::nearest_to(
            (a - b) as nat,
        ),
{
    let f = Format::Double;
    let p = pow2(1074);
    lemma_pow2_pos(1074);
    lemma_exact_integer(f, a);
    lemma_exact_integer(f, b);
    lemma_exact_integer(f, (a - b) as nat);
    lemma_units_of_zero(f);
    lemma_rounded_zero_over(f, 1);
    assert(a * p - b * p == (a - b) * p) by (nonlinear_arith);
    assert((a - b) * p >= 0) by (nonlinear_arith)
        requires
            a >= b,
            p > 0,
    ;
    let (x, y) = (f.from_nat(a), f.from_nat(b));
    assert(f.value(x) + f.value(f.negated(y)) == (a - b) * p);
    if x == 0 && y == 0 {
        assert(a * p == 0 && b * p == 0);
        assert(a == b) by (nonlinear_arith)
            requires
                a * p == 0,
                b * p == 0,
                p > 0,
        ;
        assert(0 * p == 0);
    }
}

/// On an image that is the same everywhere, the crop changes nothing: the means
/// in the edge band, inside and outside are all the count of its pixels.
pub proof fn law_uniform_frame_has_equal_means(image: Image, v: nat, crop: CropRect, band: nat)
    requires
        image.wf(),
        crop.fits(image.cols as int, image.rows as int),
        crop.bounded(),
        v <= single_limit(),
        image.pixels.len() <= double_limit(),
        image.pixels.len() * v <= double_limit(),
        forall|i: int|
            0 <= i < image.pixels.len() ==> #[trigger] image.pixels[i]
                == Binary32::nearest_to(v).bits,
    ensures
        ({
            let m = means_of(image, sum_of(image.pixels), image.pixels.len(), crop, band);
            &&& m.inside == Binary64::nearest_to(v)
            &&& band > 0 ==> m.edge == Binary64::nearest_to(v)
            &&& crop.width * crop.height < image.pixels.len() ==> m.outside
                == Binary64::nearest_to(v)
        }),
{
    let n = image.pixels.len();
    let area = (crop.width * crop.height) as nat;
    crate::stats::lemma_areas(crop, band, image.cols, image.rows);
    assert(image.cols * image.rows == image.rows * image.cols) by (nonlinear_arith);
    assert(area > 0) by (nonlinear_arith)
        requires
            area == crop.width * crop.height,
            crop.width > 0,
            crop.height > 0,
    ;
    assert(area * v <= n * v) by (nonlinear_arith)
        requires
            area <= n,
    ;
    lemma_region_of_equal(image, v, crop);
    lemma_sum_of_equal(image.region(crop), v);
    lemma_sum_of_equal(image.pixels, v);
    lemma_quotient_of(area, v);
    if let Some(inner) = inner_region(crop, band) {
        let small = (inner.width * inner.height) as nat;
        assert(small > 0) by (nonlinear_arith)
            requires
                small == inner.width * inner.height,
                inner.width > 0,
                inner.height > 0,
        ;
        assert(small * v <= area * v) by (nonlinear_arith)
            requires
                small <= area,
        ;
        lemma_region_of_equal(image, v, inner);
        lemma_sum_of_equal(image.region(inner), v);
        lemma_difference(area * v, small * v);
        assert(area * v - small * v == (area - small) * v) by (nonlinear_arith);
        if band > 0 {
            assert((area - small) as nat * v <= n * v) by (nonlinear_arith)
                requires
                    0 <= area - small <= n,
            ;
            lemma_quotient_of((area - small) as nat, v);
        }
    }
    if area < n {
        lemma_difference(n * v, area * v);
        assert(n * v - area * v == (n - area) * v) by (nonlinear_arith);
        assert((n - area) as nat * v <= n * v) by (nonlinear_arith)
            requires
                0 <= n - area <= n,
        ;
        lemma_quotient_of((n - area) as nat, v);
    }
}

proof fn lemma_region_of_equal(image: Image, v: nat, r: CropRect)
    requires
        image.wf(),
        r.within(image.cols as int, image.rows as int),
        forall|i: int|
            0 <= i < image.pixels.len() ==> #[trigger] image.pixels[i]
                == Binary32::nearest_to(v).bits,
    ensures
        forall|i: int|
            0 <= i < image.region(r).len() ==> #[trigger] image.region(r)[i]
                == Binary32::nearest_to(v).bits,
{
    let area = image.region(r);
    assert forall|i: int| 0 <= i < area.len() implies #[trigger] area[i] == Binary32::nearest_to(
        v,
    ).bits by {
        let (w, h) = (r.width as int, r.height as int);
        let (y, x) = (i / w, i % w);
        vstd::arithmetic::div_mod::lemma_fundamental_div_mod(i, w);
        assert(0 <= y < h) by (nonlinear_arith)
            requires
                0 <= i < w * h,
                i == w * y + x,
                0 <= x < w,
        ;
        let (rows, cols) = (image.rows as int, image.cols as int);
        let k = (r.y + y) * cols + r.x + x;
        assert(0 <= k < rows * cols) by (nonlinear_arith)
            requires
                k == (r.y + y) * cols + r.x + x,
                0 <= r.y + y < rows,
                0 <= r.x + x < cols,
        ;
        assert(area[i] == image.pixels[k]);
    }
}

// ----- projections -----------------------------------------------------------------------

/// The sum projection counts every frame that is added.
pub proof fn law_sum_follows_a_count(c: Cell, sum: nat, v: nat)
    requires
        c.sum == Binary64::nearest_to(sum),
        v <= single_limit(),
        sum + v <= double_limit(),
    ensures
        c.with(Binary32::nearest_to(v)).sum == Binary64::nearest_to(sum + v),
{
    let f = Format::Double;
    lemma_exact_integer(Format::Single, v);
    lemma_widened_integer(v);
    lemma_exact_integer(f, v);
    lemma_exact_integer(f, sum);
    lemma_sum_of_integers(f, sum, v);
}

/// The sums of two parts of the stack, joined, are those of the whole: for
/// counts, the sum projection does not depend on how the stack was divided.
pub proof fn law_sums_of_joined_parts(a: Cell, b: Cell, m: nat, n: nat)
    requires
        a.sum == Binary64::nearest_to(m),
        b.sum == Binary64::nearest_to(n),
        m + n <= double_limit(),
    ensures
        a.join(b).sum == Binary64::nearest_to(m + n),
{
    let f = Format::Double;
    lemma_exact_integer(f, m);
    lemma_exact_integer(f, n);
    lemma_sum_of_integers(f, m, n);
}

/// A pixel that has the same count in all of `n` frames has that count as its
/// mean, and no standard deviation.
pub proof fn law_constant_pixel_has_no_deviation(c: Cell, v: nat, n: nat)
    requires
        n > 0,
        v <= single_limit(),
        v * v <= double_limit(),
        n <= double_limit(),
        n * v <= double_limit(),
        n * (v * v) <= double_limit(),
        c.sum == Binary64::nearest_to(n * v),
        c.sumsq == Binary64::nearest_to(n * (v * v)),
    ensures
        mean_at(c, n) == Binary32::nearest_to(v).bits,
        std_at(c, n) == 0,
{
    let f = Format::Double;
    lemma_quotient_of(n, v);
    lemma_quotient_of(n, v * v);
    lemma_narrowed_integer(v);
    lemma_exact_integer(f, v);
    lemma_product_of_integers(f, v, v);
    lemma_exact_integer(f, v * v);
    lemma_difference(v * v, v * v);
    assert(Binary64::nearest_to(0) == Binary64::zero()) by {
        lemma_rounded_zero_over(f, 1);
        assert(0 * pow2(1074) == 0);
    }
    lemma_narrowed_integer(0);
    assert(Binary32::nearest_to(0) == Binary32::zero()) by {
        lemma_rounded_zero_over(Format::Single, 1);
        assert(0 * pow2(149) == 0);
    }
    lemma_units_of_zero(f);
}

/// `n` times a number, divided by `n`, is the number.
proof fn lemma_quotient_of(n: nat, x: nat)
    requires
        0 < n <= double_limit(),
        x <= double_limit(),
        n * x <= double_limit(),
    ensures
        Binary64::nearest_to(n * x).spec_over(Binary64::nearest_to(n)) == Binary64::nearest_to(x),
{
    let f = Format::Double;
    let p = pow2(1074);
    lemma_exact_integer(f, n * x);
    lemma_exact_integer(f, n);
    lemma_exact_integer(f, x);
    lemma_quotient_of_integers(f, n * x, n);
    assert((n * x) * p == (x * p) * n) by (nonlinear_arith);
    lemma_rounded_scaled(f, x * p, 1, n);
    assert(1 * n == n);
}

// ----- the most suspicious frame -----------------------------------------------------

/// Where all frames but one have the same count, that one is the most suspicious,
/// whether it is darker or brighter than the others.
pub proof fn law_only_different_frame_is_suspicious(
    values: Seq<Binary64>,
    usual: nat,
    other: nat,
    i: int,
)
    requires
        3 <= values.len() <= usize::MAX,
        2 * usual <= double_limit(),
        other <= double_limit(),
        usual != other,
        0 <= i < values.len(),
        values[i] == Binary64::nearest_to(other),
        forall|k: int|
            0 <= k < values.len() && k != i ==> #[trigger] values[k] == Binary64::nearest_to(usual),
    ensures
        is_farthest(values, i),
        forall|k: int| #[trigger] is_farthest(values, k) ==> k == i,
{
    let f = Format::Double;
    lemma_exact_integer(f, usual);
    lemma_exact_integer(f, other);
    lemma_median_of_equal(values, usual, other, i);
    let middle = Binary64::nearest_to(usual);
    let far = if other < usual {
        (usual - other) as nat
    } else {
        (other - usual) as nat
    };
    assert(deviation(values, i) == Binary64::nearest_to(far)) by {
        lemma_distance(other, usual);
    }
    lemma_exact_integers_ordered(f, 0, far);
    lemma_exact_integer(f, far);
    assert forall|k: int| #![trigger values[k]] 0 <= k < values.len() && k != i implies deviation(
        values,
        k,
    ).place() < deviation(values, i).place() by {
        lemma_distance(usual, usual);
    }
    let d = values[i];
}

/// The size of the difference of two counts.
proof fn lemma_distance(a: nat, b: nat)
    requires
        a <= double_limit(),
        b <= double_limit(),
    ensures
        Binary64::nearest_to(a).spec_minus(Binary64::nearest_to(b)).spec_abs()
            == Binary64::nearest_to(
            if a < b {
                (b - a) as nat
            } else {
                (a - b) as nat
            },
        ),
{
    let f = Format::Double;
    if a >= b {
        lemma_difference(a, b);
        lemma_exact_integer(f, (a - b) as nat);
    } else {
        let p = pow2(1074);
        lemma_pow2_pos(1074);
        lemma_exact_integer(f, a);
        lemma_exact_integer(f, b);
        lemma_exact_integer(f, (b - a) as nat);
        lemma_units_of_zero(f);
        lemma_exact_integers_ordered(f, a, b);
        let (x, y) = (f.from_nat(a), f.from_nat(b));
        assert(f.value(x) + f.value(f.negated(y)) == a * p - b * p);
        assert(b * p - a * p == (b - a) * p) by (nonlinear_arith);
        assert((b - a) * p > 0) by (nonlinear_arith)
            requires
                a < b,
                p > 0,
        ;
        assert(y > 0);
        assert(f.difference_of(x, y) == f.pack(true, f.from_nat((b - a) as nat)));
    }
}

proof fn lemma_two()
    ensures
        Binary64::two() == Binary64::nearest_to(2),
{
    let f = Format::Double;
    assert(f.units(0x4000_0000_0000_0000) == 2 * pow2(1074)) by {
        reveal(Format::units);
        assert(0x4000_0000_0000_0000nat / f.unit() == 1024);
        assert(0x4000_0000_0000_0000nat % f.unit() == 0);
        lemma_pow2_adds(52, 1023);
        lemma_pow2_adds(1, 1074);
        vstd::arithmetic::power2::lemma2_to64();
        vstd::arithmetic::power2::lemma2_to64_rest();
    }
    lemma_rounded_exact(f, 0x4000_0000_0000_0000);
}

/// The median is the count that all frames but one have.
proof fn lemma_median_of_equal(values: Seq<Binary64>, usual: nat, other: nat, i: int)
    requires
        3 <= values.len() <= usize::MAX,
        2 * usual <= double_limit(),
        other <= double_limit(),
        usual != other,
        0 <= i < values.len(),
        values[i] == Binary64::nearest_to(other),
        forall|k: int|
            0 <= k < values.len() && k != i ==> #[trigger] values[k] == Binary64::nearest_to(usual),
    ensures
        median_of(values) == Binary64::nearest_to(usual),
{
    let f = Format::Double;
    let n = values.len();
    let picked = finite_ones(values);
    lemma_exact_integer(f, usual);
    lemma_exact_integer(f, other);
    if other < usual {
        lemma_exact_integers_ordered(f, other, usual);
    } else {
        lemma_exact_integers_ordered(f, usual, other);
    }
    assert forall|k: int| 0 <= k < n implies #[trigger] picked[k] by {
        let v = values[k];
    }
    let order = if other < usual {
        Seq::new(
            n,
            |k: int|
                (if k == 0 {
                    i
                } else if k <= i {
                    k - 1
                } else {
                    k
                }) as usize,
        )
    } else {
        Seq::new(
            n,
            |k: int|
                (if k == n - 1 {
                    i
                } else if k < i {
                    k
                } else {
                    k + 1
                }) as usize,
        )
    };
    assert(is_order(values, picked, order)) by {
        assert forall|k: int|
            #![trigger picked[k]]
            0 <= k < n && picked[k] implies order.contains(k as usize) by {
            let at = if other < usual {
                if k == i {
                    0
                } else if k < i {
                    k + 1
                } else {
                    k
                }
            } else {
                if k == i {
                    n - 1
                } else if k < i {
                    k
                } else {
                    k - 1
                }
            };
            assert(order[at] == k as usize);
        }
        assert forall|a: int, b: int| 0 <= a < b < n implies crate::order::comes_before(
            values,
            #[trigger] order[a] as int,
            #[trigger] order[b] as int,
        ) by {
            let (x, y) = (values[order[a] as int], values[order[b] as int]);
        }
    }
    lemma_order_is_one(values, picked, order, order_of(values, picked));
    let mid = n as int / 2;
    let v = values[order[mid] as int];
    if n % 2 == 0 {
        let u = values[order[mid - 1] as int];
        lemma_sum_of_integers(f, usual, usual);
        lemma_two();
        assert(usual + usual == 2 * usual);
        lemma_exact_integer(f, 2 * usual);
        lemma_quotient_of(2, usual);
    }
}

// ----- projections of a whole stack ----------------------------------------------------

/// Whole counts that double precision holds become the nearest single.
proof fn lemma_narrowed_integer(v: nat)
    requires
        v <= double_limit(),
    ensures
        Binary64::nearest_to(v).spec_narrow() == Binary32::nearest_to(v),
{
    let f = Format::Double;
    lemma_exact_integer(f, v);
    lemma_pow2_pos(925);
    lemma_pow2_adds(149, 925);
    assert(v * pow2(1074) == (v * pow2(149)) * pow2(925)) by (nonlinear_arith)
        requires
            pow2(1074) == pow2(149) * pow2(925),
    ;
    lemma_rounded_scaled(Format::Single, v * pow2(149), 1, pow2(925));
    assert(1 * pow2(925) == pow2(925));
    crate::round::lemma_rounded_is_nearest(Format::Single, v * pow2(149), 1);
}

/// The pixel at place `i` takes these counts in the frames, one after the other.
pub open spec fn takes_counts(frames: Seq<Image>, i: int, counts: Seq<nat>) -> bool {
    &&& counts.len() == frames.len()
    &&& forall|k: int|
        #![trigger frames[k]]
        #![trigger counts[k]]
        0 <= k < frames.len() ==> i < frames[k].pixels.len() && counts[k] <= single_limit()
            && frames[k].pixels[i] == Binary32::nearest_to(counts[k]).bits
}

/// The squares of some counts.
pub open spec fn squares(counts: Seq<nat>) -> Seq<nat> {
    counts.map_values(|n: nat| n * n)
}

/// The square of a count of a pixel, in double precision.
proof fn lemma_squared_count(v: nat)
    requires
        v <= single_limit(),
    ensures
        ({
            let wide = Binary32::nearest_to(v).spec_widen();
            wide == Binary64::nearest_to(v) && wide.spec_times(wide) == Binary64::nearest_to(v * v)
        }),
{
    let f = Format::Double;
    lemma_exact_integer(Format::Single, v);
    lemma_widened_integer(v);
    lemma_exact_integer(f, v);
    lemma_product_of_integers(f, v, v);
}

/// Over a stack of counts the accumulated sums are the exact sums of the counts that
/// a pixel takes, and of their squares.
pub proof fn law_accumulated_counts_are_exact(
    len: nat,
    frames: Seq<Image>,
    i: int,
    counts: Seq<nat>,
)
    requires
        0 <= i < len,
        takes_counts(frames, i, counts),
        total(counts) <= double_limit(),
        total(squares(counts)) <= double_limit(),
    ensures
        accumulated(len, frames).len() == len,
        accumulated(len, frames)[i].sum == Binary64::nearest_to(total(counts)),
        accumulated(len, frames)[i].sumsq == Binary64::nearest_to(total(squares(counts))),
    decreases frames.len(),
{
    let f = Format::Double;
    if frames.len() == 0 {
        lemma_rounded_zero_over(f, 1);
        assert(0 * pow2(1074) == 0);
    } else {
        let (earlier, fewer) = (frames.drop_last(), counts.drop_last());
        let v = counts.last();
        assert(squares(counts).drop_last() =~= squares(fewer));
        assert(squares(counts).last() == v * v);
        assert(frames[frames.len() - 1].pixels[i] == Binary32::nearest_to(v).bits);
        assert forall|k: int|
            #![trigger earlier[k]]
            #![trigger fewer[k]]
            0 <= k < earlier.len() implies i < earlier[k].pixels.len() && fewer[k] <= single_limit()
            && earlier[k].pixels[i] == Binary32::nearest_to(fewer[k]).bits by {
            assert(earlier[k] == frames[k] && fewer[k] == counts[k]);
        }
        law_accumulated_counts_are_exact(len, earlier, i, fewer);
        lemma_squared_count(v);
        let (a, b) = (total(fewer), total(squares(fewer)));
        lemma_sum_of_integers(f, a, v);
        lemma_sum_of_integers(f, b, v * v);
        lemma_exact_integer(f, a);
        lemma_exact_integer(f, b);
        lemma_exact_integer(f, v);
        lemma_exact_integer(f, v * v);
    }
}

/// The sum of the counts that a pixel takes is shown as the nearest number.
pub proof fn law_shown_sum_is_nearest(c: Cell, sum: nat)
    requires
        c.sum == Binary64::nearest_to(sum),
        sum <= double_limit(),
    ensures
        sum_at(c) == Binary32::nearest_to(sum).bits,
{
    lemma_narrowed_integer(sum);
}

/// The mean of the counts that a pixel takes in `n` frames lies between any bounds
/// that they have, and is exact when it is a whole number.
pub proof fn law_shown_mean_lies_between(c: Cell, sum: nat, n: nat, lo: nat, hi: nat)
    requires
        c.sum == Binary64::nearest_to(sum),
        sum <= double_limit(),
        0 < n <= double_limit(),
        lo * n <= sum <= hi * n,
        hi <= single_limit(),
    ensures
        !(Binary32 { bits: mean_at(c, n) }).below(Binary32::nearest_to(lo)),
        !Binary32::nearest_to(hi).below(Binary32 { bits: mean_at(c, n) }),
        lo * n == sum ==> mean_at(c, n) == Binary32::nearest_to(lo).bits,
{
    let (f, g) = (Format::Double, Format::Single);
    let p = pow2(1074);
    let q = pow2(925);
    lemma_pow2_pos(1074);
    lemma_pow2_pos(925);
    assert(lo <= hi) by (nonlinear_arith)
        requires
            lo * n <= hi * n,
            n > 0,
    ;
    lemma_exact_integer(f, sum);
    lemma_exact_integer(f, n);
    lemma_exact_integer(f, lo);
    lemma_exact_integer(f, hi);
    lemma_quotient_of_integers(f, sum, n);
    let mean = c.sum.spec_over(Binary64::nearest_to(n));
    let m = f.rounded(sum * p, n);
    assert((lo * p) * n <= sum * p <= (hi * p) * n) by (nonlinear_arith)
        requires
            lo * n <= sum <= hi * n,
            p > 0,
    ;
    crate::float::lemma_rounded_at_least(f, sum * p, n, f.from_nat(lo));
    crate::float::lemma_rounded_at_most(f, sum * p, n, f.from_nat(hi));
    assert(mean.raw() == m);
    lemma_narrowed_integer(lo);
    lemma_narrowed_integer(hi);
    crate::round::lemma_rounded_is_nearest(g, f.units(m), q);
    if f.from_nat(lo) < m {
        crate::round::lemma_units_increase(f, f.from_nat(lo), m);
    }
    crate::float::lemma_rounded_monotone(g, f.units(f.from_nat(lo)), f.units(m), q);
    crate::float::lemma_rounded_monotone(g, f.units(m), f.units(f.from_nat(hi)), q);
    crate::round::lemma_rounded_is_nearest(g, f.units(f.from_nat(lo)), q);
    crate::round::lemma_rounded_is_nearest(g, f.units(f.from_nat(hi)), q);
    if lo * n == sum {
        assert(n * lo == sum) by (nonlinear_arith)
            requires
                lo * n == sum,
        ;
        lemma_quotient_of(n, lo);
    }
}

/// The sums of two parts of a stack of counts, accumulated apart and joined, are those
/// of the whole stack, and so are the sums of their squares.
pub proof fn law_divided_stack_has_the_same_sums(
    len: nat,
    first: Seq<Image>,
    second: Seq<Image>,
    i: int,
    a: Seq<nat>,
    b: Seq<nat>,
)
    requires
        0 <= i < len,
        takes_counts(first, i, a),
        takes_counts(second, i, b),
        total(a) + total(b) <= double_limit(),
        total(squares(a)) + total(squares(b)) <= double_limit(),
    ensures
        ({
            let both = joined(accumulated(len, first), accumulated(len, second));
            &&& both.len() == len
            &&& both[i].sum == Binary64::nearest_to(total(a) + total(b))
            &&& both[i].sumsq == Binary64::nearest_to(total(squares(a)) + total(squares(b)))
        }),
{
    let f = Format::Double;
    law_accumulated_counts_are_exact(len, first, i, a);
    law_accumulated_counts_are_exact(len, second, i, b);
    let (c, d) = (accumulated(len, first)[i], accumulated(len, second)[i]);
    law_sums_of_joined_parts(c, d, total(a), total(b));
    let (m, n) = (total(squares(a)), total(squares(b)));
    lemma_exact_integer(f, m);
    lemma_exact_integer(f, n);
    lemma_sum_of_integers(f, m, n);
}

// ----- the deviation is a number ---------------------------------------------------------

/// Divided by a count, a finite number stays finite.
proof fn lemma_finite_quotient(x: Binary64, n: nat)
    requires
        x.finite(),
        0 < n <= double_limit(),
    ensures
        x.spec_over(Binary64::nearest_to(n)).finite(),
{
    let f = Format::Double;
    let p = pow2(1074);
    lemma_pow2_pos(1074);
    lemma_exact_integer(f, n);
    let k = f.from_nat(n);
    let u = f.units(f.code(x.raw()));
    lemma_units_of_zero(f);
    assert(p <= n * p && n * p > 0) by (nonlinear_arith)
        requires
            n >= 1,
            p > 0,
    ;
    assert(u * p <= u * (n * p)) by (nonlinear_arith)
        requires
            p <= n * p,
    ;
    crate::float::lemma_rounded_at_most(f, u * p, n * p, f.code(x.raw()));
}

/// The root of a number that is not negative is a number.
proof fn lemma_root_is_number(v: Binary64)
    requires
        !v.not_a_number(),
        !v.below(Binary64::zero()),
    ensures
        !v.spec_root().not_a_number(),
        !v.spec_root().below(Binary64::zero()),
{
    let f = Format::Double;
    if v.finite() && v.raw() != 0 && !f.negative(v.raw()) {
        let p = pow2(1074);
        let u = f.units(v.raw());
        let n = u * p;
        // A number whose square is larger than every finite number.
        let limit = f.unit() + 1622 * f.unit();
        crate::round::lemma_unit_is_pow2(f);
        crate::round::lemma_units_of_parts(f, f.unit(), 1622);
        lemma_pow2_adds(52, 1622);
        let x = pow2(1674);
        assert(f.units(limit) == x);
        let top = f.unit() + 2046 * f.unit();
        crate::round::lemma_units_of_parts(f, f.unit(), 2046);
        lemma_pow2_adds(52, 2046);
        assert(top == f.infinity());
        crate::round::lemma_units_increase(f, v.raw(), f.infinity());
        crate::round::lemma_units_increase(f, limit, limit + 1);
        lemma_pow2_adds(2098, 1074);
        lemma_pow2_adds(1674, 1674);
        vstd::arithmetic::power2::lemma_pow2_strictly_increases(3172, 3348);
        lemma_pow2_pos(1074);
        assert(n <= pow2(2098) * p) by (nonlinear_arith)
            requires
                n == u * p,
                u <= pow2(2098),
        ;
        let a = f.units(limit) + f.units(limit + 1);
        assert(4 * (x * x) <= a * a) by (nonlinear_arith)
            requires
                a >= 2 * x,
        ;
        let root = crate::integers::lemma_root_from(f, n, 0, limit);
        assert(f.is_root(f.nearest_root(n), n));
    }
}

/// The standard deviation is that of statistics: where the mean of the counts is `a` and
/// the mean of their squares is larger than the square of `a` by the square of `d`, it is
/// `d`. So it is where half of them are `a - d` and half `a + d`.
pub proof fn law_deviation_is_that_of_statistics(c: Cell, a: nat, d: nat, n: nat)
    requires
        n > 0,
        n <= double_limit(),
        n * a <= double_limit(),
        n * (a * a + d * d) <= double_limit(),
        c.sum == Binary64::nearest_to(n * a),
        c.sumsq == Binary64::nearest_to(n * (a * a + d * d)),
    ensures
        mean_at(c, n) == Binary32::nearest_to(a).bits,
        std_at(c, n) == Binary32::nearest_to(d).bits,
{
    let f = Format::Double;
    let square = a * a + d * d;
    assert(a <= n * a && d <= d * d && square <= n * square && a * a <= square && d * d <= square)
        by (nonlinear_arith)
        requires
            n > 0,
            a >= 0,
            d >= 0,
            square == a * a + d * d,
    ;
    assert(a * a >= 0 && d * d >= 0) by (nonlinear_arith)
        requires
            a >= 0,
            d >= 0,
    ;
    lemma_quotient_of(n, a);
    lemma_quotient_of(n, square);
    lemma_narrowed_integer(a);
    lemma_exact_integer(f, a);
    lemma_product_of_integers(f, a, a);
    lemma_exact_integer(f, a * a);
    lemma_difference(square, a * a);
    assert((square - a * a) as nat == d * d);
    lemma_exact_integer(f, d * d);
    lemma_root_of_square(d);
    lemma_narrowed_integer(d);
}

/// The root of a square.
proof fn lemma_root_of_square(d: nat)
    requires
        d <= double_limit(),
        d * d <= double_limit(),
    ensures
        Binary64::nearest_to(d * d).spec_max(Binary64::zero()).spec_root() == Binary64::nearest_to(
            d,
        ),
{
    let f = Format::Double;
    let p = pow2(1074);
    let m = d * d;
    lemma_pow2_pos(1074);
    lemma_exact_integer(f, m);
    lemma_exact_integer(f, d);
    lemma_units_of_zero(f);
    if d == 0 {
        assert(m == 0) by (nonlinear_arith)
            requires
                m == d * d,
                d == 0,
        ;
        lemma_rounded_zero_over(f, 1);
        assert(0 * p == 0);
    } else {
        assert(m > 0) by (nonlinear_arith)
            requires
                m == d * d,
                d > 0,
        ;
        lemma_exact_integers_ordered(f, 0, m);
        lemma_exact_integers_ordered(f, 0, d);
        let code = f.from_nat(d);
        let n = (m * p) * p;
        lemma_units_increase(f, (code - 1) as nat, code);
        lemma_units_increase(f, code, code + 1);
        let (u, v, w) = (f.units((code - 1) as nat), f.units(code), f.units(code + 1));
        assert((u + v) * (u + v) < 4 * n && 4 * n < (v + w) * (v + w)) by (nonlinear_arith)
            requires
                0 <= u < v,
                v == d * p,
                v < w,
                m == d * d,
                n == (m * p) * p,
                d > 0,
                p > 0,
        ;
        assert(f.is_root(code, n));
        let root = f.nearest_root(n);
        assert(f.is_root(root, n));
        f.lemma_root_unique(root, code, n);
        f.lemma_root_unique(code, root, n);
    }
}

/// The standard deviation of a pixel is a number that is not negative, even where
/// rounding leaves the mean square below the squared mean.
pub proof fn law_deviation_is_a_number(c: Cell, n: nat)
    requires
        c.sum.finite(),
        c.sumsq.finite(),
        0 < n <= double_limit(),
    ensures
        !(Binary32 { bits: std_at(c, n) }).not_a_number(),
        !(Binary32 { bits: std_at(c, n) }).below(Binary32::zero()),
{
    let (f, g) = (Format::Double, Format::Single);
    let count = Binary64::nearest_to(n);
    lemma_finite_quotient(c.sum, n);
    lemma_finite_quotient(c.sumsq, n);
    let mean = c.sum.spec_over(count);
    let m = mean.spec_times(mean);
    let u = f.units(f.code(mean.raw()));
    lemma_pow2_pos(1074);
    crate::round::lemma_rounded_is_nearest(f, u * u, pow2(1074));
    assert(!m.not_a_number());
    let x = c.sumsq.spec_over(count);
    let v = x.spec_minus(m);
    if m.finite() {
        crate::monotone::lemma_rank_of_sum(f, x.raw(), f.negated(m.raw()));
    }
    assert(!v.not_a_number());
    let w = v.spec_max(Binary64::zero());
    lemma_root_is_number(w);
    let r = w.spec_root();
    lemma_pow2_pos(925);
    crate::round::lemma_rounded_is_nearest(g, f.units(f.code(r.raw())), pow2(925));
    crate::round::lemma_rounded_zero_over(g, pow2(925));
    lemma_units_of_zero(f);
}

} // verus!
