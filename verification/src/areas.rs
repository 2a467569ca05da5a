//! Counts summed over parts of an image, and what the crop statistics are in terms of
//! them: every mean is the exact mean of the pixels that it is about, rounded once.
use crate::binary::{Binary32, Binary64};
use crate::counts::{
    are_counts, double_limit, law_sum_of_counts_is_exact, lemma_difference, lemma_total_of_equal,
    single_limit, total,
};
use crate::crop::CropRect;
use crate::float::{lemma_exact_integer, lemma_quotient_of_integers};
use crate::frame::{lemma_cell, sum_of, Frame, Image};
use crate::loader::{images, totals_of};
use crate::round::Format;
use crate::stats::{band_area, inner_region, lemma_areas, stats_are, CropStats};
use vstd::arithmetic::power2::pow2;
use vstd::prelude::*;

verus! {

/// The counts of an image of `cols` columns at the pixels `(x, y)` of some part of it,
/// and nothing elsewhere.
pub open spec fn picked(counts: Seq<nat>, cols: nat, part: spec_fn(int, int) -> bool) -> Seq<nat> {
    Seq::new(
        counts.len(),
        |k: int|
            if part(k % (cols as int), k / (cols as int)) {
                counts[k]
            } else {
                0
            },
    )
}

/// One for every pixel.
pub open spec fn ones(n: nat) -> Seq<nat> {
    Seq::new(n, |k: int| 1)
}

/// The sum of the counts in a part of an image.
pub open spec fn part_sum(counts: Seq<nat>, cols: nat, part: spec_fn(int, int) -> bool) -> nat {
    total(picked(counts, cols, part))
}

/// The number of pixels of a part of an image of `n` pixels.
pub open spec fn part_size(n: nat, cols: nat, part: spec_fn(int, int) -> bool) -> nat {
    total(picked(ones(n), cols, part))
}

/// The exact mean of the counts in a part of an image, rounded once: the code of the
/// nearest double precision number.
pub open spec fn part_mean(counts: Seq<nat>, cols: nat, part: spec_fn(int, int) -> bool) -> nat {
    Format::Double.rounded(
        part_sum(counts, cols, part) * pow2(1074),
        part_size(counts.len(), cols, part),
    )
}

// ----- sums ------------------------------------------------------------------------------

proof fn lemma_total_joined(a: Seq<nat>, b: Seq<nat>)
    ensures
        total(a + b) == total(a) + total(b),
    decreases b.len(),
{
    if b.len() == 0 {
        assert(a + b =~= a);
    } else {
        lemma_total_joined(a, b.drop_last());
        assert((a + b).drop_last() =~= a + b.drop_last());
        assert((a + b).last() == b.last());
    }
}

proof fn lemma_total_of_nothing(s: Seq<nat>)
    requires
        forall|k: int| 0 <= k < s.len() ==> #[trigger] s[k] == 0,
    ensures
        total(s) == 0,
    decreases s.len(),
{
    if s.len() > 0 {
        lemma_total_of_nothing(s.drop_last());
        assert(s[s.len() - 1] == 0);
    }
}

proof fn lemma_total_by_parts(a: Seq<nat>, b: Seq<nat>, c: Seq<nat>)
    requires
        a.len() == c.len(),
        b.len() == c.len(),
        forall|k: int| 0 <= k < c.len() ==> #[trigger] c[k] == a[k] + b[k],
    ensures
        total(c) == total(a) + total(b),
    decreases c.len(),
{
    if c.len() > 0 {
        let (x, y, z) = (a.drop_last(), b.drop_last(), c.drop_last());
        assert forall|k: int| 0 <= k < z.len() implies #[trigger] z[k] == x[k] + y[k] by {
            assert(c[k] == a[k] + b[k]);
        }
        lemma_total_by_parts(x, y, z);
        assert(c[c.len() - 1] == a[c.len() - 1] + b[c.len() - 1]);
    }
}

/// The counts of a region, row by row.
spec fn region_counts(counts: Seq<nat>, cols: nat, r: CropRect) -> Seq<nat> {
    Seq::new(
        (r.width * r.height) as nat,
        |k: int| counts[(r.y + k / (r.width as int)) * cols + r.x + k % (r.width as int)],
    )
}

/// How many rows of the region lie above row `y` of the image.
spec fn rows_above(r: CropRect, y: int) -> int {
    if y < r.y {
        0
    } else if y > r.y + r.height {
        r.height as int
    } else {
        y - r.y
    }
}

/// The counts of one row of the image that lie in the region.
proof fn lemma_row(counts: Seq<nat>, cols: nat, rows: nat, r: CropRect, y: int)
    requires
        counts.len() == rows * cols,
        r.fits(cols as int, rows as int),
        0 <= y < rows,
    ensures
        ({
            let m = picked(counts, cols, |px: int, py: int| r.has(px, py));
            let s = region_counts(counts, cols, r);
            let (j, w) = (rows_above(r, y), r.width as int);
            &&& 0 <= y * cols <= (y + 1) * cols <= m.len()
            &&& 0 <= j * w <= rows_above(r, y + 1) * w <= s.len()
            &&& total(m.subrange(y * cols, (y + 1) * cols)) == total(
                s.subrange(j * w, rows_above(r, y + 1) * w),
            )
        }),
{
    let part = |px: int, py: int| r.has(px, py);
    let m = picked(counts, cols, part);
    let s = region_counts(counts, cols, r);
    let (j, w, h, c) = (rows_above(r, y), r.width as int, r.height as int, cols as int);
    assert(0 <= y * c <= (y + 1) * c <= rows * c && (y + 1) * c == y * c + c) by (nonlinear_arith)
        requires
            0 <= y < rows,
            c >= 0,
    ;
    assert(0 <= j * w <= h * w && (j < h ==> (j + 1) * w <= h * w && (j + 1) * w == j * w + w))
        by (nonlinear_arith)
        requires
            0 <= j <= h,
            w > 0,
    ;
    assert(w * h == h * w) by (nonlinear_arith);
    let row = m.subrange(y * c, (y + 1) * c);
    assert forall|k: int| 0 <= k < c implies #[trigger] row[k] == (if r.has(k, y) {
        counts[y * c + k]
    } else {
        0
    }) by {
        lemma_cell(y, k, c, rows as int);
        assert(c * rows == rows * c) by (nonlinear_arith);
    }
    if r.y <= y < r.y + r.height {
        let (before, after) = (Seq::new(r.x as nat, |k: int| 0nat), Seq::new(
            (c - r.x - w) as nat,
            |k: int| 0nat,
        ));
        let mid = s.subrange(j * w, (j + 1) * w);
        assert forall|k: int| 0 <= k < w implies #[trigger] mid[k] == counts[y * c + r.x + k] by {
            lemma_cell(j, k, w, h);
            assert((r.y + j) * c == y * c);
        }
        assert(row =~= before + mid + after) by {
            assert forall|k: int| 0 <= k < c implies #[trigger] row[k] == (before + mid + after)[k] by {
                if r.x <= k < r.x + w {
                    assert(mid[k - r.x] == counts[y * c + r.x + (k - r.x)]);
                }
            }
        }
        lemma_total_joined(before + mid, after);
        lemma_total_joined(before, mid);
        lemma_total_of_nothing(before);
        lemma_total_of_nothing(after);
    } else {
        lemma_total_of_nothing(row);
        assert(s.subrange(j * w, j * w) =~= Seq::<nat>::empty());
    }
}

/// The counts of the first rows of the image that lie in the region.
proof fn lemma_rows(counts: Seq<nat>, cols: nat, rows: nat, r: CropRect, y: int)
    requires
        counts.len() == rows * cols,
        r.fits(cols as int, rows as int),
        0 <= y <= rows,
    ensures
        ({
            let m = picked(counts, cols, |px: int, py: int| r.has(px, py));
            let s = region_counts(counts, cols, r);
            &&& 0 <= y * cols <= m.len()
            &&& 0 <= rows_above(r, y) * r.width <= s.len()
            &&& total(m.take(y * cols)) == total(s.take(rows_above(r, y) * r.width))
        }),
    decreases y,
{
    let m = picked(counts, cols, |px: int, py: int| r.has(px, py));
    let s = region_counts(counts, cols, r);
    let w = r.width as int;
    if y == 0 {
        assert(0 * cols == 0);
        assert(0 * w == 0);
        assert(m.take(0) =~= s.take(0));
    } else {
        lemma_rows(counts, cols, rows, r, y - 1);
        lemma_row(counts, cols, rows, r, y - 1);
        let (a, b) = ((y - 1) * cols, y * cols);
        let (c, d) = (rows_above(r, y - 1) * w, rows_above(r, y) * w);
        lemma_total_joined(m.take(a), m.subrange(a, b));
        assert(m.take(a) + m.subrange(a, b) =~= m.take(b));
        lemma_total_joined(s.take(c), s.subrange(c, d));
        assert(s.take(c) + s.subrange(c, d) =~= s.take(d));
    }
}

/// The sum over a region is the sum over the pixels in it.
proof fn lemma_region_sum(counts: Seq<nat>, cols: nat, rows: nat, r: CropRect)
    requires
        counts.len() == rows * cols,
        r.fits(cols as int, rows as int),
    ensures
        total(region_counts(counts, cols, r)) == part_sum(
            counts,
            cols,
            |px: int, py: int| r.has(px, py),
        ),
{
    let m = picked(counts, cols, |px: int, py: int| r.has(px, py));
    let s = region_counts(counts, cols, r);
    lemma_rows(counts, cols, rows, r, rows as int);
    assert(r.height * r.width == r.width * r.height) by (nonlinear_arith);
    assert(m.take((rows * cols) as int) =~= m);
    assert(s.take(r.height * r.width) =~= s);
}

/// A region has as many pixels as its sides say.
proof fn lemma_region_size(cols: nat, rows: nat, r: CropRect)
    requires
        r.fits(cols as int, rows as int),
    ensures
        part_size(rows * cols, cols, |px: int, py: int| r.has(px, py)) == r.width * r.height,
{
    let all = ones(rows * cols);
    lemma_region_sum(all, cols, rows, r);
    let n = (r.width * r.height) as nat;
    let s = region_counts(all, cols, r);
    let (w, h, c) = (r.width as int, r.height as int, cols as int);
    assert(s =~= Seq::new(n, |k: int| 1nat)) by {
        assert forall|k: int| 0 <= k < n implies #[trigger] s[k] == 1 by {
            let (y, x) = (k / w, k % w);
            vstd::arithmetic::div_mod::lemma_fundamental_div_mod(k, w);
            assert(0 <= y < h) by (nonlinear_arith)
                requires
                    0 <= k < w * h,
                    k == w * y + x,
                    0 <= x < w,
            ;
            lemma_cell(r.y + y, r.x + x, c, rows as int);
            assert(c * rows == rows * c) by (nonlinear_arith);
        }
    }
    lemma_total_of_equal(n, 1);
    assert(n * 1 == n);
}

/// The part that is left when one part is taken away from another that it lies in.
proof fn lemma_rest(
    counts: Seq<nat>,
    cols: nat,
    all: spec_fn(int, int) -> bool,
    one: spec_fn(int, int) -> bool,
    rest: spec_fn(int, int) -> bool,
)
    requires
        forall|x: int, y: int|
            #![trigger all(x, y)]
            all(x, y) <==> one(x, y) || rest(x, y),
        forall|x: int, y: int| #![trigger all(x, y)] !(one(x, y) && rest(x, y)),
    ensures
        part_sum(counts, cols, all) == part_sum(counts, cols, one) + part_sum(counts, cols, rest),
        part_size(counts.len(), cols, all) == part_size(counts.len(), cols, one) + part_size(
            counts.len(),
            cols,
            rest,
        ),
{
    let n = counts.len();
    assert forall|k: int| 0 <= k < n implies #[trigger] picked(counts, cols, all)[k] == picked(
        counts,
        cols,
        one,
    )[k] + picked(counts, cols, rest)[k] by {
        let b = all(k % (cols as int), k / (cols as int));
    }
    lemma_total_by_parts(
        picked(counts, cols, one),
        picked(counts, cols, rest),
        picked(counts, cols, all),
    );
    let o = ones(n);
    assert forall|k: int| 0 <= k < n implies #[trigger] picked(o, cols, all)[k] == picked(
        o,
        cols,
        one,
    )[k] + picked(o, cols, rest)[k] by {
        let b = all(k % (cols as int), k / (cols as int));
    }
    lemma_total_by_parts(picked(o, cols, one), picked(o, cols, rest), picked(o, cols, all));
}

/// The sum over everything.
proof fn lemma_everything(counts: Seq<nat>, cols: nat)
    ensures
        part_sum(counts, cols, |x: int, y: int| true) == total(counts),
        part_size(counts.len(), cols, |x: int, y: int| true) == counts.len(),
{
    assert(picked(counts, cols, |x: int, y: int| true) =~= counts);
    let n = counts.len();
    assert(picked(ones(n), cols, |x: int, y: int| true) =~= Seq::new(n, |k: int| 1nat));
    lemma_total_of_equal(n, 1);
    assert(n * 1 == n);
}

/// The sum of the pixels of a region of counts.
proof fn lemma_region_of_counts(image: Image, counts: Seq<nat>, r: CropRect)
    requires
        image.wf(),
        r.fits(image.cols as int, image.rows as int),
        are_counts(image.pixels, counts),
        total(counts) <= double_limit(),
    ensures
        ({
            let sum = part_sum(counts, image.cols, |px: int, py: int| r.has(px, py));
            sum <= total(counts) && sum_of(image.region(r)) == Binary64::nearest_to(sum)
        }),
{
    let s = region_counts(counts, image.cols, r);
    let v = image.region(r);
    let (w, h, c) = (r.width as int, r.height as int, image.cols as int);
    let (inside, outside) = (
        |px: int, py: int| r.has(px, py),
        |px: int, py: int| !r.has(px, py),
    );
    lemma_region_sum(counts, image.cols, image.rows, r);
    lemma_rest(counts, image.cols, |px: int, py: int| true, inside, outside);
    lemma_everything(counts, image.cols);
    assert forall|k: int|
        #![trigger v[k]]
        #![trigger s[k]]
        0 <= k < v.len() implies s[k] <= single_limit() && v[k] == Binary32::nearest_to(s[k]).bits by {
        let (y, x) = (k / w, k % w);
        vstd::arithmetic::div_mod::lemma_fundamental_div_mod(k, w);
        assert(0 <= y < h) by (nonlinear_arith)
            requires
                0 <= k < w * h,
                k == w * y + x,
                0 <= x < w,
        ;
        lemma_cell(r.y + y, r.x + x, c, image.rows as int);
        assert(c * image.rows == image.rows * c) by (nonlinear_arith);
        let place = (r.y + y) * c + r.x + x;
        assert(image.pixels[place] == Binary32::nearest_to(counts[place]).bits);
    }
    assert(w * h > 0) by (nonlinear_arith)
        requires
            w > 0,
            h > 0,
    ;
    law_sum_of_counts_is_exact(v, s);
}

/// A sum of counts, divided by a number of pixels.
proof fn lemma_mean(sum: nat, n: nat)
    requires
        sum <= double_limit(),
        0 < n <= double_limit(),
    ensures
        Binary64::nearest_to(sum).spec_over(Binary64::nearest_to(n)).raw() == Format::Double.rounded(
            sum * pow2(1074),
            n,
        ),
{
    let f = Format::Double;
    lemma_exact_integer(f, sum);
    lemma_exact_integer(f, n);
    lemma_quotient_of_integers(f, sum, n);
    crate::round::lemma_rounded_is_nearest(f, sum * pow2(1074), n);
}

/// A pixel of the crop that is less than `band` pixels away from its edge.
pub open spec fn in_band(crop: CropRect, band: nat, x: int, y: int) -> bool {
    crop.has(x, y) && (x < crop.x + band || x >= crop.x + crop.width - band || y < crop.y + band
        || y >= crop.y + crop.height - band)
}

// ----- laws ------------------------------------------------------------------------------

/// The statistics of every image of a stack of counts are about that image: its mean
/// inside the crop is the exact mean of its pixels inside, rounded once, its mean
/// outside that of its pixels outside, and its mean in the edge band that of its pixels
/// that are less than `band` pixels away from the edge of the crop.
pub proof fn law_means_are_those_of_the_image(
    s: CropStats,
    frames: Seq<Frame>,
    crop: CropRect,
    band: usize,
    i: int,
    counts: Seq<nat>,
)
    requires
        stats_are(s, frames, totals_of(images(frames)), crop, band, frames.len() as int),
        0 <= i < frames.len(),
        frames[i]@.wf(),
        frames[i]@.pixels.len() == frames[0]@.pixels.len(),
        frames[i]@.pixels.len() <= double_limit(),
        crop.fits(frames[i]@.cols as int, frames[i]@.rows as int),
        crop.bounded(),
        are_counts(frames[i]@.pixels, counts),
        total(counts) <= double_limit(),
    ensures
        ({
            let cols = frames[i]@.cols;
            let inside = |x: int, y: int| crop.has(x, y);
            let outside = |x: int, y: int| !crop.has(x, y);
            let edge = |x: int, y: int| in_band(crop, band as nat, x, y);
            &&& s.inside_mean@[i].raw() == part_mean(counts, cols, inside)
            &&& part_size(counts.len(), cols, outside) > 0 ==> s.outside_mean@[i].raw()
                == part_mean(counts, cols, outside)
            &&& part_size(counts.len(), cols, outside) == 0 ==> s.outside_mean@[i].not_a_number()
            &&& band > 0 ==> s.edge_mean@[i].raw() == part_mean(counts, cols, edge)
            &&& part_sum(counts, cols, inside) + part_sum(counts, cols, outside) == total(counts)
            &&& part_size(counts.len(), cols, inside) + part_size(counts.len(), cols, outside)
                == counts.len()
        }),
{
    let image = frames[i]@;
    let (cols, rows) = (image.cols, image.rows);
    let n = counts.len();
    let inside = |x: int, y: int| crop.has(x, y);
    let outside = |x: int, y: int| !crop.has(x, y);
    let edge = |x: int, y: int| in_band(crop, band as nat, x, y);
    assert(images(frames)[i] == image);
    assert(totals_of(images(frames))[i] == sum_of(image.pixels));
    lemma_areas(crop, band as nat, cols, rows);
    assert(cols * rows == rows * cols) by (nonlinear_arith);
    assert(crop.width * crop.height > 0) by (nonlinear_arith)
        requires
            crop.width > 0,
            crop.height > 0,
    ;
    lemma_rest(counts, cols, |x: int, y: int| true, inside, outside);
    lemma_everything(counts, cols);
    lemma_region_size(cols, rows, crop);
    lemma_region_of_counts(image, counts, crop);
    let (a, b) = (part_sum(counts, cols, inside), part_sum(counts, cols, outside));
    let (m, k) = (part_size(n, cols, inside), part_size(n, cols, outside));
    lemma_mean(a, m);
    law_sum_of_counts_is_exact(image.pixels, counts);
    lemma_difference(total(counts), a);
    if k > 0 {
        lemma_mean(b, k);
    }
    match inner_region(crop, band as nat) {
        Some(inner) => {
            let core = |x: int, y: int| inner.has(x, y);
            lemma_rest(counts, cols, inside, core, edge);
            lemma_region_size(cols, rows, inner);
            lemma_region_of_counts(image, counts, inner);
            lemma_difference(a, part_sum(counts, cols, core));
        },
        None => {
            assert(picked(counts, cols, inside) =~= picked(counts, cols, edge));
            assert(picked(ones(n), cols, inside) =~= picked(ones(n), cols, edge));
        },
    }
    if band > 0 {
        assert(part_size(n, cols, edge) == band_area(crop, band as nat));
        lemma_mean(part_sum(counts, cols, edge), part_size(n, cols, edge));
    }
}

/// The statistics of an image do not depend on the other images of the stack: of two
/// stacks that have the same image at place `i`, the statistics agree there.
pub proof fn law_statistics_depend_on_their_image(
    s: CropStats,
    t: CropStats,
    frames: Seq<Frame>,
    others: Seq<Frame>,
    totals: Seq<Binary64>,
    sums: Seq<Binary64>,
    crop: CropRect,
    band: usize,
    i: int,
)
    requires
        stats_are(s, frames, totals, crop, band, frames.len() as int),
        stats_are(t, others, sums, crop, band, others.len() as int),
        0 <= i < frames.len(),
        i < others.len(),
        frames[i]@ == others[i]@,
        totals[i] == sums[i],
        frames[0]@.pixels.len() == others[0]@.pixels.len(),
    ensures
        s.inside_mean@[i] == t.inside_mean@[i],
        s.outside_mean@[i] == t.outside_mean@[i],
        s.edge_mean@[i] == t.edge_mean@[i],
        s.band == band,
{
}

} // verus!
