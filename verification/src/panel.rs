//! What the panels say: the size of the crop, the progress of loading, and the
//! points of the statistics plot.
use crate::app::CropApp;
use crate::binary::{Binary32, Binary64};
use crate::crop::{ends_with, CropRect};
use crate::display::{
    bytes_text, human_bytes, law_bytes_are_counted_in_thousands, one_decimal, push_one_decimal,
    DisplayMode,
};
use crate::float::{
    lemma_exact_integer, lemma_percent_bound, lemma_product_of_integers, lemma_quotient_of_integers,
    lemma_rounded_scaled,
};
use crate::loader::FolderData;
use crate::round::{lemma_units_increase, Format};
use crate::stats::is_farthest;
use crate::text::{decimal, lemma_decimal, push_decimal, viewed_option};
use vstd::arithmetic::power2::{lemma_pow2_adds, lemma_pow2_pos, pow2};
use vstd::prelude::*;
use vstd::string::*;

verus! {

/// How many of a hundred pixels are kept.
pub open spec fn percent(area: nat, all: nat) -> Binary64 {
    Binary64::hundred().spec_times(Binary64::nearest_to(area)).spec_over(Binary64::nearest_to(all))
}

/// How much of a `w` × `h` image the crop keeps.
pub open spec fn kept(c: CropRect, w: usize, h: usize) -> Seq<char> {
    let p = percent((c.width * c.height) as nat, (w * h) as nat);
    "Keeps "@ + one_decimal(Format::Double.multiple(p.raw(), 10)) + "% of the pixels — "@ + decimal(
        w as nat,
    ) + "×"@ + decimal(h as nat) + " → "@ + decimal(c.width as nat) + "×"@ + decimal(c.height as nat)
}

/// How large the stack of `n` images is, before and after cropping.
pub open spec fn memory(c: CropRect, w: usize, h: usize, n: nat) -> Seq<char> {
    "Stack in memory (f32): "@ + bytes_text((n * (w * h) * 4) as nat) + " → "@ + bytes_text(
        (n * (c.width * c.height) * 4) as nat,
    )
}

/// What is said of the initial crop.
pub open spec fn crop_words(c: CropRect) -> Seq<char> {
    "Initial crop (dashed orange): x="@ + decimal(c.x as nat) + " y="@ + decimal(c.y as nat) + " "@
        + decimal(c.width as nat) + "×"@ + decimal(c.height as nat)
}

/// The place of the slider on image `idx` of `n`.
pub open spec fn slider_words(idx: nat, n: nat) -> Seq<char> {
    decimal(idx + 1) + " / "@ + decimal(n)
}

/// The values that can be plotted, with their positions.
pub open spec fn plotted(values: Seq<Binary64>) -> Seq<(usize, Binary64)>
    decreases values.len(),
{
    if values.len() == 0 {
        Seq::empty()
    } else {
        let earlier = plotted(values.drop_last());
        if values.last().finite() {
            earlier.push(((values.len() - 1) as usize, values.last()))
        } else {
            earlier
        }
    }
}

proof fn lemma_hundred()
    ensures
        Format::Double.units(0x4059_0000_0000_0000) == 100 * pow2(1074),
{
    reveal(Format::units);
    let f = Format::Double;
    assert(0x4059_0000_0000_0000nat / f.unit() == 1029);
    assert(0x4059_0000_0000_0000nat % f.unit() == 0x9_0000_0000_0000);
    lemma_pow2_adds(46, 1028);
    vstd::arithmetic::power2::lemma2_to64_rest();
    assert(0x19_0000_0000_0000nat == 100 * pow2(46));
    assert((100 * pow2(46)) * pow2(1028) == 100 * (pow2(46) * pow2(1028))) by (nonlinear_arith);
}

/// A percentage is a number that can be printed with one decimal.
proof fn lemma_percent(area: nat, all: nat)
    requires
        area <= all,
        1 <= all < 0x1_0000_0000_0000_0000,
    ensures
        percent(area, all).finite(),
        Format::Double.units(Format::Double.code(percent(area, all).raw())) < pow2(1138),
{
    let f = Format::Double;
    lemma_hundred();
    lemma_pow2_pos(1074);
    lemma_percent_bound(0x4059_0000_0000_0000, area, all);
}

proof fn lemma_area(c: CropRect, w: usize, h: usize)
    requires
        c.fits(w as int, h as int),
    ensures
        1 <= c.width * c.height <= w * h,
{
    assert(1 <= c.width * c.height <= w * h) by (nonlinear_arith)
        requires
            1 <= c.width <= w,
            1 <= c.height <= h,
    ;
}

/// How much of a `w` × `h` image the crop keeps.
pub fn kept_text(c: CropRect, w: usize, h: usize) -> (r: String)
    requires
        c.fits(w as int, h as int),
        w * h <= usize::MAX,
    ensures
        r@ == kept(c, w, h),
{
    proof {
        lemma_area(c, w, h);
        lemma_percent((c.width * c.height) as nat, (w * h) as nat);
    }
    let p: Binary64 = Binary64::hundred().times(
        Binary64::from_usize(c.area()),
    ).over(Binary64::from_usize(w * h));
    let mut r: String = "Keeps ".to_owned();
    push_one_decimal(&mut r, p);
    r.append("% of the pixels — ");
    push_decimal(&mut r, w as u128);
    r.append("×");
    push_decimal(&mut r, h as u128);
    r.append(" → ");
    push_decimal(&mut r, c.width as u128);
    r.append("×");
    push_decimal(&mut r, c.height as u128);
    r
}

/// How large the stack of `n` images is, before and after cropping.
pub fn memory_text(c: CropRect, w: usize, h: usize, n: usize) -> (r: String)
    requires
        c.fits(w as int, h as int),
        n * (w * h) * 4 <= usize::MAX,
    ensures
        r@ == memory(c, w, h, n as nat),
{
    if n == 0 {
        proof {
            let (area, all) = (c.width * c.height, w * h);
            assert(n * all * 4 == 0 && n * area * 4 == 0) by (nonlinear_arith)
                requires
                    n == 0,
            ;
        }
        let mut r: String = "Stack in memory (f32): ".to_owned();
        r.append(human_bytes(0).as_str());
        r.append(" → ");
        r.append(human_bytes(0).as_str());
        return r;
    }
    proof {
        lemma_area(c, w, h);
        let (area, all) = (c.width * c.height, w * h);
        assert(all <= n * all && n * area <= n * all && area <= n * area) by (nonlinear_arith)
            requires
                n >= 1,
                1 <= area <= all,
        ;
    }
    let all: usize = w * h;
    let area: usize = c.area();
    let mut r: String = "Stack in memory (f32): ".to_owned();
    r.append(human_bytes(n * all * 4).as_str());
    r.append(" → ");
    r.append(human_bytes(n * area * 4).as_str());
    r
}

/// The values that can be plotted, with their positions.
pub fn finite_points(values: &Vec<Binary64>) -> (r: Vec<(usize, Binary64)>)
    ensures
        r@ == plotted(values@),
{
    let mut r: Vec<(usize, Binary64)> = Vec::new();
    let mut i: usize = 0;
    proof {
        assert(values@.take(0) =~= Seq::<Binary64>::empty());
    }
    while i < values.len()
        invariant
            i <= values@.len(),
            r@ == plotted(values@.take(i as int)),
        decreases values@.len() - i,
    {
        proof {
            assert(values@.take(i + 1).drop_last() =~= values@.take(i as int));
        }
        if values[i].is_finite() {
            r.push((i, values[i]));
        }
        i = i + 1;
    }
    proof {
        assert(values@.take(values@.len() as int) =~= values@);
    }
    r
}

impl crate::screen::Screen {
    /// The image shown after a click at `x` on the plot of `n` images.
    pub open spec fn clicked(self, x: Binary64, n: nat) -> crate::screen::Screen {
        self.on_frame(Format::Double.round_index(x.raw()), n)
    }
}

impl crate::app::LoadJob {
    /// How far loading has come, from nothing to one.
    pub open spec fn fraction(self) -> Binary32 {
        if self.total > 0 {
            Binary32::nearest_to(self.done as nat).spec_over(
                Binary32::nearest_to(self.total as nat),
            )
        } else {
            Binary32::zero()
        }
    }
}

impl CropApp {
    /// The image marked in the plot.
    pub open spec fn marked(self) -> Option<usize> {
        if self.screen.mode == DisplayMode::Single {
            Some(self.screen.player.frame_idx)
        } else {
            None
        }
    }

    /// The slider picks the image on screen.
    pub open spec fn slider_shown(self) -> bool {
        match self.source.data {
            Some(d) => self.screen.mode == DisplayMode::Single && d.frames@.len() > 1,
            None => false,
        }
    }

    /// What is said of the initial crop.
    pub fn initial_text(&self) -> (r: Option<String>)
        ensures
            viewed_option(r) == (match self.editor.initial_crop {
                Some(c) => Some(crop_words(c)),
                None => None,
            }),
    {
        match self.editor.initial_crop {
            Some(c) => {
                let mut r: String = "Initial crop (dashed orange): x=".to_owned();
                push_decimal(&mut r, c.x as u128);
                r.append(" y=");
                push_decimal(&mut r, c.y as u128);
                r.append(" ");
                push_decimal(&mut r, c.width as u128);
                r.append("×");
                push_decimal(&mut r, c.height as u128);
                Some(r)
            },
            None => None,
        }
    }

    /// The image to inspect first, if there are statistics.
    pub fn worst_frame(&self) -> (r: Option<usize>)
        ensures
            match (self.check.stats, r) {
                (Some(s), Some(i)) => is_farthest(s.edge_mean@, i as int),
                (Some(s), None) => forall|i: int|
                    #![trigger s.edge_mean@[i]]
                    0 <= i < s.edge_mean@.len() ==> !s.edge_mean@[i].finite(),
                (None, r) => r is None,
            },
    {
        match &self.check.stats {
            Some(s) => s.most_suspicious_frame(),
            None => None,
        }
    }

    /// The image marked in the plot.
    pub fn marker(&self) -> (r: Option<usize>)
        ensures
            r == self.marked(),
    {
        if self.screen.mode == DisplayMode::Single {
            Some(self.screen.player.frame_idx)
        } else {
            None
        }
    }

    /// The plot was clicked at `x`: show the image there.
    pub fn click_plot(&mut self, x: Binary64)
        requires
            old(self).wf(),
        ensures
            final(self).wf(),
            *final(self) == (match old(self).source.data {
                Some(d) => CropApp {
                    screen: old(self).screen.clicked(x, d.frames@.len()),
                    ..*old(self)
                },
                None => *old(self),
            }),
    {
        self.show_frame(x.round_index());
    }

    /// How far loading has come: the fraction, and what is said of it.
    pub fn progress(&self) -> (r: Option<(Binary32, String)>)
        ensures
            match (self.source.loading, r) {
                (Some(job), Some((fraction, text))) => {
                    &&& fraction == job.fraction()
                    &&& text@ == "⏳ Loading "@ + decimal(job.done as nat) + " / "@ + decimal(
                        job.total as nat,
                    ) + " files"@
                },
                (None, None) => true,
                _ => false,
            },
    {
        match self.source.loading {
            Some(job) => {
                let fraction: Binary32 = if job.total > 0 {
                    Binary32::from_usize(job.done).over(Binary32::from_usize(job.total))
                } else {
                    Binary32::zero()
                };
                let mut text: String = "⏳ Loading ".to_owned();
                push_decimal(&mut text, job.done as u128);
                text.append(" / ");
                push_decimal(&mut text, job.total as u128);
                text.append(" files");
                Some((fraction, text))
            },
            None => None,
        }
    }

    /// Whether the slider picks the image on screen.
    pub fn has_slider(&self) -> (r: bool)
        ensures
            r == self.slider_shown(),
    {
        match &self.source.data {
            Some(d) => self.screen.mode == DisplayMode::Single && d.n_frames() > 1,
            None => false,
        }
    }

    /// The place of the slider.
    pub fn slider_text(&self) -> (r: Option<String>)
        requires
            self.wf(),
        ensures
            viewed_option(r) == (match self.source.data {
                Some(d) => Some(
                    slider_words(self.screen.player.frame_idx as nat, d.frames@.len()),
                ),
                None => None,
            }),
    {
        match &self.source.data {
            Some(d) => {
                let n: usize = d.n_frames();
                let mut r: String = String::new();
                push_decimal(&mut r, self.screen.player.frame_idx as u128 + 1);
                r.append(" / ");
                push_decimal(&mut r, n as u128);
                proof {
                    assert(r@ =~= decimal((self.screen.player.frame_idx + 1) as nat) + " / "@
                        + decimal(n as nat));
                }
                Some(r)
            },
            None => None,
        }
    }

    /// The slider was moved to one of the images.
    pub fn slide_to(&mut self, idx: usize)
        requires
            old(self).wf(),
            old(self).source.data matches Some(d) ==> idx < d.frames@.len(),
        ensures
            final(self).wf(),
            *final(self) == (CropApp { screen: old(self).screen.slid_to(idx), ..*old(self) }),
    {
        self.screen.slide_to(idx);
    }
}

// ----- laws --------------------------------------------------------------------------

/// Every point of the plot is a finite value at its position, in order.
pub proof fn law_plotted_points_are_values(values: Seq<Binary64>, k: int)
    requires
        0 <= k < plotted(values).len(),
        values.len() <= usize::MAX + 1,
    ensures
        plotted(values)[k].0 < values.len(),
        plotted(values)[k].1 == values[plotted(values)[k].0 as int],
        plotted(values)[k].1.finite(),
        k > 0 ==> plotted(values)[k - 1].0 < plotted(values)[k].0,
    decreases values.len(),
{
    let earlier = values.drop_last();
    if k < plotted(earlier).len() {
        law_plotted_points_are_values(earlier, k);
        assert(values[plotted(earlier)[k].0 as int] == earlier[plotted(earlier)[k].0 as int]);
    } else if k > 0 {
        law_plotted_points_are_values(earlier, k - 1);
    }
}

/// A crop of the whole image keeps all of the pixels, as long as a hundred times
/// their number can be counted exactly.
pub proof fn law_full_crop_keeps_everything(w: usize, h: usize)
    requires
        0 < w * h,
        100 * (w * h) <= 0x20_0000_0000_0000,
    ensures
        percent((w * h) as nat, (w * h) as nat) == Binary64::hundred(),
{
    let f = Format::Double;
    let n = (w * h) as nat;
    let p = pow2(1074);
    lemma_hundred();
    lemma_exact_integer(f, 100);
    lemma_same_value(f, 0x4059_0000_0000_0000, f.from_nat(100));
    lemma_product_of_integers(f, 100, n);
    lemma_quotient_of_integers(f, 100 * n, n);
    assert((100 * n) * p == (100 * p) * n) by (nonlinear_arith);
    lemma_rounded_scaled(f, 100 * p, 1, n);
    assert(1 * n == n);
}

/// Two finite magnitudes of the same value are the same.
proof fn lemma_same_value(f: Format, a: nat, b: nat)
    requires
        f.units(a) == f.units(b),
    ensures
        a == b,
{
    if a < b {
        lemma_units_increase(f, a, b);
    } else if b < a {
        lemma_units_increase(f, b, a);
    }
}

/// Every finite value is plotted.
pub proof fn law_every_finite_value_is_plotted(values: Seq<Binary64>, i: int)
    requires
        0 <= i < values.len() <= usize::MAX + 1,
        values[i].finite(),
    ensures
        plotted(values).contains((i as usize, values[i])),
    decreases values.len(),
{
    let earlier = values.drop_last();
    if i < earlier.len() {
        law_every_finite_value_is_plotted(earlier, i);
        let k = choose|k: int|
            0 <= k < plotted(earlier).len() && plotted(earlier)[k] == (i as usize, earlier[i]);
        assert(plotted(values)[k] == (i as usize, values[i]));
    } else {
        assert(plotted(values).last() == (i as usize, values[i]));
    }
}

/// A click on the plot shows the image whose place is nearest: `k`, where the click is
/// less than half a place away from it; the first one left of the plot, the last one
/// right of it. That image is then marked.
pub proof fn law_click_shows_the_nearest_image(app: CropApp, x: Binary64, k: int, n: nat)
    requires
        x.finite(),
        0 <= k < n <= usize::MAX,
    ensures
        ({
            let (f, p) = (Format::Double, pow2(1074));
            let s = app.screen.clicked(x, n);
            let v = f.value(x.raw());
            &&& s.mode == DisplayMode::Single && !s.is_playing()
            &&& 2 * (k * p) - p < 2 * v < 2 * (k * p) + p ==> s.player.frame_idx == k
            &&& v < 0 ==> s.player.frame_idx == 0
            &&& v >= n * p ==> s.player.frame_idx == n - 1
            &&& (CropApp { screen: s, ..app }).marked() == Some(s.player.frame_idx)
        }),
{
    let (f, p) = (Format::Double, pow2(1074));
    lemma_pow2_pos(1074);
    vstd::arithmetic::power2::lemma_pow2_unfold(1075);
    let v = f.value(x.raw());
    if 2 * (k * p) - p < 2 * v < 2 * (k * p) + p {
        if f.negative(x.raw()) {
            assert(k == 0) by (nonlinear_arith)
                requires
                    2 * (k * p) - p < 0,
                    k >= 0,
                    p > 0,
            ;
        } else {
            assert((2 * p) * k == 2 * (k * p)) by (nonlinear_arith);
            vstd::arithmetic::div_mod::lemma_fundamental_div_mod_converse(
                2 * v + p,
                (2 * p) as int,
                k,
                2 * v + p - (2 * p) * k,
            );
        }
    }
    if v >= n * p {
        assert(n * p >= 0) by (nonlinear_arith)
            requires
                n >= 0,
                p > 0,
        ;
        crate::round::lemma_units_of_zero(f);
        assert(n * p > 0) by (nonlinear_arith)
            requires
                n > 0,
                p > 0,
        ;
        assert((2 * p) * n == 2 * (n * p)) by (nonlinear_arith);
        vstd::arithmetic::div_mod::lemma_div_is_ordered(
            ((2 * p) * n) as int,
            2 * v + p,
            (2 * p) as int,
        );
        vstd::arithmetic::div_mod::lemma_div_multiples_vanish(n as int, (2 * p) as int);
    }
}

/// Only a stack of several images, shown one at a time, has a slider.
pub proof fn law_slider_is_for_several_images(app: CropApp)
    ensures
        app.slider_shown() ==> app.screen.mode == DisplayMode::Single && app.source.data is Some,
        app.source.data matches Some(d) ==> {
            &&& d.frames@.len() <= 1 ==> !app.slider_shown()
            &&& d.frames@.len() > 1 && app.screen.mode == DisplayMode::Single ==> app.slider_shown()
        },
        app.slider_shown() ==> app.marked() is Some,
{
}

/// The image that is marked in the plot is the one that is shown, and none is marked while
/// something else is shown.
pub proof fn law_marked_image_is_shown(app: CropApp, data: FolderData)
    requires
        app.screen.player.frame_idx < data.frames@.len(),
    ensures
        app.marked() matches Some(i) ==> app.screen.shown(data) == data.frames@[i as int],
        app.screen.mode == DisplayMode::Single <==> app.marked() is Some,
{
}

/// Loading starts at nothing and ends at one; in between, the fraction is the exact one,
/// rounded once.
pub proof fn law_loading_runs_from_nothing_to_one(job: crate::app::LoadJob)
    requires
        job.done <= job.total <= 0x100_0000,
    ensures
        job.total == 0 || job.done == 0 ==> job.fraction() == Binary32::zero(),
        job.total > 0 && job.done == job.total ==> job.fraction() == Binary32::one(),
        job.total > 0 ==> job.fraction().raw() == Format::Single.rounded(
            job.done as nat * pow2(149),
            job.total as nat,
        ),
{
    let f = Format::Single;
    let (a, b) = (job.done as nat, job.total as nat);
    let p = pow2(149);
    if b > 0 {
        lemma_exact_integer(f, a);
        lemma_exact_integer(f, b);
        lemma_quotient_of_integers(f, a, b);
        crate::round::lemma_rounded_is_nearest(f, a * p, b);
        crate::round::lemma_rounded_zero_over(f, b);
        assert(0 * p == 0);
        if a == b {
            assert(a * p == p * a && 1 * a == a) by (nonlinear_arith);
            lemma_rounded_scaled(f, p, 1, a);
            crate::integers::lemma_zero_and_one();
            assert(1 * p == p);
        }
    }
}

/// How many of a hundred pixels a crop keeps is the exact percentage, rounded once.
pub proof fn law_percentage_is_nearest(area: nat, all: nat)
    requires
        0 < all,
        100 * area <= 0x20_0000_0000_0000,
        all <= 0x20_0000_0000_0000,
    ensures
        percent(area, all).raw() == Format::Double.rounded((100 * area) * pow2(1074), all),
{
    let f = Format::Double;
    lemma_hundred();
    lemma_exact_integer(f, 100);
    lemma_same_value(f, 0x4059_0000_0000_0000, f.from_nat(100));
    lemma_product_of_integers(f, 100, area);
    lemma_exact_integer(f, 100 * area);
    lemma_exact_integer(f, area);
    lemma_exact_integer(f, all);
    lemma_quotient_of_integers(f, 100 * area, all);
    crate::round::lemma_rounded_is_nearest(f, (100 * area) * pow2(1074), all);
}

/// Of the initial crop its left and top edge are said first, by their names, and then its
/// width and height.
pub proof fn law_words_name_the_numbers(c: CropRect)
    ensures
        ({
            let head = "Initial crop (dashed orange): x="@ + decimal(c.x as nat) + " y="@ + decimal(
                c.y as nat,
            );
            crop_words(c).len() > head.len() && crop_words(c).take(head.len() as int) == head
        }),
        ends_with(crop_words(c), decimal(c.width as nat) + "×"@ + decimal(c.height as nat)),
{
    let head = "Initial crop (dashed orange): x="@ + decimal(c.x as nat) + " y="@ + decimal(
        c.y as nat,
    );
    let end = decimal(c.width as nat) + "×"@ + decimal(c.height as nat);
    let words = crop_words(c);
    lemma_decimal(c.width as nat);
    assert(words =~= head + (" "@ + end));
    assert(words.take(head.len() as int) =~= head);
    assert(words.skip(words.len() - end.len()) =~= end);
}

/// The slider says the number of the image, counted from one, and then how many there
/// are.
pub proof fn law_slider_says_which_of_how_many(idx: nat, n: nat)
    ensures
        slider_words(idx, n).len() > decimal(idx + 1).len(),
        slider_words(idx, n).take(decimal(idx + 1).len() as int) == decimal(idx + 1),
        ends_with(slider_words(idx, n), decimal(n)),
{
    let (words, a, b) = (slider_words(idx, n), decimal(idx + 1), decimal(n));
    lemma_decimal(n);
    assert(words.take(a.len() as int) =~= a);
    assert(words.skip(words.len() - b.len()) =~= b);
}

/// A pixel takes four bytes in memory: the size of the whole stack is said first, then
/// that of the cropped one.
pub proof fn law_pixel_takes_four_bytes(c: CropRect, w: usize, h: usize, n: nat)
    ensures
        ({
            let (all, area) = (n * (w * h), n * (c.width * c.height));
            let words = memory(c, w, h, n);
            let start = "Stack in memory (f32): "@;
            let small = start + (decimal((4 * all) as nat) + ".0"@ + " B"@);
            let large = start + (decimal((all / 250_000) as nat) + ".0"@ + " MB"@);
            &&& all < 250 ==> words.len() > small.len() && words.take(small.len() as int) == small
            &&& all % 250_000 == 0 && 0 < all / 250_000 < 1000 ==> words.len() > large.len()
                && words.take(large.len() as int) == large
            &&& area < 250 ==> ends_with(
                words,
                " → "@ + (decimal((4 * area) as nat) + ".0"@ + " B"@),
            )
            &&& area % 250_000 == 0 && 0 < area / 250_000 < 1000 ==> ends_with(
                words,
                " → "@ + (decimal((area / 250_000) as nat) + ".0"@ + " MB"@),
            )
        }),
{
    let (all, area) = (n * (w * h), n * (c.width * c.height));
    assert(all >= 0) by (nonlinear_arith)
        requires
            all == n * (w * h),
            n >= 0,
            w >= 0,
            h >= 0,
    ;
    assert(area >= 0) by (nonlinear_arith)
        requires
            area == n * (c.width * c.height),
            n >= 0,
            c.width >= 0,
            c.height >= 0,
    ;
    let words = memory(c, w, h, n);
    let start = "Stack in memory (f32): "@;
    let (a, b) = (bytes_text((all * 4) as nat), bytes_text((area * 4) as nat));
    reveal_strlit(" → ");
    assert(words =~= (start + a) + (" → "@ + b));
    assert(words.take((start + a).len() as int) =~= start + a);
    assert(words.skip(words.len() - (" → "@ + b).len()) =~= " → "@ + b);
    lemma_bytes_of(all as nat);
    lemma_bytes_of(area as nat);
}

proof fn lemma_bytes_of(pixels: nat)
    ensures
        pixels < 250 ==> bytes_text(pixels * 4) == decimal(4 * pixels) + ".0"@ + " B"@,
        pixels % 250_000 == 0 && 0 < pixels / 250_000 < 1000 ==> bytes_text(pixels * 4) == decimal(
            pixels / 250_000,
        ) + ".0"@ + " MB"@,
{
    if pixels < 250 {
        law_bytes_are_counted_in_thousands(4 * pixels);
    } else if pixels / 250_000 < 1000 {
        law_bytes_are_counted_in_thousands(pixels / 250_000);
    }
}

/// Of the pixels that are kept, the size of the image is said first, then that of the
/// crop, each with the width before the height.
pub proof fn law_kept_size_comes_last(c: CropRect, w: usize, h: usize)
    ensures
        ends_with(
            kept(c, w, h),
            decimal(w as nat) + "×"@ + decimal(h as nat) + " → "@ + decimal(c.width as nat) + "×"@
                + decimal(c.height as nat),
        ),
{
    let end = decimal(w as nat) + "×"@ + decimal(h as nat) + " → "@ + decimal(c.width as nat) + "×"@
        + decimal(c.height as nat);
    let words = kept(c, w, h);
    let p = percent((c.width * c.height) as nat, (w * h) as nat);
    let head = "Keeps "@ + one_decimal(Format::Double.multiple(p.raw(), 10))
        + "% of the pixels — "@;
    assert(words =~= head + end);
    assert(words.skip(words.len() - end.len()) =~= end);
}

} // verus!
