//! What is on the screen: display mode, contrast, zoom, playing through the
//! stack, and the value under the mouse.
use crate::binary::Binary32;
use crate::counts::{
    double_limit, law_accumulated_counts_are_exact, law_constant_pixel_has_no_deviation,
    law_shown_mean_lies_between, law_shown_sum_is_nearest, lemma_total_of_equal, single_limit,
    squares, total,
};
use crate::display::{DisplayMode, Span};
use crate::float::{
    lemma_round_of_integer, lemma_rounded_at_least, lemma_rounded_at_most, lemma_rounded_scaled,
};
use crate::frame::{lemma_cell, Frame, Image};
use crate::handles::Point;
use crate::integers::{
    is_fraction, is_small, lemma_whole, lemma_whole_code, lemma_whole_difference,
    lemma_whole_floor, lemma_whole_fraction, lemma_whole_order, lemma_whole_product,
    lemma_whole_quotient, lemma_whole_ratio, lemma_whole_sum, lemma_zero_and_one,
    lemma_zero_difference, lemma_zero_quotient, whole,
};
use crate::loader::{images, mean_at, std_at, sum_at, FolderData};
use crate::monotone::{
    lemma_difference_keeps_order, lemma_divided_by_itself, lemma_index_keeps_order,
    lemma_product_keeps_order, lemma_quotient_keeps_order, lemma_rank_of_sum,
    lemma_rounded_double, lemma_single_codes,
};
use crate::project::{
    accumulated, law_projections_are_extremes, lemma_settled_accumulation, pixel_values,
    settled_images,
};
use crate::round::Format;
use vstd::arithmetic::power2::{lemma_pow2_adds, lemma_pow2_pos, lemma_pow2_unfold, pow2};
use vstd::prelude::*;

verus! {

/// The full range of the values on screen, and the limits in use.
#[derive(Clone, Copy, PartialEq, Eq, Structural, Debug)]
pub struct Contrast {
    pub data_min: Binary32,
    pub data_max: Binary32,
    pub vmin: Binary32,
    pub vmax: Binary32,
}

impl Contrast {
    /// The limits at the ends of a range.
    pub open spec fn full(s: Span) -> Contrast {
        Contrast { data_min: s.lo, data_max: s.hi, vmin: s.lo, vmax: s.hi }
    }
}

/// The image picked with the slider, and whether the stack is playing.
#[derive(Clone, Copy, PartialEq, Eq, Structural, Debug)]
pub struct Player {
    /// Image shown by the slider in single-image mode.
    pub frame_idx: usize,
    pub playing: bool,
    /// When the slider was last advanced, in nanoseconds.
    pub last_advance: Option<u64>,
}

/// How long an image is shown while playing: 80 milliseconds.
pub const PLAY_FRAME_NS: u64 = 80_000_000;

/// It is time for the next image.
pub open spec fn advance_due(last: Option<u64>, now: u64) -> bool {
    match last {
        Some(t) => now - t >= PLAY_FRAME_NS,
        None => true,
    }
}

pub struct Screen {
    pub mode: DisplayMode,
    /// Full value range of each display mode, indexed by `DisplayMode::index`;
    /// the single-image entry spans all frames so the contrast stays put while
    /// sliding through them.
    pub ranges: [Span; 6],
    pub contrast: Contrast,
    pub player: Player,
    pub img_dirty: bool,
    pub scale: Binary32,
    pub fit_requested: bool,
    pub cursor: Option<(usize, usize, Binary32)>,
    pub dim_outside: bool,
}

/// An image in the eight bits of red, green, blue and opacity of each pixel.
pub struct Picture {
    pub width: usize,
    pub height: usize,
    pub rgba: Vec<u8>,
}

/// The smallest zoom, 0.02.
#[verifier::allow_in_spec]
pub fn smallest_scale() -> Binary32
    returns
        (Binary32 { bits: 0x3ca3_d70a }),
{
    Binary32 { bits: 0x3ca3_d70a }
}

/// The largest zoom, 64.
#[verifier::allow_in_spec]
pub fn largest_scale() -> Binary32
    returns
        (Binary32 { bits: 0x4280_0000 }),
{
    Binary32 { bits: 0x4280_0000 }
}

/// The factor between two zoom steps, 1.25.
#[verifier::allow_in_spec]
pub fn zoom_step() -> Binary32
    returns
        (Binary32 { bits: 0x3fa0_0000 }),
{
    Binary32 { bits: 0x3fa0_0000 }
}

/// The smallest width of the contrast range, `1e-12`.
#[verifier::allow_in_spec]
pub fn smallest_span() -> Binary32
    returns
        (Binary32 { bits: 0x2b8c_bccc }),
{
    Binary32 { bits: 0x2b8c_bccc }
}

/// The last place in a table of 256 colours, 255.
#[verifier::allow_in_spec]
pub fn last_colour() -> Binary32
    returns
        (Binary32 { bits: 0x437f_0000 }),
{
    Binary32 { bits: 0x437f_0000 }
}

/// How many steps of the mouse the contrast range is wide, 200.
#[verifier::allow_in_spec]
pub fn contrast_steps() -> Binary32
    returns
        (Binary32 { bits: 0x4348_0000 }),
{
    Binary32 { bits: 0x4348_0000 }
}

/// The width of the contrast range, held above zero.
pub open spec fn contrast_span(c: Contrast) -> Binary32 {
    c.vmax.spec_minus(c.vmin).spec_max(smallest_span())
}

/// The place of a value in a table of 256 colours.
pub open spec fn colour_index(v: Binary32, c: Contrast) -> nat {
    let t = v.spec_minus(c.vmin).spec_over(contrast_span(c)).spec_clamp(Binary32::zero(), Binary32::one());
    let k = Format::Single.round_index(t.spec_times(last_colour()).raw());
    if k < 255 {
        k
    } else {
        255
    }
}

/// The colours of an image.
pub open spec fn colours(f: Image, c: Contrast, lut: Seq<[u8; 3]>) -> Seq<u8> {
    Seq::new(
        4 * f.pixels.len(),
        |i: int|
            if i % 4 < 3 {
                lut[colour_index(f.nth(i / 4), c) as int]@[i % 4]
            } else {
                255
            },
    )
}

impl Screen {
    /// The contrast limits set to the full range of the displayed mode.
    pub open spec fn with_full_range(self) -> Screen {
        Screen {
            contrast: Contrast::full(self.ranges@[self.mode.place()]),
            img_dirty: true,
            ..self
        }
    }

    /// Another display mode.
    pub open spec fn in_mode(self, mode: DisplayMode) -> Screen {
        if self.mode == mode {
            self
        } else {
            (Screen {
                mode,
                player: Player {
                    playing: self.player.playing && mode == DisplayMode::Single,
                    ..self.player
                },
                ..self
            }).with_full_range()
        }
    }

    /// One image of `n` shown by itself.
    pub open spec fn on_frame(self, idx: nat, n: nat) -> Screen {
        let s = self.in_mode(DisplayMode::Single);
        Screen {
            player: Player {
                frame_idx: if idx < n {
                    idx as usize
                } else {
                    (n - 1) as usize
                },
                playing: false,
                ..s.player
            },
            img_dirty: true,
            ..s
        }
    }

    /// The next of `n` images, if the stack is playing and it is time.
    pub open spec fn advanced(self, now: u64, n: nat) -> Screen {
        if self.is_playing() && advance_due(self.player.last_advance, now) {
            Screen {
                player: Player {
                    frame_idx: ((self.player.frame_idx + 1) % (n as int)) as usize,
                    last_advance: Some(now),
                    ..self.player
                },
                img_dirty: true,
                ..self
            }
        } else {
            self
        }
    }

    /// Playing started or stopped.
    pub open spec fn toggled(self) -> Screen {
        Screen {
            player: Player { playing: !self.player.playing, last_advance: None, ..self.player },
            ..self
        }
    }

    /// Another image picked with the slider.
    pub open spec fn slid_to(self, idx: usize) -> Screen {
        Screen {
            player: Player { frame_idx: idx, playing: false, ..self.player },
            img_dirty: true,
            ..self
        }
    }

    /// Other contrast limits.
    pub open spec fn with_contrast(self, vmin: Binary32, vmax: Binary32) -> Screen {
        Screen { contrast: Contrast { vmin, vmax, ..self.contrast }, img_dirty: true, ..self }
    }

    /// The contrast limits at the ends of the range of the values on screen.
    pub open spec fn with_auto_contrast(self) -> Screen {
        self.with_contrast(self.contrast.data_min, self.contrast.data_max)
    }

    /// How much a contrast limit changes with a step of the mouse.
    pub open spec fn contrast_step(self) -> Binary32 {
        self.contrast.data_max.spec_minus(self.contrast.data_min).spec_max(
            Binary32::one(),
        ).spec_over(contrast_steps())
    }

    /// One zoom step out.
    pub open spec fn zoomed_out(self) -> Screen {
        Screen { scale: self.scale.spec_over(zoom_step()).spec_max(smallest_scale()), ..self }
    }

    /// One zoom step in.
    pub open spec fn zoomed_in(self) -> Screen {
        Screen { scale: self.scale.spec_times(zoom_step()).spec_min(largest_scale()), ..self }
    }

    /// A `w` × `h` image fitted into the space that there is, if that was asked for.
    pub open spec fn fitted(
        self,
        avail: Point,
        slider_height: Binary32,
        w: usize,
        h: usize,
    ) -> Screen {
        if self.fit_requested && w > 0 && h > 0 {
            Screen {
                scale: Screen::fitting_scale(avail, slider_height, w, h),
                fit_requested: false,
                ..self
            }
        } else {
            self
        }
    }

    /// The stack is being played.
    pub open spec fn is_playing(self) -> bool {
        self.player.playing && self.mode == DisplayMode::Single
    }

    /// The image on screen.
    pub open spec fn shown(self, data: FolderData) -> Frame {
        match self.mode {
            DisplayMode::Integrated => data.sum,
            DisplayMode::Mean => data.mean,
            DisplayMode::Max => data.max,
            DisplayMode::Min => data.min,
            DisplayMode::Std => data.std,
            DisplayMode::Single => if self.player.frame_idx < data.frames@.len() {
                data.frames@[self.player.frame_idx as int]
            } else {
                data.frames@[data.frames@.len() - 1]
            },
        }
    }

    /// A point of the screen in image pixels, when the image starts at `origin`.
    pub open spec fn image_point(self, origin: Point, p: Point) -> Point {
        Point {
            x: p.x.spec_minus(origin.x).spec_over(self.scale),
            y: p.y.spec_minus(origin.y).spec_over(self.scale),
        }
    }

    /// A point of the image on the screen.
    pub open spec fn screen_point(self, origin: Point, p: Point) -> Point {
        Point {
            x: origin.x.spec_plus(p.x.spec_times(self.scale)),
            y: origin.y.spec_plus(p.y.spec_times(self.scale)),
        }
    }

    /// The pixel under a point of the screen, with its value.
    pub open spec fn under(self, origin: Point, hover: Option<Point>, data: FolderData) -> Option<
        (usize, usize, Binary32),
    > {
        match hover {
            Some(p) => {
                let q = self.image_point(origin, p);
                let x = Format::Single.floor_index(q.x.raw());
                let y = Format::Single.floor_index(q.y.raw());
                if 0 <= x < data.width && 0 <= y < data.height {
                    Some((x as usize, y as usize, self.shown(data)@.at(y, x)))
                } else {
                    None
                }
            },
            None => None,
        }
    }

    /// The zoom that shows a whole `w` × `h` image in the space that there is,
    /// above a slider.
    pub open spec fn fitting_scale(
        avail: Point,
        slider_height: Binary32,
        w: usize,
        h: usize,
    ) -> Binary32 {
        let across = avail.x.spec_over(Binary32::nearest_to(w as nat));
        let down = avail.y.spec_minus(slider_height).spec_max(Binary32::one()).spec_over(
            Binary32::nearest_to(h as nat),
        );
        across.spec_min(down).spec_clamp(smallest_scale(), largest_scale())
    }

    /// Reset the contrast limits to the full range of the displayed mode.
    pub fn apply_active_range(&mut self)
        ensures
            *final(self) == old(self).with_full_range(),
    {
        let s: Span = self.ranges[self.mode.index()];
        self.contrast = Contrast { data_min: s.lo, data_max: s.hi, vmin: s.lo, vmax: s.hi };
        self.img_dirty = true;
    }

    pub fn set_mode(&mut self, mode: DisplayMode)
        ensures
            *final(self) == old(self).in_mode(mode),
    {
        if self.mode != mode {
            self.mode = mode;
            if mode != DisplayMode::Single {
                self.player.playing = false;
            }
            self.apply_active_range();
        }
    }

    /// Jump the viewer to one of `n` images (e.g. from a click on the plot).
    pub fn show_frame(&mut self, idx: usize, n: usize)
        requires
            n > 0,
        ensures
            *final(self) == old(self).on_frame(idx as nat, n as nat),
            final(self).player.frame_idx < n,
    {
        self.set_mode(DisplayMode::Single);
        self.player.frame_idx = if idx < n {
            idx
        } else {
            n - 1
        };
        self.player.playing = false;
        self.img_dirty = true;
    }

    /// Advance the single-image slider of `n` images while playing, when it is
    /// due: `now` is the time in nanoseconds. Returns whether it is playing.
    pub fn animate(&mut self, now: u64, n: usize) -> (playing: bool)
        requires
            old(self).player.frame_idx < n,
        ensures
            *final(self) == old(self).advanced(now, n as nat),
            final(self).player.frame_idx < n,
            playing == old(self).is_playing(),
    {
        if !self.player.playing || self.mode != DisplayMode::Single {
            return false;
        }
        let due: bool = match self.player.last_advance {
            Some(t) => now >= t && now - t >= PLAY_FRAME_NS,
            None => true,
        };
        if due {
            self.player.frame_idx = (self.player.frame_idx + 1) % n;
            self.player.last_advance = Some(now);
            self.img_dirty = true;
        }
        true
    }

    /// Start or stop playing.
    pub fn toggle_play(&mut self)
        ensures
            *final(self) == old(self).toggled(),
    {
        self.player.playing = !self.player.playing;
        self.player.last_advance = None;
    }

    /// The slider was moved.
    pub fn slide_to(&mut self, idx: usize)
        ensures
            *final(self) == old(self).slid_to(idx),
    {
        self.player.frame_idx = idx;
        self.player.playing = false;
        self.img_dirty = true;
    }

    /// Set the contrast limits.
    pub fn set_contrast(&mut self, vmin: Binary32, vmax: Binary32)
        ensures
            *final(self) == old(self).with_contrast(vmin, vmax),
    {
        self.contrast.vmin = vmin;
        self.contrast.vmax = vmax;
        self.img_dirty = true;
    }

    /// Set the contrast limits to the ends of the range.
    pub fn auto_contrast(&mut self)
        ensures
            *final(self) == old(self).with_auto_contrast(),
    {
        let c: Contrast = self.contrast;
        self.set_contrast(c.data_min, c.data_max);
    }

    /// How much a contrast limit changes with a step of the mouse.
    pub fn contrast_speed(&self) -> (s: Binary32)
        ensures
            s == self.contrast_step(),
    {
        self.contrast.data_max.minus(self.contrast.data_min).max(
            Binary32::one(),
        ).over(contrast_steps())
    }

    pub fn zoom_out(&mut self)
        ensures
            *final(self) == old(self).zoomed_out(),
    {
        self.scale = self.scale.over(zoom_step()).max(
            smallest_scale(),
        );
    }

    pub fn zoom_in(&mut self)
        ensures
            *final(self) == old(self).zoomed_in(),
    {
        self.scale = self.scale.times(zoom_step()).min(
            largest_scale(),
        );
    }

    /// Fit a `w` × `h` image into the space that there is, if that was asked for.
    pub fn fit(&mut self, avail: Point, slider_height: Binary32, w: usize, h: usize)
        ensures
            *final(self) == old(self).fitted(avail, slider_height, w, h),
    {
        if self.fit_requested && w > 0 && h > 0 {
            let across: Binary32 = avail.x.over(Binary32::from_usize(w));
            let down: Binary32 = avail.y.minus(slider_height).max(
                Binary32::one(),
            ).over(Binary32::from_usize(h));
            self.scale = across.min(down).clamp(
                smallest_scale(),
                largest_scale(),
            );
            self.fit_requested = false;
        }
    }

    /// The image currently on screen.
    pub fn display_image<'a>(&self, data: &'a FolderData) -> (f: &'a Frame)
        requires
            data.wf(),
        ensures
            *f == self.shown(*data),
    {
        match self.mode {
            DisplayMode::Integrated => &data.sum,
            DisplayMode::Mean => &data.mean,
            DisplayMode::Max => &data.max,
            DisplayMode::Min => &data.min,
            DisplayMode::Std => &data.std,
            DisplayMode::Single => {
                let last: usize = data.n_frames() - 1;
                if self.player.frame_idx < last {
                    &data.frames[self.player.frame_idx]
                } else {
                    &data.frames[last]
                }
            },
        }
    }

    pub fn to_img(&self, origin: Point, p: Point) -> (q: Point)
        ensures
            q == self.image_point(origin, p),
    {
        Point {
            x: p.x.minus(origin.x).over(self.scale),
            y: p.y.minus(origin.y).over(self.scale),
        }
    }

    pub fn to_screen(&self, origin: Point, p: Point) -> (q: Point)
        ensures
            q == self.screen_point(origin, p),
    {
        Point {
            x: origin.x.plus(p.x.times(self.scale)),
            y: origin.y.plus(p.y.times(self.scale)),
        }
    }

    /// Read out the pixel under the mouse.
    pub fn read_out(&mut self, origin: Point, hover: Option<Point>, data: &FolderData)
        requires
            data.wf(),
        ensures
            *final(self) == (Screen { cursor: old(self).under(origin, hover, *data), ..*old(self) }),
    {
        self.cursor = None;
        if let Some(p) = hover {
            let q: Point = self.to_img(origin, p);
            let x: i64 = q.x.floor_index();
            let y: i64 = q.y.floor_index();
            if x >= 0 && y >= 0 && (x as u64) < data.width as u64 && (y as u64) < data.height as u64 {
                let (x, y): (usize, usize) = (x as usize, y as usize);
                let f: &Frame = self.display_image(data);
                proof {
                    assert(data.sized(f@));
                }
                self.cursor = Some((x, y, f.at(y, x)));
            }
        }
    }

    /// The picture of the image on screen, when it has to be drawn anew: `lut`
    /// holds the colours from the lower to the upper contrast limit.
    pub fn render(&mut self, data: &FolderData, lut: &[[u8; 3]; 256]) -> (r: Option<Picture>)
        requires
            data.wf(),
        ensures
            *final(self) == (Screen { img_dirty: false, ..*old(self) }),
            match r {
                Some(p) => {
                    &&& old(self).img_dirty
                    &&& p.width == data.width
                    &&& p.height == data.height
                    &&& p.rgba@ == colours(old(self).shown(*data)@, old(self).contrast, lut@)
                    // The pixels of the image shown, from the lower to the upper limit.
                    &&& usual_contrast(old(self).contrast) ==> forall|i: int|
                        0 <= i < old(self).shown(*data)@.pixels.len() ==> is_drawn(
                            p.rgba@,
                            i,
                            Binary32 { bits: #[trigger] old(self).shown(*data)@.pixels[i] },
                            old(self).contrast,
                            lut@,
                        )
                },
                None => !old(self).img_dirty,
            },
    {
        if !self.img_dirty {
            return None;
        }
        let f: &Frame = self.display_image(data);
        let (height, width): (usize, usize) = f.shape();
        proof {
            assert(data.sized(f@));
        }
        let c: Contrast = self.contrast;
        let rgba: Vec<u8> = paint(f, c, lut);
        proof {
            if usual_contrast(c) {
                assert forall|i: int| 0 <= i < f@.pixels.len() implies is_drawn(
                    rgba@,
                    i,
                    Binary32 { bits: #[trigger] f@.pixels[i] },
                    c,
                    lut@,
                ) by {
                    law_picture_is_drawn_in_the_colours_of_the_table(f@, c, lut@, i);
                }
            }
        }
        self.img_dirty = false;
        Some(Picture { width, height, rgba })
    }
}

/// The place of a value in a table of 256 colours.
fn find_colour(v: Binary32, c: Contrast, span: Binary32) -> (k: usize)
    requires
        span == contrast_span(c),
    ensures
        k == colour_index(v, c),
        k < 256,
{
    let t: Binary32 = v.minus(c.vmin).over(span).clamp(
        Binary32::zero(),
        Binary32::one(),
    );
    let k: usize = t.times(last_colour()).round_index();
    if k < 255 {
        k
    } else {
        255
    }
}

/// The colours of an image.
fn paint(f: &Frame, c: Contrast, lut: &[[u8; 3]; 256]) -> (rgba: Vec<u8>)
    ensures
        rgba@ == colours(f@, c, lut@),
{
    let pixels: &[u32] = f.pixels();
    let span: Binary32 = c.vmax.minus(c.vmin).max(smallest_span());
    let mut rgba: Vec<u8> = Vec::new();
    let ghost whole = colours(f@, c, lut@);
    let mut i: usize = 0;
    while i < pixels.len()
        invariant
            i <= pixels@.len(),
            pixels@ == f@.pixels,
            span == contrast_span(c),
            whole == colours(f@, c, lut@),
            rgba@ == whole.take(4 * i),
        decreases pixels@.len() - i,
    {
        let k: usize = find_colour(Binary32 { bits: pixels[i] }, c, span);
        let ghost before = rgba@;
        proof {
            assert(whole[4 * i] == lut@[k as int]@[0]);
            assert(whole[4 * i + 1] == lut@[k as int]@[1]);
            assert(whole[4 * i + 2] == lut@[k as int]@[2]);
            assert(whole[4 * i + 3] == 255);
        }
        rgba.push(lut[k][0]);
        rgba.push(lut[k][1]);
        rgba.push(lut[k][2]);
        rgba.push(255);
        proof {
            assert(rgba@ =~= whole.take(4 * (i + 1)));
        }
        i = i + 1;
    }
    proof {
        assert(whole.take(whole.len() as int) =~= whole);
    }
    rgba
}

// ----- laws --------------------------------------------------------------------------

impl Screen {
    /// Choosing a mode twice is choosing it once.
    pub proof fn law_mode_is_chosen_once(self, mode: DisplayMode)
        ensures
            self.in_mode(mode).mode == mode,
            self.in_mode(mode).in_mode(mode) == self.in_mode(mode),
    {
    }

    /// Playing runs through the whole stack and starts over: from image `i`, the
    /// next one is `i + 1`, and the first one after the last.
    pub proof fn law_playing_runs_through_the_stack(self, now: u64, n: nat)
        requires
            self.is_playing(),
            advance_due(self.player.last_advance, now),
            self.player.frame_idx < n <= usize::MAX,
        ensures
            self.advanced(now, n).player.frame_idx == (if self.player.frame_idx + 1 < n {
                self.player.frame_idx + 1
            } else {
                0
            }),
            self.advanced(now, n).is_playing(),
    {
        let next = self.player.frame_idx + 1;
        if next < n {
            vstd::arithmetic::div_mod::lemma_small_mod(next as nat, n);
        } else {
            vstd::arithmetic::div_mod::lemma_mod_self_0(n as int);
        }
    }

    /// Whatever the value, it has a colour; the opacity is full everywhere.
    pub proof fn law_every_pixel_has_a_colour(f: Image, c: Contrast, lut: Seq<[u8; 3]>, i: int)
        requires
            0 <= i < f.pixels.len(),
        ensures
            colour_index(f.nth(i), c) < 256,
            colours(f, c, lut).len() == 4 * f.pixels.len(),
            colours(f, c, lut)[4 * i + 3] == 255,
    {
    }
}

/// A zoom between the smallest and the largest one.
pub open spec fn usual_scale(s: Binary32) -> bool {
    !s.not_a_number() && !s.below(smallest_scale()) && !largest_scale().below(s)
}

impl Screen {
    /// The zoom stays between 2% and 6400%, step by step and when an image is
    /// fitted into the window; only fitting nothing into nothing gives no number.
    pub proof fn law_zoom_stays_in_limits(
        self,
        avail: Point,
        slider_height: Binary32,
        w: usize,
        h: usize,
    )
        ensures
            usual_scale(self.scale) ==> usual_scale(self.zoomed_out().scale),
            usual_scale(self.scale) ==> usual_scale(self.zoomed_in().scale),
            usual_scale(self.scale) ==> !self.scale.below(self.zoomed_out().scale)
                && !self.zoomed_in().scale.below(self.scale),
            ({
                let s = self.fitted(avail, slider_height, w, h).scale;
                s == self.scale || s.not_a_number() || usual_scale(s)
            }),
    {
        let f = Format::Single;
        let (a, z) = (self.scale.raw(), zoom_step().raw());
        let p = pow2(149);
        lemma_pow2_pos(149);
        lemma_zoom_step();
        let (ua, uz) = (f.units(a), f.units(z));
        // A step out is not larger, a step in not smaller.
        assert(ua * p <= ua * uz) by (nonlinear_arith)
            requires
                uz >= p,
        ;
        if usual_scale(self.scale) {
            lemma_rounded_at_most(f, ua * p, uz, a);
            lemma_rounded_at_least(f, ua * uz, p, a);
            crate::round::lemma_rounded_is_nearest(f, ua * uz, p);
        }
    }
}

/// The factor between two zoom steps is not below one.
proof fn lemma_zoom_step()
    ensures
        Format::Single.units(0x3fa0_0000) >= pow2(149),
{
    let f = Format::Single;
    reveal(Format::units);
    vstd::arithmetic::power2::lemma2_to64();
    assert(0x3fa0_0000nat / f.unit() == 127);
    assert(0x3fa0_0000nat % f.unit() == 0x20_0000);
    lemma_pow2_adds(23, 126);
    let q = pow2(126);
    assert(0xa0_0000 * q >= 0x80_0000 * q) by (nonlinear_arith)
        requires
            q >= 0,
    ;
}

// ----- colours -----------------------------------------------------------------------

/// How many times `1e-12` goes into one.
pub open spec fn trillion() -> nat {
    1_000_000_000_000
}

/// Contrast limits that can be told apart: the upper one lies above the lower one, by
/// at least `1e-12` and by no more than the largest number.
pub open spec fn usual_contrast(c: Contrast) -> bool {
    let f = Format::Single;
    &&& c.vmin.finite()
    &&& c.vmax.finite()
    &&& c.vmax.spec_minus(c.vmin).finite()
    &&& (f.value(c.vmax.raw()) - f.value(c.vmin.raw())) * trillion() >= pow2(149)
}

/// The smallest width of the contrast range is the number nearest to `1e-12`.
proof fn lemma_smallest_span()
    ensures
        Format::Single.units(0x2b8c_bccc) * trillion() < pow2(149),
        Format::Single.units(0x2b8c_bccd) * trillion() > pow2(149),
        Format::Single.rounded(pow2(149), trillion()) == 0x2b8c_bccc,
{
    let f = Format::Single;
    let e = pow2(86);
    lemma_pow2_adds(63, 86);
    lemma_pow2_pos(86);
    vstd::arithmetic::power2::lemma2_to64_rest();
    assert(f.units(0x2b8c_bccc) == 9223372 * e && f.units(0x2b8c_bccd) == 9223373 * e) by {
        reveal(Format::units);
        assert(0x2b8c_bcccnat / f.unit() == 87 && 0x2b8c_bcccnat % f.unit() == 0xc_bccc);
        assert(0x2b8c_bccdnat / f.unit() == 87 && 0x2b8c_bccdnat % f.unit() == 0xc_bccd);
    }
    assert(pow2(149) == 0x8000_0000_0000_0000 * e);
    assert((9223372 * e) * trillion() == 9223372_000000000000 * e) by (nonlinear_arith);
    assert((9223373 * e) * trillion() == 9223373_000000000000 * e) by (nonlinear_arith);
    let c = f.rounded(pow2(149), trillion());
    lemma_rounded_at_least(f, pow2(149), trillion(), 0x2b8c_bccc);
    lemma_rounded_at_most(f, pow2(149), trillion(), 0x2b8c_bccd);
    crate::round::lemma_rounded_is_nearest(f, pow2(149), trillion());
    assert((9223372 * e + 9223373 * e) * trillion() > 2 * (0x8000_0000_0000_0000 * e))
        by (nonlinear_arith)
        requires
            e > 0,
    ;
}

/// The width of such a contrast range is the rounded difference of its limits.
proof fn lemma_width(c: Contrast)
    requires
        usual_contrast(c),
    ensures
        contrast_span(c) == c.vmax.spec_minus(c.vmin),
        0x2b8c_bccc <= contrast_span(c).raw() < Format::Single.infinity(),
        contrast_span(c).raw() == Format::Single.rounded(
            (Format::Single.value(c.vmax.raw()) - Format::Single.value(c.vmin.raw())) as nat,
            1,
        ),
        Format::Single.value(c.vmax.raw()) - Format::Single.value(c.vmin.raw()) > 0,
{
    let f = Format::Single;
    let n = f.negated(c.vmin.raw());
    assert(f.value(n) == -f.value(c.vmin.raw()));
    lemma_rank_of_sum(f, c.vmax.raw(), n);
    let d = f.value(c.vmax.raw()) - f.value(c.vmin.raw());
    lemma_smallest_span();
    lemma_pow2_pos(149);
    assert(d > 0) by (nonlinear_arith)
        requires
            d * trillion() > 0,
    ;
    assert(f.units(0x2b8c_bccc) <= d) by (nonlinear_arith)
        requires
            f.units(0x2b8c_bccc) * trillion() < d * trillion(),
    ;
    lemma_rounded_at_least(f, d as nat, 1, 0x2b8c_bccc);
    crate::round::lemma_rounded_is_nearest(f, d as nat, 1);
}

/// A larger value does not have an earlier colour.
proof fn lemma_shares_are_ordered(v: Binary32, w: Binary32, c: Contrast)
    requires
        usual_contrast(c),
        !v.not_a_number(),
        !w.not_a_number(),
        !w.below(v),
    ensures
        colour_index(v, c) <= colour_index(w, c),
{
    let f = Format::Single;
    let span = contrast_span(c);
    lemma_width(c);
    lemma_difference_keeps_order(f, v.raw(), w.raw(), c.vmin.raw());
    let (a, b) = (v.spec_minus(c.vmin), w.spec_minus(c.vmin));
    lemma_quotient_keeps_order(f, a.raw(), b.raw(), span.raw());
    let (x, y) = (a.spec_over(span), b.spec_over(span));
    let (t, u) = (
        x.spec_clamp(Binary32::zero(), Binary32::one()),
        y.spec_clamp(Binary32::zero(), Binary32::one()),
    );
    assert(f.rank(t.raw()) <= f.rank(u.raw()));
    lemma_product_keeps_order(f, t.raw(), u.raw(), last_colour().raw());
    lemma_index_keeps_order(f, t.spec_times(last_colour()).raw(), u.spec_times(last_colour()).raw());
}

/// A value that is not above the lower limit has the first colour.
proof fn lemma_index_of_nothing(v: Binary32, c: Contrast)
    requires
        c.vmin.finite(),
        0 < contrast_span(c).raw() < Format::Single.infinity(),
        !v.not_a_number(),
        !c.vmin.below(v),
    ensures
        colour_index(v, c) == 0,
{
    let f = Format::Single;
    let span = contrast_span(c);
    lemma_difference_keeps_order(f, v.raw(), c.vmin.raw(), c.vmin.raw());
    let n = f.negated(c.vmin.raw());
    assert(f.value(n) == -f.value(c.vmin.raw()));
    lemma_rank_of_sum(f, c.vmin.raw(), n);
    crate::round::lemma_rounded_zero_over(f, 1);
    let a = v.spec_minus(c.vmin);
    assert(f.rank(a.raw()) <= 0);
    lemma_quotient_keeps_order(f, a.raw(), 0, span.raw());
    crate::round::lemma_units_of_zero(f);
    crate::round::lemma_units_increase(f, 0, span.raw());
    crate::round::lemma_rounded_zero_over(f, f.units(span.raw()));
    assert(0 * pow2(149) == 0);
    let x = a.spec_over(span);
    assert(f.rank(x.raw()) <= 0);
    let t = x.spec_clamp(Binary32::zero(), Binary32::one());
    assert(f.rank(t.raw()) == 0);
    lemma_product_keeps_order(f, t.raw(), 0, last_colour().raw());
    lemma_pow2_pos(149);
    crate::round::lemma_rounded_zero_over(f, pow2(149));
    assert(0 * f.units(last_colour().raw()) == 0);
    lemma_index_keeps_order(f, t.spec_times(last_colour()).raw(), 0);
    lemma_pow2_unfold(150);
    let p = pow2(149);
    assert((2 * 0 + p) / (2 * p) == 0) by (nonlinear_arith)
        requires
            p > 0,
    ;
}

/// A value that is not below the upper limit has the last colour.
proof fn lemma_last_colour(v: Binary32, c: Contrast)
    requires
        usual_contrast(c),
        !v.not_a_number(),
        !v.below(c.vmax),
    ensures
        colour_index(v, c) == 255,
{
    lemma_width(c);
    lemma_difference_keeps_order(Format::Single, c.vmax.raw(), v.raw(), c.vmin.raw());
    lemma_index_of_everything(v, c);
}

/// A value that lies the whole range above the lower limit has the last colour.
proof fn lemma_index_of_everything(v: Binary32, c: Contrast)
    requires
        0 < contrast_span(c).raw() < Format::Single.infinity(),
        !v.spec_minus(c.vmin).not_a_number(),
        Format::Single.rank(v.spec_minus(c.vmin).raw()) >= contrast_span(c).raw(),
    ensures
        colour_index(v, c) == 255,
{
    let f = Format::Single;
    let span = contrast_span(c);
    let p = pow2(149);
    lemma_single_codes();
    lemma_pow2_pos(149);
    let a = v.spec_minus(c.vmin);
    lemma_divided_by_itself(f, a.raw(), span.raw(), 0x3f80_0000);
    let t = a.spec_over(span).spec_clamp(Binary32::zero(), Binary32::one());
    assert(t == Binary32::one());
    assert(p * (255 * p) == (255 * p) * p) by (nonlinear_arith);
    lemma_rounded_scaled(f, 255 * p, 1, p);
    assert(1 * p == p);
    crate::round::lemma_rounded_exact(f, last_colour().raw());
    assert(f.from_nat(255) == last_colour().raw());
    assert(t.spec_times(last_colour()) == last_colour());
    lemma_round_of_integer(f, 255);
}

/// The value in the middle of the limits has the colour in the middle.
proof fn lemma_middle_colour(v: Binary32, c: Contrast)
    requires
        usual_contrast(c),
        v.finite(),
        2 * Format::Single.value(v.raw()) == Format::Single.value(c.vmin.raw())
            + Format::Single.value(c.vmax.raw()),
    ensures
        colour_index(v, c) == 128,
{
    let f = Format::Single;
    let span = contrast_span(c);
    let p = pow2(149);
    lemma_width(c);
    lemma_single_codes();
    lemma_pow2_pos(149);
    let n = f.negated(c.vmin.raw());
    assert(f.value(n) == -f.value(c.vmin.raw()));
    let h = (f.value(v.raw()) - f.value(c.vmin.raw())) as nat;
    assert(span.raw() == f.rounded(2 * h, 1));
    lemma_rank_of_sum(f, v.raw(), n);
    let a = v.spec_minus(c.vmin);
    // The range is much wider than the smallest normal number.
    if h < f.unit() {
        let u = 2 * f.unit();
        assert(f.units(u) == u * 1) by {
            reveal(Format::units);
            vstd::arithmetic::power2::lemma2_to64();
            assert(u / f.unit() == 2 && u % f.unit() == 0);
            lemma_pow2_unfold(1);
            assert(f.unit() * pow2(1) == u) by (nonlinear_arith)
                requires
                    pow2(1) == 2,
                    u == 2 * f.unit(),
            ;
        }
        lemma_rounded_at_most(f, 2 * h, 1, u);
    }
    lemma_rounded_double(f, h);
    crate::round::lemma_rounded_is_nearest(f, h, 1);
    assert(a.raw() == f.rounded(h, 1));
    let x = f.units(a.raw());
    crate::round::lemma_units_of_zero(f);
    crate::round::lemma_units_increase(f, 0, a.raw());
    // Half of the range.
    assert(x * p == p * x && 2 * x == 2 * x) by (nonlinear_arith);
    lemma_rounded_scaled(f, p, 2, x);
    let q = f.units(0x3f00_0000);
    lemma_rounded_scaled(f, q, 1, 2);
    crate::round::lemma_rounded_exact(f, 0x3f00_0000);
    assert(a.spec_over(span) == Binary32::half());
    assert(Binary32::half().spec_clamp(Binary32::zero(), Binary32::one()) == Binary32::half());
    let r = f.units(0x42ff_0000);
    assert(q * (255 * p) == r * p) by (nonlinear_arith)
        requires
            2 * q == p,
            2 * r == 255 * p,
    ;
    lemma_rounded_scaled(f, r, 1, p);
    assert(1 * p == p);
    crate::round::lemma_rounded_exact(f, 0x42ff_0000);
    assert(Binary32::half().spec_times(last_colour()).raw() == 0x42ff_0000);
    lemma_pow2_unfold(150);
    assert((255 * p + p) / (2 * p) == 128) by (nonlinear_arith)
        requires
            p > 0,
    ;
}

/// The colours run from the first one at the lower contrast limit to the last one at
/// the upper limit: at or below the lower limit a value has the first colour, at or
/// above the upper limit the last one, in the middle the one in the middle, and a
/// larger value never has an earlier colour.
pub proof fn law_colours_run_from_limit_to_limit(v: Binary32, w: Binary32, c: Contrast)
    requires
        usual_contrast(c),
    ensures
        !v.not_a_number() && !c.vmin.below(v) ==> colour_index(v, c) == 0,
        !v.not_a_number() && !v.below(c.vmax) ==> colour_index(v, c) == 255,
        v.finite() && 2 * Format::Single.value(v.raw()) == Format::Single.value(c.vmin.raw())
            + Format::Single.value(c.vmax.raw()) ==> colour_index(v, c) == 128,
        v.below(w) || v.equals(w) ==> colour_index(v, c) <= colour_index(w, c),
{
    if !v.not_a_number() && !c.vmin.below(v) {
        lemma_width(c);
        lemma_index_of_nothing(v, c);
    }
    if !v.not_a_number() && !v.below(c.vmax) {
        lemma_last_colour(v, c);
    }
    if v.finite() && 2 * Format::Single.value(v.raw()) == Format::Single.value(c.vmin.raw())
        + Format::Single.value(c.vmax.raw()) {
        lemma_middle_colour(v, c);
    }
    if v.below(w) || v.equals(w) {
        lemma_shares_are_ordered(v, w, c);
    }
}

/// Pixel `i` of a picture is drawn as its value asks for: in the first colour of the
/// table at or below the lower contrast limit, in the last one at or above the upper
/// limit, in the one in the middle between them, and opaque.
pub open spec fn is_drawn(
    rgba: Seq<u8>,
    i: int,
    v: Binary32,
    c: Contrast,
    lut: Seq<[u8; 3]>,
) -> bool {
    let f = Format::Single;
    let has = |k: int|
        rgba[4 * i] == lut[k]@[0] && rgba[4 * i + 1] == lut[k]@[1] && rgba[4 * i + 2] == lut[k]@[2];
    &&& rgba[4 * i + 3] == 255
    &&& !v.not_a_number() && !c.vmin.below(v) ==> has(0)
    &&& !v.not_a_number() && !v.below(c.vmax) ==> has(255)
    &&& v.finite() && 2 * f.value(v.raw()) == f.value(c.vmin.raw()) + f.value(c.vmax.raw())
        ==> has(128)
}

/// What is drawn: a pixel at or below the lower contrast limit has the red, green and
/// blue of the first colour of the table, one at or above the upper limit those of the
/// last, one in the middle those of the colour in the middle. Every pixel is opaque.
pub proof fn law_picture_is_drawn_in_the_colours_of_the_table(
    f: Image,
    c: Contrast,
    lut: Seq<[u8; 3]>,
    i: int,
)
    requires
        usual_contrast(c),
        0 <= i < f.pixels.len(),
    ensures
        colours(f, c, lut).len() == 4 * f.pixels.len(),
        is_drawn(colours(f, c, lut), i, Binary32 { bits: f.pixels[i] }, c, lut),
{
    let v = Binary32 { bits: f.pixels[i] };
    law_colours_run_from_limit_to_limit(v, v, c);
}

// ----- points ------------------------------------------------------------------------

/// The point with the given whole coordinates.
pub open spec fn whole_point(x: int, y: int) -> Point {
    Point { x: whole(x), y: whole(y) }
}

impl Screen {
    /// At a zoom of `s`, the image pixel `(x, y)` is drawn `s * x` points to the right
    /// of the corner of the image and `s * y` points below it, and a point drawn there
    /// is mapped back to the pixel, wherever the image stands on the screen.
    pub proof fn law_points_map_to_the_screen_and_back(
        self,
        left: int,
        top: int,
        x: int,
        y: int,
        s: int,
    )
        requires
            self.scale == whole(s),
            1 <= s <= 64,
            -0x80_0000 <= left <= 0x80_0000,
            -0x80_0000 <= top <= 0x80_0000,
            -0x80_0000 <= x * s <= 0x80_0000,
            -0x80_0000 <= y * s <= 0x80_0000,
        ensures
            ({
                let origin = whole_point(left, top);
                let drawn = whole_point(left + x * s, top + y * s);
                &&& self.screen_point(origin, whole_point(x, y)) == drawn
                &&& self.image_point(origin, drawn) == whole_point(x, y)
                &&& self.image_point(origin, origin) == whole_point(0, 0)
            }),
    {
        assert(is_small(x)) by (nonlinear_arith)
            requires
                -0x80_0000 <= x * s <= 0x80_0000,
                1 <= s,
        ;
        assert(is_small(y)) by (nonlinear_arith)
            requires
                -0x80_0000 <= y * s <= 0x80_0000,
                1 <= s,
        ;
        lemma_whole_product(x, s);
        lemma_whole_product(y, s);
        lemma_whole_sum(left, x * s);
        lemma_whole_sum(top, y * s);
        lemma_whole_difference(left + x * s, left);
        lemma_whole_difference(top + y * s, top);
        lemma_whole_quotient(x, s);
        lemma_whole_quotient(y, s);
        lemma_whole_difference(left, left);
        lemma_whole_difference(top, top);
        assert(0 * s == 0);
        lemma_whole_quotient(0, s);
    }

    /// The same at every zoom that is a fraction `s / t`, such as a half or five quarters:
    /// `t` pixels of the image are `s` points on the screen.
    pub proof fn law_points_map_at_every_zoom(
        self,
        left: int,
        top: int,
        x: int,
        y: int,
        s: int,
        t: int,
    )
        requires
            is_fraction(self.scale, s, t),
            -0x80_0000 <= left <= 0x80_0000,
            -0x80_0000 <= top <= 0x80_0000,
            -0x80_0000 <= x * s <= 0x80_0000,
            -0x80_0000 <= y * s <= 0x80_0000,
            is_small(x * t),
            is_small(y * t),
        ensures
            ({
                let origin = whole_point(left, top);
                let drawn = whole_point(left + x * s, top + y * s);
                &&& self.screen_point(origin, whole_point(x * t, y * t)) == drawn
                &&& self.image_point(origin, drawn) == whole_point(x * t, y * t)
            }),
    {
        lemma_whole_fraction(x, self.scale, s, t);
        lemma_whole_fraction(y, self.scale, s, t);
        lemma_whole_sum(left, x * s);
        lemma_whole_sum(top, y * s);
        lemma_whole_difference(left + x * s, left);
        lemma_whole_difference(top + y * s, top);
    }

    /// The top left corner of the image on the screen is the point `(0, 0)` of the
    /// image, at every zoom and wherever it is.
    pub proof fn law_corner_is_the_origin(self, origin: Point)
        requires
            origin.x.finite(),
            origin.y.finite(),
            self.scale.finite(),
            Binary32::zero().below(self.scale),
        ensures
            self.image_point(origin, origin) == (Point {
                x: Binary32::zero(),
                y: Binary32::zero(),
            }),
    {
        lemma_zero_difference(origin.x);
        lemma_zero_difference(origin.y);
        lemma_zero_quotient(self.scale);
    }

    /// At a zoom of `s`, every image pixel is a square of `s` by `s` points: anywhere on
    /// the square of pixel `(x, y)` that pixel is read out, with its value in the image
    /// shown, if the image has it; anywhere else nothing is.
    pub proof fn law_pixel_under_the_mouse_is_read(
        self,
        left: int,
        top: int,
        x: int,
        y: int,
        dx: int,
        dy: int,
        s: int,
        data: FolderData,
    )
        requires
            self.scale == whole(s),
            1 <= s <= 64,
            0 <= dx < s,
            0 <= dy < s,
            -0x80_0000 <= left <= 0x80_0000,
            -0x80_0000 <= top <= 0x80_0000,
            -0x1_0000 <= x * s <= 0x1_0000,
            -0x1_0000 <= y * s <= 0x1_0000,
        ensures
            self.under(whole_point(left, top), None, data) is None,
            self.under(
                whole_point(left, top),
                Some(whole_point(left + x * s + dx, top + y * s + dy)),
                data,
            ) == (if 0 <= x < data.width && 0 <= y < data.height {
                Some((x as usize, y as usize, self.shown(data)@.at(y, x)))
            } else {
                None
            }),
    {
        lemma_whole_difference(left + x * s + dx, left);
        lemma_whole_difference(top + y * s + dy, top);
        lemma_whole_floor(x * s + dx, s);
        lemma_whole_floor(y * s + dy, s);
        vstd::arithmetic::div_mod::lemma_fundamental_div_mod_converse(x * s + dx, s, x, dx);
        vstd::arithmetic::div_mod::lemma_fundamental_div_mod_converse(y * s + dy, s, y, dy);
    }
}

// ----- images ------------------------------------------------------------------------

/// The projections are those of the frames.
pub open spec fn is_projected(data: FolderData) -> bool {
    &&& data.wf()
    &&& data.projects(
        accumulated(data.frames@[0]@.pixels.len(), settled_images(images(data.frames@))),
    )
}

/// The place of a pixel counted row by row, and what is known of it in every frame.
proof fn lemma_place(data: FolderData, y: int, x: int) -> (i: int)
    requires
        is_projected(data),
        0 <= y < data.height,
        0 <= x < data.width,
    ensures
        i == y * data.width + x,
        0 <= i < data.frames@[0]@.pixels.len(),
        forall|k: int|
            #![trigger images(data.frames@)[k]]
            0 <= k < data.frames@.len() ==> images(data.frames@)[k].pixels.len()
                == data.frames@[0]@.pixels.len() && images(data.frames@)[k].nth(i)
                == data.frames@[k]@.at(y, x),
        ({
            let len = data.frames@[0]@.pixels.len();
            let cells = accumulated(len, images(data.frames@));
            let n = data.frames@.len();
            &&& cells.len() == len
            &&& data.sum@.at(y, x).bits == sum_at(cells[i])
            &&& data.mean@.at(y, x).bits == mean_at(cells[i], n)
            &&& data.max@.at(y, x) == cells[i].max
            &&& data.min@.at(y, x) == cells[i].min
            &&& data.std@.at(y, x).bits == std_at(cells[i], n)
        }),
{
    let i = y * data.width + x;
    let len = data.frames@[0]@.pixels.len();
    let all = images(data.frames@);
    lemma_cell(y, x, data.width as int, data.height as int);
    assert(data.width * data.height == data.height * data.width) by (nonlinear_arith);
    assert(data.sized(data.frames@[0]@));
    assert forall|k: int| #![trigger all[k]] 0 <= k < data.frames@.len() implies all[k].pixels.len()
        == len && all[k].nth(i) == data.frames@[k]@.at(y, x) by {
        assert(all[k] == data.frames@[k]@);
        assert(data.sized(data.frames@[k]@));
    }
    lemma_settled_accumulation(len, all);
    i
}

impl Screen {
    /// The image shown in mode Min has at every pixel a value that no frame goes below
    /// and that some frame has there, and the one in mode Max a value that no frame
    /// exceeds and that some frame has. (Where no frame has a number, they are
    /// infinite.)
    pub proof fn law_extremes_are_shown(self, data: FolderData, y: int, x: int)
        requires
            is_projected(data),
            0 <= y < data.height,
            0 <= x < data.width,
        ensures
            ({
                let v = self.shown(data)@.at(y, x);
                let takes = |w: Binary32|
                    exists|k: int|
                        0 <= k < data.frames@.len() && #[trigger] data.frames@[k]@.at(y, x) == w;
                &&& self.mode == DisplayMode::Min ==> {
                    &&& !v.not_a_number()
                    &&& forall|k: int|
                        #![trigger data.frames@[k]]
                        0 <= k < data.frames@.len() ==> !data.frames@[k]@.at(y, x).below(v)
                    &&& takes(v) || v == Binary32::infinity()
                }
                &&& self.mode == DisplayMode::Max ==> {
                    &&& !v.not_a_number()
                    &&& forall|k: int|
                        #![trigger data.frames@[k]]
                        0 <= k < data.frames@.len() ==> !v.below(data.frames@[k]@.at(y, x))
                    &&& takes(v) || v == Binary32::minus_infinity()
                }
            }),
    {
        let i = lemma_place(data, y, x);
        let all = images(data.frames@);
        let len = data.frames@[0]@.pixels.len();
        law_projections_are_extremes(len, all, i);
        let cell = accumulated(len, all)[i];
        let values = pixel_values(all, i);
        assert forall|k: int| #![trigger data.frames@[k]] 0 <= k < data.frames@.len() implies values[k]
            == data.frames@[k]@.at(y, x) by {
            assert(all[k].nth(i) == data.frames@[k]@.at(y, x));
        }
        if values.contains(cell.max) {
            let k = choose|k: int| 0 <= k < values.len() && values[k] == cell.max;
            assert(data.frames@[k]@.at(y, x) == cell.max);
        }
        if values.contains(cell.min) {
            let k = choose|k: int| 0 <= k < values.len() && values[k] == cell.min;
            assert(data.frames@[k]@.at(y, x) == cell.min);
        }
        assert forall|k: int| #![trigger data.frames@[k]] 0 <= k < data.frames@.len() implies !cell.max.below(
            data.frames@[k]@.at(y, x),
        ) && !data.frames@[k]@.at(y, x).below(cell.min) by {
            assert(values[k] == data.frames@[k]@.at(y, x));
        }
    }

    /// Over a stack of counts, mode Integrated shows the sum of the counts that a pixel
    /// takes; mode Mean shows a value between any bounds of them, the mean itself where
    /// it is a whole number; and mode Std shows nothing where they are all the same.
    pub proof fn law_sums_and_means_are_shown(
        self,
        data: FolderData,
        y: int,
        x: int,
        counts: Seq<nat>,
        lo: nat,
        hi: nat,
    )
        requires
            is_projected(data),
            0 <= y < data.height,
            0 <= x < data.width,
            counts.len() == data.frames@.len(),
            forall|k: int|
                #![trigger counts[k]]
                0 <= k < counts.len() ==> counts[k] <= single_limit() && data.frames@[k]@.at(y, x)
                    == Binary32::nearest_to(counts[k]),
            total(counts) <= double_limit(),
            total(squares(counts)) <= double_limit(),
            counts.len() <= double_limit(),
            lo * counts.len() <= total(counts) <= hi * counts.len(),
            hi <= single_limit(),
        ensures
            ({
                let v = self.shown(data)@.at(y, x);
                &&& self.mode == DisplayMode::Integrated ==> v == Binary32::nearest_to(
                    total(counts),
                )
                &&& self.mode == DisplayMode::Mean ==> {
                    &&& !v.below(Binary32::nearest_to(lo))
                    &&& !Binary32::nearest_to(hi).below(v)
                    &&& total(counts) == lo * counts.len() ==> v == Binary32::nearest_to(lo)
                }
                &&& self.mode == DisplayMode::Std && (forall|k: int|
                    0 <= k < counts.len() ==> #[trigger] counts[k] == lo) ==> v == Binary32::zero()
            }),
    {
        let i = lemma_place(data, y, x);
        let all = images(data.frames@);
        let len = data.frames@[0]@.pixels.len();
        let n = data.frames@.len();
        assert forall|k: int|
            #![trigger all[k]]
            #![trigger counts[k]]
            0 <= k < all.len() implies i < all[k].pixels.len() && counts[k] <= single_limit()
            && all[k].pixels[i] == Binary32::nearest_to(counts[k]).bits by {
            assert(all[k].nth(i) == data.frames@[k]@.at(y, x));
        }
        law_accumulated_counts_are_exact(len, all, i, counts);
        let cell = accumulated(len, all)[i];
        law_shown_sum_is_nearest(cell, total(counts));
        law_shown_mean_lies_between(cell, total(counts), n, lo, hi);
        if forall|k: int| 0 <= k < counts.len() ==> #[trigger] counts[k] == lo {
            assert(counts =~= Seq::new(n, |k: int| lo));
            assert(squares(counts) =~= Seq::new(n, |k: int| lo * lo));
            lemma_total_of_equal(n, lo);
            lemma_total_of_equal(n, lo * lo);
            assert(lo * lo <= n * (lo * lo)) by (nonlinear_arith)
                requires
                    n >= 1,
            ;
            assert(lo <= hi) by (nonlinear_arith)
                requires
                    lo * n <= hi * n,
                    n > 0,
            ;
            law_constant_pixel_has_no_deviation(cell, lo, n);
        }
    }

    /// In mode Single the image picked with the slider is shown as it is.
    pub proof fn law_picked_image_is_shown(self, data: FolderData)
        requires
            data.wf(),
            self.mode == DisplayMode::Single,
            self.player.frame_idx < data.frames@.len(),
        ensures
            self.shown(data) == data.frames@[self.player.frame_idx as int],
    {
    }

    /// Whatever is shown has the size of the stack.
    pub proof fn law_shown_image_has_the_size_of_the_stack(self, data: FolderData)
        requires
            data.wf(),
        ensures
            self.shown(data)@.rows == data.height,
            self.shown(data)@.cols == data.width,
            self.shown(data)@.pixels.len() == data.height * data.width,
    {
        assert(data.sized(data.frames@[data.frames@.len() - 1]@));
        if self.player.frame_idx < data.frames@.len() {
            assert(data.sized(data.frames@[self.player.frame_idx as int]@));
        }
    }
}

// ----- contrast, zoom and play -----------------------------------------------------------

impl Screen {
    /// Limits that are the same, or the wrong way round, are taken to be `1e-12` apart: from
    /// the lower one on, the colours run over that width.
    pub proof fn law_narrow_contrast_is_widened(v: Binary32, c: Contrast)
        requires
            v.finite(),
            c.vmin.finite(),
            c.vmax.finite(),
            !c.vmin.below(c.vmax),
        ensures
            !c.vmin.below(v) ==> colour_index(v, c) == 0,
            (Format::Single.value(v.raw()) - Format::Single.value(c.vmin.raw())) * trillion()
                >= pow2(149) ==> colour_index(v, c) == 255,
    {
        let f = Format::Single;
        lemma_zero_difference(c.vmin);
        lemma_difference_keeps_order(f, c.vmax.raw(), c.vmin.raw(), c.vmin.raw());
        assert(contrast_span(c) == smallest_span());
        if !c.vmin.below(v) {
            lemma_index_of_nothing(v, c);
        }
        let d = f.value(v.raw()) - f.value(c.vmin.raw());
        if d * trillion() >= pow2(149) {
            let n = f.negated(c.vmin.raw());
            assert(f.value(n) == -f.value(c.vmin.raw()));
            lemma_rank_of_sum(f, v.raw(), n);
            lemma_smallest_span();
            lemma_pow2_pos(149);
            assert(d > 0) by (nonlinear_arith)
                requires
                    d * trillion() > 0,
            ;
            assert(f.units(0x2b8c_bccc) <= d) by (nonlinear_arith)
                requires
                    f.units(0x2b8c_bccc) * trillion() < d * trillion(),
            ;
            lemma_rounded_at_least(f, d as nat, 1, 0x2b8c_bccc);
            crate::round::lemma_rounded_is_nearest(f, d as nat, 1);
            lemma_index_of_everything(v, c);
        }
    }

    /// Whatever changes what is drawn asks for a new picture.
    pub proof fn law_every_change_is_drawn(
        self,
        mode: DisplayMode,
        idx: usize,
        n: nat,
        now: u64,
        vmin: Binary32,
        vmax: Binary32,
    )
        ensures
            self.in_mode(mode) == self || self.in_mode(mode).img_dirty,
            self.on_frame(idx as nat, n).img_dirty,
            self.slid_to(idx).img_dirty,
            self.with_contrast(vmin, vmax).img_dirty,
            self.with_auto_contrast().img_dirty,
            self.advanced(now, n).player == self.player || self.advanced(now, n).img_dirty,
    {
    }

    /// The contrast limits are those that were set, and automatic contrast puts them
    /// back to where they were when the mode was chosen.
    pub proof fn law_automatic_contrast_takes_changes_back(
        self,
        mode: DisplayMode,
        vmin: Binary32,
        vmax: Binary32,
    )
        requires
            self.mode != mode,
        ensures
            ({
                let s = self.in_mode(mode);
                let t = s.with_contrast(vmin, vmax);
                &&& t.contrast.vmin == vmin
                &&& t.contrast.vmax == vmax
                &&& t.with_auto_contrast().contrast == s.contrast
            }),
    {
    }

    /// Playing ends when something else than single images is shown: nothing else is
    /// played, and coming back to them does not go on with it.
    pub proof fn law_playing_ends_with_the_single_images(self, mode: DisplayMode)
        requires
            mode != DisplayMode::Single,
            self.mode != mode,
        ensures
            !self.in_mode(mode).player.playing,
            !self.in_mode(mode).in_mode(DisplayMode::Single).is_playing(),
            self.in_mode(mode).in_mode(DisplayMode::Single).player.frame_idx
                == self.player.frame_idx,
            self.in_mode(self.mode) == self,
    {
    }

    /// The slider picks the image that is shown, and stops playing; an image that is
    /// not there gives way to the last one.
    pub proof fn law_slider_picks_the_image(self, data: FolderData, idx: usize)
        requires
            data.wf(),
        ensures
            ({
                let s = self.on_frame(idx as nat, data.frames@.len());
                &&& s.mode == DisplayMode::Single
                &&& !s.is_playing()
                &&& s.shown(data) == data.frames@[if idx < data.frames@.len() {
                    idx as int
                } else {
                    data.frames@.len() - 1
                }]
            }),
            self.mode == DisplayMode::Single && idx < data.frames@.len() ==> self.slid_to(
                idx,
            ).shown(data) == data.frames@[idx as int] && !self.slid_to(idx).is_playing(),
    {
    }

    /// While playing, an image is shown for 80 milliseconds before the next one; started
    /// anew, playing goes on at once. Starting and stopping undo each other.
    pub proof fn law_playing_keeps_its_pace(self, now: u64, later: u64, n: nat)
        requires
            n > 0,
            self.player.frame_idx < n <= usize::MAX,
            self.is_playing(),
            advance_due(self.player.last_advance, now),
            now <= later,
        ensures
            ({
                let s = self.advanced(now, n);
                &&& later - now < 80_000_000 ==> s.advanced(later, n) == s
                &&& later - now >= 80_000_000 && n > 1 ==> s.advanced(later, n).player.frame_idx
                    != s.player.frame_idx
                &&& s.player.playing
            }),
            !self.toggled().is_playing(),
            self.toggled().toggled().is_playing(),
            advance_due(self.toggled().toggled().player.last_advance, now),
            self.toggled().player.frame_idx == self.player.frame_idx,
    {
        let s = self.advanced(now, n);
        self.law_playing_runs_through_the_stack(now, n);
        if later - now >= 80_000_000 {
            s.law_playing_runs_through_the_stack(later, n);
        }
    }

    /// A zoom step in makes the image a quarter larger, and a zoom step out undoes it.
    pub proof fn law_zoom_steps_undo_each_other(self, k: int)
        requires
            1 <= k <= 12,
        ensures
            self.scale == whole(4 * k) ==> self.zoomed_in().scale == whole(5 * k),
            self.scale == whole(5 * k) ==> self.zoomed_out().scale == whole(4 * k),
    {
        let f = Format::Single;
        let p = pow2(149);
        lemma_pow2_pos(149);
        let z = f.units(0x3fa0_0000);
        lemma_zoom_codes();
        lemma_whole(4 * k);
        lemma_whole(5 * k);
        lemma_whole_order(5 * k, 64);
        lemma_whole_order(4 * k, 1);
        lemma_zero_and_one();
        // In.
        assert(((4 * k) * p) * z == ((5 * k) * p) * p) by (nonlinear_arith)
            requires
                4 * z == 5 * p,
        ;
        assert((5 * k) * p >= 0 && (4 * k) * p >= 0) by (nonlinear_arith)
            requires
                k >= 1,
                p > 0,
        ;
        lemma_rounded_scaled(f, ((5 * k) * p) as nat, 1, p);
        assert(1 * p == p);
        // Out.
        assert(((5 * k) * p) * p == ((4 * k) * p) * z) by (nonlinear_arith)
            requires
                4 * z == 5 * p,
        ;
        lemma_rounded_scaled(f, ((4 * k) * p) as nat, 1, z);
        assert(1 * z == z);
    }

    /// A whole image is fitted as large as it can be: where `m` times its width and `n`
    /// times its height fill the space above the slider, the zoom is the smaller one of
    /// `m` and `n`. It is fitted once for every time that is asked for.
    pub proof fn law_whole_image_is_fitted(
        self,
        w: usize,
        h: usize,
        m: int,
        n: int,
        slider: int,
    )
        requires
            0 < w,
            0 < h,
            1 <= m <= 64,
            1 <= n <= 64,
            0 <= slider <= 0x80_0000,
            w * m <= 0x80_0000,
            h * n <= 0x80_0000,
            self.fit_requested,
        ensures
            ({
                let s = self.fitted(whole_point(w * m, h * n + slider), whole(slider), w, h);
                &&& s.scale == whole(
                    if m < n {
                        m
                    } else {
                        n
                    },
                )
                &&& !s.fit_requested
                &&& s.fitted(whole_point(w * m, h * n + slider), whole(slider), w, h) == s
            }),
    {
        assert(w <= 0x80_0000 && h <= 0x80_0000 && w * m >= 1 && h * n >= 1) by (nonlinear_arith)
            requires
                0 < w,
                0 < h,
                1 <= m,
                1 <= n,
                w * m <= 0x80_0000,
                h * n <= 0x80_0000,
        ;
        lemma_whole_difference(h * n + slider, slider);
        lemma_zero_and_one();
        lemma_whole_order(h * n, 1);
        lemma_whole(h * n);
        lemma_whole(m);
        lemma_whole(n);
        assert(m * w == w * m && n * h == h * n) by (nonlinear_arith);
        lemma_whole_quotient(m, w as int);
        lemma_whole_quotient(n, h as int);
        lemma_whole_order(n, m);
        let k = if m < n {
            m
        } else {
            n
        };
        lemma_zoom_codes();
        lemma_whole_order(64, k);
        lemma_whole_order(k, 1);
    }

    /// An image that is larger than the space is fitted by the same rule: where `t` times
    /// its width goes into `s` times the space, and `v` times its height into `u` times
    /// the space above the slider, the zoom is the smaller one of `s / t` and `u / v`.
    pub proof fn law_large_image_is_fitted(
        self,
        w: usize,
        h: usize,
        across: Binary32,
        down: Binary32,
        k: (int, int),
        st: (int, int),
        uv: (int, int),
        slider: int,
    )
        requires
            self.fit_requested,
            is_fraction(across, st.0, st.1),
            is_fraction(down, uv.0, uv.1),
            usual_scale(across),
            usual_scale(down),
            k.0 > 0,
            k.1 > 0,
            w == k.0 * st.1,
            h == k.1 * uv.1,
            k.0 * st.0 <= 0x80_0000,
            k.1 * uv.0 <= 0x80_0000,
            w <= 0x80_0000,
            h <= 0x80_0000,
            0 <= slider <= 0x80_0000,
        ensures
            self.fitted(
                whole_point(k.0 * st.0, k.1 * uv.0 + slider),
                whole(slider),
                w,
                h,
            ).scale == (if down.below(across) {
                down
            } else {
                across
            }),
    {
        let (a, b) = (k.0 * st.0, k.1 * uv.0);
        assert(a > 0 && b > 0 && k.0 * st.1 > 0 && k.1 * uv.1 > 0) by (nonlinear_arith)
            requires
                a == k.0 * st.0,
                b == k.1 * uv.0,
                k.0 > 0,
                k.1 > 0,
                st.0 > 0,
                st.1 > 0,
                uv.0 > 0,
                uv.1 > 0,
        ;
        lemma_whole_difference(b + slider, slider);
        lemma_zero_and_one();
        lemma_whole_order(b, 1);
        lemma_whole(b);
        lemma_whole_ratio(k.0, across, st.0, st.1);
        lemma_whole_ratio(k.1, down, uv.0, uv.1);
    }

    /// Where the slider leaves no space, the image is fitted into a single point of height.
    pub proof fn law_image_is_fitted_without_space(
        self,
        w: usize,
        h: usize,
        m: int,
        down: Binary32,
        height: int,
        slider: int,
    )
        requires
            self.fit_requested,
            0 < w,
            0 < h <= 0x80_0000,
            1 <= m <= 64,
            w * m <= 0x80_0000,
            is_fraction(down, 1, h as int),
            usual_scale(down),
            0 <= height <= slider <= 0x80_0000,
        ensures
            self.fitted(whole_point(w * m, height), whole(slider), w, h).scale == down,
    {
        assert(w <= 0x80_0000 && w * m >= 1) by (nonlinear_arith)
            requires
                0 < w,
                1 <= m,
                w * m <= 0x80_0000,
        ;
        lemma_whole_difference(height, slider);
        lemma_zero_and_one();
        lemma_whole(height - slider);
        lemma_whole(m);
        lemma_whole_order(height - slider, 1);
        lemma_whole_order(1, height - slider);
        assert(m * w == w * m) by (nonlinear_arith);
        lemma_whole_quotient(m, w as int);
        lemma_whole_ratio(1, down, 1, h as int);
        // A fraction of one is not larger than one.
        lemma_whole_order(m, 1);
        let f = Format::Single;
        let p = pow2(149);
        lemma_pow2_pos(149);
        lemma_whole(1);
        let u = f.units(down.raw());
        assert(u <= p) by (nonlinear_arith)
            requires
                u * h == 1 * p,
                h >= 1,
        ;
        crate::monotone::lemma_order_of_values(f, whole(1).raw(), down.raw());
        assert(1 * p == p);
        assert(!whole(1).below(down));
        assert(!whole(m).below(down));
        if !down.below(whole(m)) {
            assert(down.equals(whole(m)));
            assert(f.rank(down.raw()) == f.rank(whole(m).raw()));
        }
    }

    /// Where the values on screen span 200 times `k`, a step of the mouse changes a
    /// contrast limit by `k`.
    pub proof fn law_contrast_is_set_in_200_steps(self, lo: int, k: int)
        requires
            1 <= k <= 0x1_0000,
            is_small(lo),
            is_small(lo + 200 * k),
            self.contrast.data_min == whole(lo),
            self.contrast.data_max == whole(lo + 200 * k),
        ensures
            self.contrast_step() == whole(k),
    {
        lemma_whole_difference(lo + 200 * k, lo);
        lemma_zero_and_one();
        lemma_whole_order(200 * k, 1);
        lemma_whole(200 * k);
        lemma_zoom_codes();
        assert(k * 200 == 200 * k);
        lemma_whole_quotient(k, 200);
    }
}

/// The codes of 1.25, 64 and 200 in single precision.
proof fn lemma_zoom_codes()
    ensures
        4 * Format::Single.units(0x3fa0_0000) == 5 * pow2(149),
        largest_scale() == whole(64),
        contrast_steps() == whole(200),
{
    let f = Format::Single;
    let p = pow2(149);
    assert(4 * f.units(0x3fa0_0000) == 5 * p && f.units(0x4280_0000) == 64 * p && f.units(
        0x4348_0000,
    ) == 200 * p) by {
        reveal(Format::units);
        vstd::arithmetic::power2::lemma2_to64();
        assert(0x3fa0_0000nat / f.unit() == 127 && 0x3fa0_0000nat % f.unit() == 0x20_0000);
        assert(0x4280_0000nat / f.unit() == 133 && 0x4280_0000nat % f.unit() == 0);
        assert(0x4348_0000nat / f.unit() == 134 && 0x4348_0000nat % f.unit() == 0x48_0000);
        lemma_pow2_adds(23, 126);
        lemma_pow2_adds(17, 132);
        lemma_pow2_adds(16, 133);
        assert(4 * (0xa0_0000 * pow2(126)) == 5 * (0x80_0000 * pow2(126))) by (nonlinear_arith);
        assert(0x80_0000 * pow2(132) == 64 * (0x2_0000 * pow2(132))) by (nonlinear_arith);
        assert(0xc8_0000 * pow2(133) == 200 * (0x1_0000 * pow2(133))) by (nonlinear_arith);
    }
    lemma_whole_code(64, 0x4280_0000);
    lemma_whole_code(200, 0x4348_0000);
}

} // verus!
