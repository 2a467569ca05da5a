//! The crop being edited: its undo history, and dragging on the image.
use crate::binary::Binary32;
use crate::crop::{whole_rect, CropRect, RectF};
use crate::float::lemma_round_of_integer;
use crate::handles::{
    all_finite, all_handles, find_hit, handle_place, hit, law_handle_follows_the_mouse, resize_rect,
    resized, Handle, Point,
};
use crate::integers::{
    is_small, lemma_whole, lemma_whole_difference, lemma_whole_order, lemma_whole_root, lemma_whole_square,
    lemma_whole_sum,
};
use crate::round::{lemma_rounded_zero_over, lemma_units_of_zero, Format};
use crate::screen::whole_point;
use vstd::arithmetic::power2::{lemma_pow2_pos, pow2};
use vstd::prelude::*;

verus! {

/// How many steps can be undone.
pub const UNDO_DEPTH: usize = 24;

/// What the mouse is doing to the crop.
#[derive(Clone, Copy, PartialEq, Eq, Structural, Debug)]
pub struct Drag {
    pub drawing: bool,
    pub moving: bool,
    pub resizing: Option<Handle>,
    /// An undo snapshot was taken for the current drag.
    pub changed: bool,
    pub move_last: Option<Point>,
    pub start: Option<Point>,
}

impl Drag {
    /// Nothing.
    pub open spec fn idle() -> Drag {
        Drag {
            drawing: false,
            moving: false,
            resizing: None,
            changed: false,
            move_last: None,
            start: None,
        }
    }
}

/// The crop with its history.
pub struct Editor {
    pub crop: Option<RectF>,
    /// Crop passed on the command line (a previous session's crop), kept as a
    /// dashed reference outline.
    pub initial_crop: Option<CropRect>,
    pub undo: Vec<Option<RectF>>,
    pub drag: Drag,
}

/// What an editor holds.
#[verifier::ext_equal]
pub struct Edit {
    pub crop: Option<RectF>,
    pub initial_crop: Option<CropRect>,
    pub undo: Seq<Option<RectF>>,
    pub drag: Drag,
}

impl View for Editor {
    type V = Edit;

    open spec fn view(&self) -> Edit {
        Edit {
            crop: self.crop,
            initial_crop: self.initial_crop,
            undo: self.undo@,
            drag: self.drag,
        }
    }
}

/// Both crops are the same.
pub open spec fn same_crop(a: Option<RectF>, b: Option<RectF>) -> bool {
    match (a, b) {
        (Some(a), Some(b)) => a.equals(b),
        (None, None) => true,
        _ => false,
    }
}

/// The rectangle between two corners.
pub open spec fn spanned(a: Point, b: Point) -> RectF {
    RectF { x0: a.x, y0: a.y, x1: b.x, y1: b.y }
}

/// The length of the line between two points.
pub open spec fn length(a: Point, c: Point) -> Binary32 {
    let (dx, dy) = (c.x.spec_minus(a.x), c.y.spec_minus(a.y));
    dx.spec_times(dx).spec_plus(dy.spec_times(dy)).spec_root()
}

impl Edit {
    /// The undo history is bounded.
    pub open spec fn wf(self) -> bool {
        self.undo.len() <= UNDO_DEPTH
    }

    /// The history with the crop remembered; the oldest entry is forgotten when
    /// there are too many.
    pub open spec fn remembered(self) -> Edit {
        let all = self.undo.push(self.crop);
        Edit {
            undo: if all.len() > UNDO_DEPTH {
                all.skip(1)
            } else {
                all
            },
            ..self
        }
    }

    /// One step back, if there is one.
    pub open spec fn undone(self) -> Edit {
        if self.undo.len() > 0 {
            Edit { crop: self.undo.last(), undo: self.undo.drop_last(), ..self }
        } else {
            self
        }
    }

    /// Another crop, in a way that can be undone.
    pub open spec fn with_crop(self, crop: Option<RectF>) -> Edit {
        if same_crop(self.crop, crop) {
            self
        } else {
            Edit { crop, ..self.remembered() }
        }
    }

    /// The crop in whole pixels of an image; one step back when nothing is left
    /// of it.
    pub open spec fn snapped(self, w: usize, h: usize) -> Edit {
        match self.crop {
            Some(r) => match r.crop_on(w, h) {
                Some(c) => Edit { crop: Some(c.as_rectf()), ..self },
                None => self.undone(),
            },
            None => self,
        }
    }

    /// The mouse was pressed at `press` and has moved to `cur`, with the given
    /// distances from the handles of the crop: a handle is grabbed, or the
    /// crop, or a new crop is begun.
    pub open spec fn begun(
        self,
        press: Option<Point>,
        cur: Option<Point>,
        distances: Seq<Binary32>,
    ) -> Edit {
        let fresh = Edit { drag: Drag { changed: false, ..self.drag }, ..self };
        match press {
            None => fresh,
            Some(start) => match (self.crop, hit(distances)) {
                (Some(_), Some(h)) => Edit {
                    drag: Drag { resizing: Some(h), ..fresh.drag },
                    ..fresh
                },
                (Some(r), None) if r.covers(start.x, start.y) => Edit {
                    drag: Drag {
                        moving: true,
                        move_last: match cur {
                            Some(c) => Some(c),
                            None => Some(start),
                        },
                        ..fresh.drag
                    },
                    ..fresh
                },
                _ => Edit {
                    crop: Some(spanned(start, start)),
                    drag: Drag { changed: true, drawing: true, start: Some(start), ..fresh.drag },
                    ..fresh.remembered()
                },
            },
        }
    }

    /// The history with a snapshot, taken once, on the first real movement of a
    /// move or resize.
    pub open spec fn with_snapshot(self) -> Edit {
        if (self.drag.moving || self.drag.resizing is Some) && !self.drag.changed {
            Edit { drag: Drag { changed: true, ..self.drag }, ..self.remembered() }
        } else {
            self
        }
    }

    /// The mouse was dragged to `cur`.
    pub open spec fn dragged(self, cur: Option<Point>) -> Edit {
        let e = self.with_snapshot();
        match cur {
            None => e,
            Some(c) => if e.drag.resizing is Some {
                match e.crop {
                    Some(r) => Edit { crop: Some(resized(r, e.drag.resizing->0, c)), ..e },
                    None => e,
                }
            } else if e.drag.moving {
                match e.drag.move_last {
                    Some(last) => Edit {
                        crop: match e.crop {
                            Some(r) => Some(
                                r.moved(c.x.spec_minus(last.x), c.y.spec_minus(last.y)),
                            ),
                            None => None,
                        },
                        drag: Drag { move_last: cur, ..e.drag },
                        ..e
                    },
                    None => e,
                }
            } else if e.drag.drawing {
                match e.drag.start {
                    Some(a) => Edit { crop: Some(spanned(a, c)), ..e },
                    None => e,
                }
            } else {
                e
            },
        }
    }

    /// Dragging to `cur` changes the crop.
    pub open spec fn drag_changes(self, cur: Option<Point>) -> bool {
        &&& cur is Some
        &&& if self.drag.resizing is Some {
            self.crop is Some
        } else if self.drag.moving {
            self.drag.move_last is Some && self.crop is Some
        } else {
            self.drag.drawing && self.drag.start is Some
        }
    }

    /// The mouse was released at `cur`: a crop that never grew beyond a click
    /// is dropped, and the crop is snapped to whole pixels.
    pub open spec fn released(self, cur: Option<Point>, w: usize, h: usize) -> Edit {
        let e = if self.drag.drawing && self.drag.start is Some && length(
            self.drag.start->0,
            match cur {
                Some(c) => c,
                None => self.drag.start->0,
            },
        ).below(Binary32::one()) {
            self.undone()
        } else {
            self
        };
        (Edit { drag: Drag::idle(), ..e }).snapped(w, h)
    }
}

impl Editor {
    pub fn push_undo(&mut self)
        requires
            old(self)@.wf(),
        ensures
            final(self)@ == old(self)@.remembered(),
            final(self)@.wf(),
    {
        self.undo.push(self.crop);
        if self.undo.len() > UNDO_DEPTH {
            self.undo.remove(0);
        }
        proof {
            assert(self@ =~= old(self)@.remembered());
        }
    }

    /// Go one step back. Returns whether there was one.
    pub fn undo(&mut self) -> (changed: bool)
        requires
            old(self)@.wf(),
        ensures
            final(self)@ == old(self)@.undone(),
            final(self)@.wf(),
            changed == (old(self)@.undo.len() > 0),
    {
        match self.undo.pop() {
            Some(prev) => {
                self.crop = prev;
                proof {
                    assert(self@ =~= old(self)@.undone());
                }
                true
            },
            None => {
                proof {
                    assert(self@ =~= old(self)@);
                }
                false
            },
        }
    }

    /// Set the crop, in a way that can be undone. Returns whether it is another
    /// one.
    pub fn set_crop(&mut self, crop: Option<RectF>) -> (changed: bool)
        requires
            old(self)@.wf(),
        ensures
            final(self)@ == old(self)@.with_crop(crop),
            final(self)@.wf(),
            changed == !same_crop(old(self)@.crop, crop),
    {
        let same: bool = match (self.crop, crop) {
            (Some(a), Some(b)) => a.is_equal(b),
            (None, None) => true,
            _ => false,
        };
        if !same {
            self.push_undo();
            self.crop = crop;
        }
        !same
    }

    /// Snap the live rectangle to whole pixels (as saved); drop it when it is
    /// degenerate, restoring the pre-drag state.
    pub fn snap_crop(&mut self, w: usize, h: usize)
        requires
            old(self)@.wf(),
        ensures
            final(self)@ == old(self)@.snapped(w, h),
            final(self)@.wf(),
    {
        if let Some(r) = self.crop {
            match r.to_crop(w, h) {
                Some(c) => {
                    self.crop = Some(c.to_rectf());
                },
                None => {
                    self.undo();
                },
            }
        }
    }

    /// Resize a handle, move the crop, or draw a new one (replacing the old).
    pub fn begin_drag(
        &mut self,
        press: Option<Point>,
        cur: Option<Point>,
        distances: &Vec<Binary32>,
    )
        requires
            old(self)@.wf(),
        ensures
            final(self)@ == old(self)@.begun(press, cur, distances@),
            final(self)@.wf(),
    {
        self.drag.changed = false;
        if let Some(start) = press {
            if let Some(r) = self.crop {
                // A resize handle of the crop.
                if let Some(h) = find_hit(distances) {
                    self.drag.resizing = Some(h);
                    return ;
                }
                // Grab the crop to move it.
                if r.contains(start.x, start.y) {
                    self.drag.moving = true;
                    self.drag.move_last = match cur {
                        Some(c) => Some(c),
                        None => Some(start),
                    };
                    return ;
                }
            }
            // Otherwise start drawing a new crop (snapshot now, so undo
            // restores the previous one).
            self.push_undo();
            self.drag.changed = true;
            self.crop = Some(RectF { x0: start.x, y0: start.y, x1: start.x, y1: start.y });
            self.drag.drawing = true;
            self.drag.start = Some(start);
        }
    }

    /// Go on with a drag. Returns whether the crop was changed.
    pub fn continue_drag(&mut self, cur: Option<Point>) -> (changed: bool)
        requires
            old(self)@.wf(),
        ensures
            final(self)@ == old(self)@.dragged(cur),
            final(self)@.wf(),
            changed == old(self)@.drag_changes(cur),
    {
        if (self.drag.moving || self.drag.resizing.is_some()) && !self.drag.changed {
            self.push_undo();
            self.drag.changed = true;
        }
        let ghost e = self@;
        assert(e == old(self)@.with_snapshot());
        let c: Point = match cur {
            Some(c) => c,
            None => return false,
        };
        if let Some(h) = self.drag.resizing {
            if let Some(r) = self.crop {
                let mut n: RectF = r;
                resize_rect(&mut n, h, c);
                self.crop = Some(n);
                return true;
            }
        } else if self.drag.moving {
            if let Some(last) = self.drag.move_last {
                self.drag.move_last = cur;
                if let Some(r) = self.crop {
                    let mut n: RectF = r;
                    n.translate(c.x.minus(last.x), c.y.minus(last.y));
                    self.crop = Some(n);
                    return true;
                }
            }
        } else if self.drag.drawing {
            if let Some(a) = self.drag.start {
                self.crop = Some(RectF { x0: a.x, y0: a.y, x1: c.x, y1: c.y });
                return true;
            }
        }
        false
    }

    /// End a drag on an image of the given size.
    pub fn end_drag(&mut self, cur: Option<Point>, w: usize, h: usize)
        requires
            old(self)@.wf(),
        ensures
            final(self)@ == old(self)@.released(cur, w, h),
            final(self)@.wf(),
    {
        if self.drag.drawing {
            // Drop a crop that never grew beyond a click.
            if let Some(a) = self.drag.start {
                let c: Point = match cur {
                    Some(c) => c,
                    None => a,
                };
                let dx: Binary32 = c.x.minus(a.x);
                let dy: Binary32 = c.y.minus(a.y);
                let dist: Binary32 = dx.times(dx).plus(dy.times(dy)).root();
                if dist.is_below(Binary32::one()) {
                    self.undo();
                }
            }
        }
        self.drag = Drag {
            drawing: false,
            moving: false,
            resizing: None,
            changed: false,
            move_last: None,
            start: None,
        };
        self.snap_crop(w, h);
    }
}

/// A finite number less itself is zero.
proof fn lemma_no_difference(a: Binary32)
    requires
        a.finite(),
    ensures
        a.spec_minus(a) == (Binary32::zero()),
{
    let f = Format::Single;
    let b = f.negated(a.raw());
    lemma_rounded_zero_over(f, 1);
    assert(f.value(a.raw()) + f.value(b) == 0);
}

/// A point has no distance from itself.
proof fn lemma_no_length(p: Point)
    requires
        p.x.finite(),
        p.y.finite(),
    ensures
        length(p, p).below(Binary32::one()),
{
    let f = Format::Single;
    let zero = Binary32::zero();
    lemma_no_difference(p.x);
    lemma_no_difference(p.y);
    lemma_units_of_zero(f);
    lemma_pow2_pos(f.scale());
    lemma_rounded_zero_over(f, pow2(f.scale()));
    assert(f.units(0) * f.units(0) == 0);
    assert(zero.spec_times(zero) == zero);
    assert(zero.spec_plus(zero) == zero);
    assert(zero.spec_root() == zero);
}

// ----- laws --------------------------------------------------------------------------

impl Edit {
    /// Setting another crop and undoing it brings the crop back, and the whole
    /// history as long as nothing had to be forgotten.
    pub proof fn law_undo_brings_the_crop_back(self, crop: Option<RectF>)
        requires
            self.wf(),
            !same_crop(self.crop, crop),
        ensures
            self.with_crop(crop).crop == crop,
            self.with_crop(crop).undone().crop == self.crop,
            self.undo.len() < UNDO_DEPTH ==> self.with_crop(crop).undone() == self,
    {
        if self.undo.len() < UNDO_DEPTH {
            assert(self.undo.push(self.crop).drop_last() =~= self.undo);
        }
    }

    /// The history stays bounded, whatever is done.
    pub proof fn law_history_stays_bounded(
        self,
        crop: Option<RectF>,
        press: Option<Point>,
        cur: Option<Point>,
        distances: Seq<Binary32>,
        w: usize,
        h: usize,
    )
        requires
            self.wf(),
        ensures
            self.remembered().wf(),
            self.undone().wf(),
            self.with_crop(crop).wf(),
            self.snapped(w, h).wf(),
            self.begun(press, cur, distances).wf(),
            self.dragged(cur).wf(),
            self.released(cur, w, h).wf(),
    {
    }

    /// Dragged to each of the points, one after the other.
    pub open spec fn dragged_along(self, way: Seq<Option<Point>>) -> Edit
        decreases way.len(),
    {
        if way.len() == 0 {
            self
        } else {
            self.dragged_along(way.drop_last()).dragged(way.last())
        }
    }

    /// A drag beside the crop that ends less than one pixel from its start leaves
    /// no crop of its own, whichever way it took: what was there before is there
    /// again, in whole pixels, with the whole history as long as nothing had to be
    /// forgotten.
    pub proof fn law_click_leaves_the_crop(
        self,
        start: Point,
        first: Option<Point>,
        way: Seq<Option<Point>>,
        end: Option<Point>,
        distances: Seq<Binary32>,
        w: usize,
        h: usize,
    )
        requires
            self.wf(),
            self.drag == Drag::idle(),
            self.crop is Some ==> hit(distances) is None,
            self.crop matches Some(r) ==> !r.covers(start.x, start.y),
            length(
                start,
                match end {
                    Some(p) => p,
                    None => start,
                },
            ).below(Binary32::one()),
        ensures
            ({
                let e = self.begun(Some(start), first, distances).dragged_along(way).released(
                    end,
                    w,
                    h,
                );
                &&& e.crop == self.snapped(w, h).crop
                &&& self.undo.len() < UNDO_DEPTH ==> e == self.snapped(w, h)
            }),
    {
        let b = self.begun(Some(start), first, distances);
        b.lemma_drawn_along(way);
        let e = b.dragged_along(way);
        if self.undo.len() < UNDO_DEPTH {
            assert(e.undo.drop_last() =~= self.undo);
            assert(e.undone() =~= (Edit { drag: e.drag, ..self }));
        }
    }

    /// Drawing changes nothing but the crop.
    proof fn lemma_drawn_along(self, way: Seq<Option<Point>>)
        requires
            self.drag.drawing,
            !self.drag.moving,
            self.drag.resizing is None,
        ensures
            self.dragged_along(way) == (Edit { crop: self.dragged_along(way).crop, ..self }),
        decreases way.len(),
    {
        if way.len() > 0 {
            self.lemma_drawn_along(way.drop_last());
        }
    }

    /// A click, where the mouse does not move at all, is such a drag.
    pub proof fn law_click_has_no_length(start: Point)
        requires
            start.x.finite(),
            start.y.finite(),
        ensures
            length(start, start).below(Binary32::one()),
    {
        lemma_no_length(start);
    }

    /// Dragging and undoing it brings the crop back, and the whole history as long
    /// as nothing had to be forgotten.
    pub proof fn law_undo_of_a_drag(
        self,
        press: Point,
        first: Option<Point>,
        cur: Point,
        distances: Seq<Binary32>,
    )
        requires
            self.wf(),
            self.drag == Drag::idle(),
        ensures
            ({
                let e = self.begun(Some(press), first, distances).dragged(Some(cur));
                &&& e.undone().crop == self.crop
                &&& self.undo.len() < UNDO_DEPTH ==> e.undone().undo == self.undo
            }),
    {
        let e = self.begun(Some(press), first, distances).dragged(Some(cur));
        assert(self.undo.push(self.crop).drop_last() =~= self.undo);
    }

    /// The crop and everything that can be undone is in whole pixels of a
    /// `w` × `h` image.
    pub open spec fn at_rest(self, w: usize, h: usize) -> bool {
        whole(self.crop, w, h) && forall|i: int|
            0 <= i < self.undo.len() ==> whole(#[trigger] self.undo[i], w, h)
    }

    /// What holds during a drag that was begun at rest: there is a crop in whole
    /// pixels to return to.
    pub open spec fn in_drag(self, w: usize, h: usize) -> bool {
        &&& forall|i: int| 0 <= i < self.undo.len() ==> whole(#[trigger] self.undo[i], w, h)
        &&& whole(self.crop, w, h) || self.undo.len() > 0
        &&& (self.drag.moving || self.drag.resizing is Some) && !self.drag.changed ==> whole(
            self.crop,
            w,
            h,
        )
        &&& self.drag.changed || self.drag.drawing ==> self.undo.len() > 0
    }

    /// A drag begins with a crop to return to.
    pub proof fn law_drag_begins(
        self,
        press: Option<Point>,
        cur: Option<Point>,
        distances: Seq<Binary32>,
        w: usize,
        h: usize,
    )
        requires
            self.wf(),
            self.at_rest(w, h),
            self.drag == Drag::idle(),
        ensures
            self.begun(press, cur, distances).in_drag(w, h),
    {
        lemma_remembered(self, w, h);
    }

    /// Dragging keeps it.
    pub proof fn law_drag_goes_on(self, cur: Option<Point>, w: usize, h: usize)
        requires
            self.wf(),
            self.in_drag(w, h),
        ensures
            self.dragged(cur).in_drag(w, h),
    {
        if whole(self.crop, w, h) {
            lemma_remembered(self, w, h);
        }
    }

    /// However the mouse was dragged, the crop ends in whole pixels on the
    /// image: what is drawn is what is saved.
    pub proof fn law_drag_ends_in_whole_pixels(self, cur: Option<Point>, w: usize, h: usize)
        requires
            self.wf(),
            self.in_drag(w, h),
            w <= 0x100_0000,
            h <= 0x100_0000,
        ensures
            self.released(cur, w, h).at_rest(w, h),
            self.released(cur, w, h).drag == Drag::idle(),
    {
        if let Some(r) = self.crop {
            lemma_snapped_is_whole(r, w, h);
        }
        if self.undo.len() > 0 {
            assert(whole(self.undo[self.undo.len() - 1], w, h));
            let e = self.undone();
            assert forall|i: int| 0 <= i < e.undo.len() implies whole(#[trigger] e.undo[i], w, h) by {
                assert(e.undo[i] == self.undo[i]);
            }
        }
    }

    /// Undoing and setting a crop in whole pixels stay in whole pixels.
    pub proof fn law_edits_rest_on_whole_pixels(self, crop: Option<RectF>, w: usize, h: usize)
        requires
            self.wf(),
            self.at_rest(w, h),
            whole(crop, w, h),
        ensures
            self.undone().at_rest(w, h),
            self.with_crop(crop).at_rest(w, h),
            self.snapped(w, h) == self,
    {
        lemma_remembered(self, w, h);
        if self.undo.len() > 0 {
            assert(whole(self.undo[self.undo.len() - 1], w, h));
            let e = self.undone();
            assert forall|i: int| 0 <= i < e.undo.len() implies whole(#[trigger] e.undo[i], w, h) by {
                assert(e.undo[i] == self.undo[i]);
            }
        }
    }
}

/// There is no crop, or it is in whole pixels and on the image.
pub open spec fn whole(crop: Option<RectF>, w: usize, h: usize) -> bool {
    match crop {
        Some(r) => match r.crop_on(w, h) {
            Some(c) => r == c.as_rectf(),
            None => false,
        },
        None => true,
    }
}

proof fn lemma_snapped_is_whole(r: RectF, w: usize, h: usize)
    requires
        w <= 0x100_0000,
        h <= 0x100_0000,
    ensures
        r.crop_on(w, h) matches Some(c) ==> whole(Some(c.as_rectf()), w, h),
{
    if let Some(c) = r.crop_on(w, h) {
        r.law_crop_fits(w, h);
        c.law_snap_keeps_whole_pixels(w, h);
    }
}

proof fn lemma_remembered(e: Edit, w: usize, h: usize)
    requires
        e.wf(),
        whole(e.crop, w, h),
        forall|i: int| 0 <= i < e.undo.len() ==> whole(#[trigger] e.undo[i], w, h),
    ensures
        e.remembered().undo.len() > 0,
        forall|i: int|
            0 <= i < e.remembered().undo.len() ==> whole(#[trigger] e.remembered().undo[i], w, h),
{
    let all = e.undo.push(e.crop);
    let now = e.remembered().undo;
    assert forall|i: int| 0 <= i < now.len() implies whole(#[trigger] now[i], w, h) by {
        let k = if all.len() > UNDO_DEPTH {
            i + 1
        } else {
            i
        };
        assert(now[i] == all[k]);
        if k < e.undo.len() {
            assert(all[k] == e.undo[k]);
        }
    }
}

// ----- what a drag does ----------------------------------------------------------------

/// The length of a straight line, and of one whose sides make a whole number; no two
/// different points with whole coordinates are less than one apart.
proof fn lemma_length(ax: int, ay: int, bx: int, by: int, k: int)
    requires
        -0x10_0000 <= ax <= 0x10_0000,
        -0x10_0000 <= ay <= 0x10_0000,
        -0x800 <= bx - ax <= 0x800,
        -0x800 <= by - ay <= 0x800,
        ax != bx || ay != by,
    ensures
        !length(whole_point(ax, ay), whole_point(bx, by)).below(Binary32::one()),
        k >= 0 && k * k == (bx - ax) * (bx - ax) + (by - ay) * (by - ay) ==> length(
            whole_point(ax, ay),
            whole_point(bx, by),
        ) == number(k),
{
    let (dx, dy) = (bx - ax, by - ay);
    assert(0 <= dx * dx <= 0x40_0000 && 0 <= dy * dy <= 0x40_0000 && dx * dx + dy * dy > 0)
        by (nonlinear_arith)
        requires
            -0x800 <= dx <= 0x800,
            -0x800 <= dy <= 0x800,
            dx != 0 || dy != 0,
    ;
    lemma_whole_difference(bx, ax);
    lemma_whole_difference(by, ay);
    lemma_whole_square(dx);
    lemma_whole_square(dy);
    lemma_whole_sum(dx * dx, dy * dy);
    lemma_whole_root(dx * dx + dy * dy, k);
}

/// Between points with whole coordinates, lengths are those of geometry: a line of `k`
/// pixels to the side has the length `k`, and the sides of a right triangle give the
/// length of its longest side.
pub proof fn law_length_is_that_of_geometry(ax: int, ay: int, bx: int, by: int, k: int)
    requires
        -0x10_0000 <= ax <= 0x10_0000,
        -0x10_0000 <= ay <= 0x10_0000,
        -0x800 <= bx - ax <= 0x800,
        -0x800 <= by - ay <= 0x800,
        0 < k,
        k * k == (bx - ax) * (bx - ax) + (by - ay) * (by - ay),
    ensures
        length(whole_point(ax, ay), whole_point(bx, by)) == number(k),
{
    assert(ax != bx || ay != by) by (nonlinear_arith)
        requires
            0 < k,
            k * k == (bx - ax) * (bx - ax) + (by - ay) * (by - ay),
    ;
    lemma_length(ax, ay, bx, by, k);
}

/// The crop of a rectangle with whole coordinates on the image.
proof fn lemma_whole_crop(x0: int, y0: int, x1: int, y1: int, w: usize, h: usize)
    requires
        0 <= x0 <= w <= 0x10_0000,
        0 <= x1 <= w,
        0 <= y0 <= h <= 0x10_0000,
        0 <= y1 <= h,
        x0 != x1,
        y0 != y1,
    ensures
        whole_rect(x0, y0, x1, y1).crop_on(w, h) == Some(between_corners(x0, y0, x1, y1)),
{
    let f = Format::Single;
    lemma_whole_order(x0, x1);
    lemma_whole_order(x1, x0);
    lemma_whole_order(y0, y1);
    lemma_whole_order(y1, y0);
    lemma_whole(x0);
    lemma_whole(x1);
    lemma_whole(y0);
    lemma_whole(y1);
    lemma_round_of_integer(f, x0 as nat);
    lemma_round_of_integer(f, x1 as nat);
    lemma_round_of_integer(f, y0 as nat);
    lemma_round_of_integer(f, y1 as nat);
}

/// The region between two corners, whichever is the first one.
pub open spec fn between_corners(x0: int, y0: int, x1: int, y1: int) -> CropRect {
    let (left, right) = if x0 < x1 {
        (x0, x1)
    } else {
        (x1, x0)
    };
    let (top, bottom) = if y0 < y1 {
        (y0, y1)
    } else {
        (y1, y0)
    };
    CropRect {
        x: left as usize,
        y: top as usize,
        width: (right - left) as usize,
        height: (bottom - top) as usize,
    }
}

impl Edit {
    /// A drag beside the crop draws a new one, between the point where the button was
    /// pressed and the point where the mouse is, whichever way it took.
    pub proof fn law_drawing_spans_press_and_mouse(
        self,
        start: Point,
        first: Option<Point>,
        way: Seq<Option<Point>>,
        last: Point,
        distances: Seq<Binary32>,
    )
        requires
            self.drag == Drag::idle(),
            self.crop is Some ==> hit(distances) is None,
            self.crop matches Some(r) ==> !r.covers(start.x, start.y),
        ensures
            self.begun(Some(start), first, distances).dragged_along(way).dragged(Some(last)).crop
                == Some(RectF { x0: start.x, y0: start.y, x1: last.x, y1: last.y }),
    {
        self.begun(Some(start), first, distances).lemma_drawn_along(way);
    }

    /// What is drawn from one corner of pixels to another is the crop between them, in
    /// whatever direction, and however it was dragged in between.
    pub proof fn law_drawn_crop_lies_between_the_corners(
        self,
        x0: int,
        y0: int,
        x1: int,
        y1: int,
        first: Option<Point>,
        way: Seq<Option<Point>>,
        distances: Seq<Binary32>,
        w: usize,
        h: usize,
    )
        requires
            self.drag == Drag::idle(),
            self.crop is Some ==> hit(distances) is None,
            self.crop matches Some(r) ==> !r.covers(number(x0), number(y0)),
            0 <= x0 <= w <= 0x800,
            0 <= x1 <= w,
            0 <= y0 <= h <= 0x800,
            0 <= y1 <= h,
            x0 != x1,
            y0 != y1,
        ensures
            ({
                let start = whole_point(x0, y0);
                let end = Some(whole_point(x1, y1));
                let e = self.begun(Some(start), first, distances).dragged_along(way).dragged(end);
                e.released(end, w, h).crop == Some(between_corners(x0, y0, x1, y1).as_rectf())
            }),
    {
        let start = whole_point(x0, y0);
        let end = whole_point(x1, y1);
        let b = self.begun(Some(start), first, distances);
        b.lemma_drawn_along(way);
        self.law_drawing_spans_press_and_mouse(start, first, way, end, distances);
        lemma_length(x0, y0, x1, y1, 0);
        lemma_whole_crop(x0, y0, x1, y1, w, h);
    }

    /// A drag that starts on the crop moves it as a whole: wherever the mouse has been
    /// in between, the crop has moved by as much as the mouse.
    pub proof fn law_moving_follows_the_mouse(
        self,
        x0: int,
        y0: int,
        x1: int,
        y1: int,
        start: Point,
        from: (int, int),
        way: Seq<(int, int)>,
        distances: Seq<Binary32>,
    )
        requires
            self.drag == Drag::idle(),
            self.crop == Some(whole_rect(x0, y0, x1, y1)),
            hit(distances) is None,
            whole_rect(x0, y0, x1, y1).covers(start.x, start.y),
            -0x10_0000 <= x0 <= 0x10_0000,
            -0x10_0000 <= y0 <= 0x10_0000,
            -0x10_0000 <= x1 <= 0x10_0000,
            -0x10_0000 <= y1 <= 0x10_0000,
            -0x10_0000 <= from.0 <= 0x10_0000,
            -0x10_0000 <= from.1 <= 0x10_0000,
            forall|i: int|
                #![trigger way[i]]
                0 <= i < way.len() ==> -0x10_0000 <= way[i].0 <= 0x10_0000 && -0x10_0000
                    <= way[i].1 <= 0x10_0000,
        ensures
            ({
                let e = self.begun(
                    Some(start),
                    Some(whole_point(from.0, from.1)),
                    distances,
                ).dragged_along(points_of(way));
                let at = if way.len() > 0 {
                    way.last()
                } else {
                    from
                };
                let (dx, dy) = (at.0 - from.0, at.1 - from.1);
                &&& e.crop == Some(whole_rect(x0 + dx, y0 + dy, x1 + dx, y1 + dy))
                &&& e.drag.moving && e.drag.resizing is None
                &&& e.drag.move_last == Some(whole_point(at.0, at.1))
            }),
        decreases way.len(),
    {
        if way.len() > 0 {
            let fewer = way.drop_last();
            assert forall|i: int| #![trigger fewer[i]] 0 <= i < fewer.len() implies -0x10_0000
                <= fewer[i].0 <= 0x10_0000 && -0x10_0000 <= fewer[i].1 <= 0x10_0000 by {
                assert(fewer[i] == way[i]);
            }
            self.law_moving_follows_the_mouse(x0, y0, x1, y1, start, from, fewer, distances);
            assert(points_of(way).drop_last() =~= points_of(fewer));
            assert(points_of(way).last() == Some(whole_point(way.last().0, way.last().1)));
            let was = if fewer.len() > 0 {
                fewer.last()
            } else {
                from
            };
            if fewer.len() > 0 {
                assert(fewer[fewer.len() - 1] == way[way.len() - 2]);
            }
            let now = way[way.len() - 1];
            let (dx, dy) = (was.0 - from.0, was.1 - from.1);
            lemma_whole_difference(now.0, was.0);
            lemma_whole_difference(now.1, was.1);
            RectF::law_moving_keeps_the_shape(
                x0 + dx,
                y0 + dy,
                x1 + dx,
                y1 + dy,
                now.0 - was.0,
                now.1 - was.1,
            );
        }
    }

    /// A drag that starts on a handle moves that handle to the mouse.
    pub proof fn law_resizing_follows_the_mouse(
        self,
        r: RectF,
        h: Handle,
        start: Point,
        first: Option<Point>,
        cur: Point,
        distances: Seq<Binary32>,
    )
        requires
            self.drag == Drag::idle(),
            self.crop == Some(r),
            hit(distances) == Some(h),
            all_handles().contains(h),
            all_finite(r),
            cur.x.finite(),
            cur.y.finite(),
            h.hx == -1 ==> !r.ordered().x1.below(cur.x),
            h.hx == 1 ==> !cur.x.below(r.ordered().x0),
            h.vy == -1 ==> !r.ordered().y1.below(cur.y),
            h.vy == 1 ==> !cur.y.below(r.ordered().y0),
        ensures
            ({
                let e = self.begun(Some(start), first, distances).dragged(Some(cur));
                &&& e.crop matches Some(q) && {
                    &&& h.hx != 0 ==> handle_place(q, h).x.equals(cur.x)
                    &&& h.vy != 0 ==> handle_place(q, h).y.equals(cur.y)
                    &&& h.hx == 0 ==> q.x0 == r.ordered().x0 && q.x1 == r.ordered().x1
                    &&& h.vy == 0 ==> q.y0 == r.ordered().y0 && q.y1 == r.ordered().y1
                }
            }),
    {
        law_handle_follows_the_mouse(r, h, cur);
    }

    /// Setting the crop that there is changes nothing; setting another one, or none, or
    /// one where there was none, does.
    pub proof fn law_only_another_crop_is_a_change(
        self,
        a: (int, int, int, int),
        b: (int, int, int, int),
    )
        requires
            is_small(a.0) && is_small(a.1) && is_small(a.2) && is_small(a.3),
            is_small(b.0) && is_small(b.1) && is_small(b.2) && is_small(b.3),
        ensures
            ({
                let (r, q) = (
                    Some(whole_rect(a.0, a.1, a.2, a.3)),
                    Some(whole_rect(b.0, b.1, b.2, b.3)),
                );
                &&& same_crop(r, q) <==> a == b
                &&& !same_crop(r, None) && !same_crop(None, r) && same_crop(None, None)
                &&& self.crop == r && a == b ==> self.with_crop(q) == self
                &&& self.crop == r && a != b ==> self.with_crop(q).crop == q
            }),
    {
        RectF::law_equal_rectangles_have_equal_corners(a, b);
    }

    /// A change of the crop is never missed: when dragging changes it, that is noticed,
    /// and nothing is noticed of a mouse that is elsewhere or drags nothing.
    pub proof fn law_changes_are_noticed(self, cur: Option<Point>)
        ensures
            self.dragged(cur).crop != self.crop ==> self.drag_changes(cur),
            cur is None ==> !self.drag_changes(cur),
            self.drag == Drag::idle() ==> !self.drag_changes(cur) && self.dragged(cur) == self,
    {
    }

    /// A press that is nowhere begins nothing.
    pub proof fn law_nothing_is_begun_nowhere(
        self,
        cur: Option<Point>,
        distances: Seq<Binary32>,
    )
        requires
            self.drag == Drag::idle(),
        ensures
            self.begun(None, cur, distances) == self,
    {
    }
}

/// Points with whole coordinates, as the mouse reports them.
pub open spec fn points_of(way: Seq<(int, int)>) -> Seq<Option<Point>> {
    way.map_values(|p: (int, int)| Some(whole_point(p.0, p.1)))
}

/// The number nearest to an integer.
pub open spec fn number(n: int) -> Binary32 {
    crate::integers::whole(n)
}

} // verus!
