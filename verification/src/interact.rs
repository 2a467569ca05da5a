//! The mouse on the image: drawing, moving and resizing the crop.
use crate::app::{crop_set, Check, CropApp};
use crate::binary::Binary32;
use crate::crop::{lies_between, whole_rect, CropRect, RectF};
use crate::editor::{Drag, Edit};
use crate::handles::{
    crop_handles, cursor_for_handle, find_hit, grips, hit, icon_of, CursorIcon, Handle, Point,
};
use crate::integers::{is_small, lemma_whole, lemma_whole_order, whole};
use crate::loader::FolderData;
use crate::screen::{whole_point, Screen};
use vstd::prelude::*;

verus! {

/// What the mouse did since the last time, in points of the screen.
#[derive(Clone, Copy, PartialEq, Eq, Structural, Debug)]
pub struct Pointer {
    /// The top left corner of the image.
    pub origin: Point,
    /// Where the mouse hovers over the image.
    pub hover: Option<Point>,
    /// Where the button was pressed.
    pub press: Option<Point>,
    /// Where the mouse is while it is dragged.
    pub interact: Option<Point>,
    pub drag_started: bool,
    pub dragged: bool,
    pub drag_stopped: bool,
}

/// A point of the screen in image pixels, if there is one.
pub open spec fn in_image(s: Screen, origin: Point, p: Option<Point>) -> Option<Point> {
    match p {
        Some(q) => Some(s.image_point(origin, q)),
        None => None,
    }
}

impl CropApp {
    /// Where the drag starts: where the button was pressed, or else where the
    /// mouse is.
    pub open spec fn drag_origin(self, p: Pointer) -> Option<Point> {
        in_image(
            self.screen,
            p.origin,
            match p.press {
                Some(q) => Some(q),
                None => p.interact,
            },
        )
    }

    /// The editor after a drag was begun, if one was.
    pub open spec fn after_start(self, p: Pointer, distances: Seq<Binary32>) -> Edit {
        if p.drag_started {
            self.editor@.begun(
                self.drag_origin(p),
                in_image(self.screen, p.origin, p.interact),
                distances,
            )
        } else {
            self.editor@
        }
    }

    /// The editor after all that the mouse did on a `w` × `h` image.
    pub open spec fn after_mouse(
        self,
        p: Pointer,
        distances: Seq<Binary32>,
        w: usize,
        h: usize,
    ) -> Edit {
        let cur = in_image(self.screen, p.origin, p.interact);
        let begun = self.after_start(p, distances);
        let moved = if p.dragged {
            begun.dragged(cur)
        } else {
            begun
        };
        if p.drag_stopped {
            moved.released(cur, w, h)
        } else {
            moved
        }
    }

    /// What the mouse did changes the crop for good, or may have.
    pub open spec fn mouse_changes(self, p: Pointer, distances: Seq<Binary32>) -> bool {
        let cur = in_image(self.screen, p.origin, p.interact);
        p.drag_stopped || (p.dragged && self.after_start(p, distances).drag_changes(cur))
    }

    /// The places of the handles on the screen; none without a crop.
    pub open spec fn handle_points(self, origin: Point) -> Seq<Point> {
        match self.editor.crop {
            Some(r) => grips(r).map_values(
                |g: (Handle, Point)| self.screen.screen_point(origin, g.1),
            ),
            None => Seq::empty(),
        }
    }

    /// The places of the handles on the screen, to measure their distance from
    /// the mouse.
    pub fn find_handle_points(&self, origin: Point) -> (r: Vec<Point>)
        ensures
            r@ == self.handle_points(origin),
    {
        let mut r: Vec<Point> = Vec::new();
        if let Some(crop) = self.editor.crop {
            let list: Vec<(Handle, Point)> = crop_handles(&crop);
            let mut i: usize = 0;
            while i < list.len()
                invariant
                    i <= list@.len(),
                    r@ == list@.take(i as int).map_values(
                        |g: (Handle, Point)| self.screen.screen_point(origin, g.1),
                    ),
                decreases list@.len() - i,
            {
                r.push(self.screen.to_screen(origin, list[i].1));
                i = i + 1;
            }
            proof {
                assert(list@.take(list@.len() as int) =~= list@);
            }
        }
        r
    }

    fn map_point(&self, origin: Point, p: Option<Point>) -> (q: Option<Point>)
        ensures
            q == in_image(self.screen, origin, p),
    {
        match p {
            Some(p) => Some(self.screen.to_img(origin, p)),
            None => None,
        }
    }

    /// Take in what the mouse did on the image. `distances` are those of the
    /// point where the button was pressed from the handles of the crop, on the
    /// screen.
    pub fn handle_interaction(&mut self, p: Pointer, distances: &Vec<Binary32>)
        requires
            old(self).wf(),
        ensures
            final(self).wf(),
            match old(self).source.data {
                Some(d) => {
                    &&& final(self).editor@ == old(self).after_mouse(
                        p,
                        distances@,
                        d.width,
                        d.height,
                    )
                    &&& *final(self) == (CropApp {
                        screen: Screen {
                            cursor: old(self).screen.under(p.origin, p.hover, *d),
                            ..old(self).screen
                        },
                        editor: final(self).editor,
                        check: Check {
                            dirty: old(self).check.dirty || old(self).mouse_changes(p, distances@),
                            ..old(self).check
                        },
                        ..*old(self)
                    })
                },
                None => *final(self) == *old(self),
            },
            // The statistics follow every change.
            (p.drag_started ==> p.dragged && p.interact is Some && old(self).editor.drag
                == Drag::idle()) && final(self).editor.crop != old(self).editor.crop
                ==> final(self).check.dirty,
            p.drag_stopped && old(self).source.data is Some ==> final(self).check.dirty,
            // What is drawn ends in whole pixels of the image.
            old(self).source.data matches Some(d) ==> d.width <= 0x100_0000 && d.height
                <= 0x100_0000 && !p.drag_started && p.drag_stopped && old(self).editor@.in_drag(
                d.width,
                d.height,
            ) ==> final(self).editor@.at_rest(d.width, d.height),
    {
        proof {
            if let Some(d) = &self.source.data {
                if d.width <= 0x100_0000 && d.height <= 0x100_0000 && self.editor@.in_drag(
                    d.width,
                    d.height,
                ) {
                    let cur = in_image(self.screen, p.origin, p.interact);
                    self.editor@.law_drag_goes_on(cur, d.width, d.height);
                    self.editor@.law_drag_ends_in_whole_pixels(cur, d.width, d.height);
                    self.editor@.dragged(cur).law_drag_ends_in_whole_pixels(
                        cur,
                        d.width,
                        d.height,
                    );
                }
                if p.drag_started ==> p.dragged && p.interact is Some && self.editor.drag
                    == Drag::idle() {
                    law_changes_by_the_mouse_are_noticed(*self, p, distances@, d.width, d.height);
                }
            }
        }
        let press: Option<Point> = self.map_point(
            p.origin,
            match p.press {
                Some(q) => Some(q),
                None => p.interact,
            },
        );
        let cur: Option<Point> = self.map_point(p.origin, p.interact);
        let (w, h): (usize, usize) = match &self.source.data {
            Some(d) => {
                let d: &FolderData = d;
                self.screen.read_out(p.origin, p.hover, d);
                (d.width, d.height)
            },
            None => return ,
        };
        if p.drag_started {
            self.editor.begin_drag(press, cur, distances);
        }
        if p.dragged {
            if self.editor.continue_drag(cur) {
                self.check.dirty = true;
            }
        }
        if p.drag_stopped {
            self.editor.end_drag(cur, w, h);
            self.check.dirty = true;
        }
    }

    /// The cursor over the image: none while dragging, resize over a handle, grab
    /// inside the crop.
    pub open spec fn icon_under(self, p: Pointer, distances: Seq<Binary32>) -> Option<CursorIcon> {
        match (p.hover, self.editor.crop) {
            (Some(q), Some(crop)) if !p.dragged => match hit(distances) {
                Some(h) => Some(icon_of(h)),
                None => {
                    let at = self.screen.image_point(p.origin, q);
                    if crop.covers(at.x, at.y) {
                        Some(CursorIcon::Grab)
                    } else {
                        None
                    }
                },
            },
            _ => None,
        }
    }

    /// The initial crop, when it is not the one on the image.
    pub open spec fn outline(self) -> Option<CropRect> {
        if self.editor.initial_crop is Some && self.crop_region() != self.editor.initial_crop {
            self.editor.initial_crop
        } else {
            None
        }
    }

    /// The cursor over the image: resize over a handle, grab inside the crop.
    /// `distances` are those of the hovering mouse from the handles of the crop,
    /// on the screen.
    pub fn hover_icon(&self, p: Pointer, distances: &Vec<Binary32>) -> (r: Option<CursorIcon>)
        ensures
            r == self.icon_under(p, distances@),
    {
        if p.dragged {
            return None;
        }
        match (p.hover, self.editor.crop) {
            (Some(q), Some(crop)) => match find_hit(distances) {
                Some(h) => Some(cursor_for_handle(h)),
                None => {
                    let at: Point = self.screen.to_img(p.origin, q);
                    if crop.contains(at.x, at.y) {
                        Some(CursorIcon::Grab)
                    } else {
                        None
                    }
                },
            },
            _ => None,
        }
    }

    /// Delete/Backspace clears the crop.
    pub fn clear_crop(&mut self)
        requires
            old(self).wf(),
        ensures
            final(self).wf(),
            crop_set(*old(self), None, *final(self)),
    {
        self.set_crop(None);
    }

    /// The initial crop, when it is not the one on the image: it is shown as a
    /// reference.
    pub fn reference_outline(&self) -> (r: Option<CropRect>)
        ensures
            r == self.outline(),
    {
        match self.editor.initial_crop {
            Some(init) => match self.crop_px() {
                Some(c) => if c == init {
                    None
                } else {
                    Some(init)
                },
                None => Some(init),
            },
            None => None,
        }
    }
}

// ----- laws --------------------------------------------------------------------------

/// A mouse that only hovers does not change the crop.
pub proof fn law_hovering_changes_nothing(
    app: CropApp,
    p: Pointer,
    distances: Seq<Binary32>,
    w: usize,
    h: usize,
)
    requires
        !p.drag_started,
        !p.dragged,
        !p.drag_stopped,
    ensures
        app.after_mouse(p, distances, w, h) == app.editor@,
        !app.mouse_changes(p, distances),
{
}

/// The mouse does on the image what it does on the screen: wherever the image stands,
/// and at a zoom of `s`, a drag that was begun where pixel corner `(x, y)` is drawn is
/// begun at `(x, y)`. Where the press was not seen, it begins where the mouse is.
pub proof fn law_drag_begins_where_the_button_was_pressed(
    app: CropApp,
    p: Pointer,
    left: int,
    top: int,
    x: int,
    y: int,
    s: int,
)
    requires
        app.screen.scale == whole(s),
        1 <= s <= 64,
        -0x80_0000 <= left <= 0x80_0000,
        -0x80_0000 <= top <= 0x80_0000,
        -0x80_0000 <= x * s <= 0x80_0000,
        -0x80_0000 <= y * s <= 0x80_0000,
        p.origin == whole_point(left, top),
    ensures
        p.press == Some(whole_point(left + x * s, top + y * s)) ==> app.drag_origin(p) == Some(
            whole_point(x, y),
        ),
        p.press is None && p.interact == Some(whole_point(left + x * s, top + y * s))
            ==> app.drag_origin(p) == Some(whole_point(x, y)),
        p.press is None && p.interact is None ==> app.drag_origin(p) is None,
{
    app.screen.law_points_map_to_the_screen_and_back(left, top, x, y, s);
}

/// Pressing at one pixel corner and dragging to another draws a crop between the two, as
/// they are seen on the screen.
pub proof fn law_crop_is_drawn_where_the_mouse_is(
    app: CropApp,
    p: Pointer,
    distances: Seq<Binary32>,
    left: int,
    top: int,
    from: (int, int),
    to: (int, int),
    s: int,
    w: usize,
    h: usize,
)
    requires
        app.screen.scale == whole(s),
        app.editor.crop is None,
        app.editor.drag == Drag::idle(),
        1 <= s <= 64,
        -0x80_0000 <= left <= 0x80_0000,
        -0x80_0000 <= top <= 0x80_0000,
        -0x80_0000 <= from.0 * s <= 0x80_0000,
        -0x80_0000 <= from.1 * s <= 0x80_0000,
        -0x80_0000 <= to.0 * s <= 0x80_0000,
        -0x80_0000 <= to.1 * s <= 0x80_0000,
        p.origin == whole_point(left, top),
        p.press == Some(whole_point(left + from.0 * s, top + from.1 * s)),
        p.interact == Some(whole_point(left + to.0 * s, top + to.1 * s)),
        p.drag_started,
        p.dragged,
        !p.drag_stopped,
    ensures
        app.after_mouse(p, distances, w, h).crop == Some(whole_rect(from.0, from.1, to.0, to.1)),
        app.mouse_changes(p, distances),
{
    app.screen.law_points_map_to_the_screen_and_back(left, top, from.0, from.1, s);
    app.screen.law_points_map_to_the_screen_and_back(left, top, to.0, to.1, s);
}

/// The corner handles are drawn where the corners of the crop are seen.
pub proof fn law_corner_handles_are_drawn_on_the_corners(
    app: CropApp,
    left: int,
    top: int,
    x0: int,
    y0: int,
    x1: int,
    y1: int,
    s: int,
)
    requires
        app.screen.scale == whole(s),
        app.editor.crop == Some(whole_rect(x0, y0, x1, y1)),
        1 <= s <= 64,
        x0 < x1,
        y0 < y1,
        -0x80_0000 <= left <= 0x80_0000,
        -0x80_0000 <= top <= 0x80_0000,
        -0x80_0000 <= x0 * s <= 0x80_0000,
        -0x80_0000 <= y0 * s <= 0x80_0000,
        -0x80_0000 <= x1 * s <= 0x80_0000,
        -0x80_0000 <= y1 * s <= 0x80_0000,
        is_small(x0) && is_small(x1) && is_small(y0) && is_small(y1),
    ensures
        ({
            let q = app.handle_points(whole_point(left, top));
            &&& q.len() == 8
            &&& q[0] == whole_point(left + x0 * s, top + y0 * s)
            &&& q[2] == whole_point(left + x1 * s, top + y0 * s)
            &&& q[5] == whole_point(left + x0 * s, top + y1 * s)
            &&& q[7] == whole_point(left + x1 * s, top + y1 * s)
        }),
{
    lemma_whole_order(x0, x1);
    lemma_whole_order(x1, x0);
    lemma_whole_order(y0, y1);
    lemma_whole_order(y1, y0);
    lemma_whole(x0);
    lemma_whole(x1);
    lemma_whole(y0);
    lemma_whole(y1);
    app.screen.law_points_map_to_the_screen_and_back(left, top, x0, y0, s);
    app.screen.law_points_map_to_the_screen_and_back(left, top, x1, y0, s);
    app.screen.law_points_map_to_the_screen_and_back(left, top, x0, y1, s);
    app.screen.law_points_map_to_the_screen_and_back(left, top, x1, y1, s);
    let r = whole_rect(x0, y0, x1, y1);
    assert(r.ordered() == r);
    assert(grips(r)[0].1 == whole_point(x0, y0));
    assert(grips(r)[2].1 == whole_point(x1, y0));
    assert(grips(r)[5].1 == whole_point(x0, y1));
    assert(grips(r)[7].1 == whole_point(x1, y1));
}

/// The cursor shows what a press would do: over a handle that it can be dragged, on the
/// crop that it can be moved, elsewhere nothing; and nothing while something is dragged,
/// or while there is no crop.
pub proof fn law_cursor_shows_what_can_be_dragged(
    app: CropApp,
    p: Pointer,
    distances: Seq<Binary32>,
    left: int,
    top: int,
    x: int,
    y: int,
    s: int,
    corners: (int, int, int, int),
)
    requires
        app.screen.scale == whole(s),
        1 <= s <= 64,
        -0x80_0000 <= left <= 0x80_0000,
        -0x80_0000 <= top <= 0x80_0000,
        -0x80_0000 <= x * s <= 0x80_0000,
        -0x80_0000 <= y * s <= 0x80_0000,
        is_small(x) && is_small(y),
        is_small(corners.0) && is_small(corners.1) && is_small(corners.2) && is_small(corners.3),
        p.origin == whole_point(left, top),
    ensures
        p.dragged || p.hover is None || app.editor.crop is None ==> app.icon_under(p, distances)
            is None,
        !p.dragged && p.hover is Some && app.editor.crop is Some ==> match hit(distances) {
            Some(h) => app.icon_under(p, distances) == Some(icon_of(h)),
            None => app.icon_under(p, distances) is None || app.icon_under(p, distances) == Some(
                CursorIcon::Grab,
            ),
        },
        !p.dragged && p.hover == Some(whole_point(left + x * s, top + y * s)) && hit(distances)
            is None && app.editor.crop == Some(
            whole_rect(corners.0, corners.1, corners.2, corners.3),
        ) ==> (app.icon_under(p, distances) == Some(CursorIcon::Grab) <==> lies_between(
            corners.0,
            x,
            corners.2,
        ) && lies_between(corners.1, y, corners.3)),
{
    app.screen.law_points_map_to_the_screen_and_back(left, top, x, y, s);
    RectF::law_covers_what_lies_between(corners.0, corners.1, corners.2, corners.3, x, y);
}

/// When the mouse changes the crop, the statistics are told to follow it.
pub proof fn law_changes_by_the_mouse_are_noticed(
    app: CropApp,
    p: Pointer,
    distances: Seq<Binary32>,
    w: usize,
    h: usize,
)
    requires
        p.drag_started ==> p.dragged && p.interact is Some && app.editor.drag == Drag::idle(),
    ensures
        app.after_mouse(p, distances, w, h).crop != app.editor.crop ==> app.mouse_changes(
            p,
            distances,
        ),
        p.drag_stopped ==> app.mouse_changes(p, distances),
{
    let cur = in_image(app.screen, p.origin, p.interact);
    app.after_start(p, distances).law_changes_are_noticed(cur);
}

/// The initial crop is shown as a reference exactly while it is not the crop on the
/// image.
pub proof fn law_reference_is_shown_beside_another_crop(app: CropApp)
    ensures
        app.editor.initial_crop is None ==> app.outline() is None,
        app.editor.initial_crop matches Some(init) ==> {
            &&& app.crop_region() == Some(init) ==> app.outline() is None
            &&& app.crop_region() != Some(init) ==> app.outline() == Some(init)
        },
{
}

} // verus!
