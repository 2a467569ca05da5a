//! The grab-points of the crop rectangle.
use crate::binary::Binary32;
use crate::crop::RectF;
use crate::integers::{lemma_whole, lemma_whole_code, lemma_whole_order, whole};
use crate::round::Format;
use vstd::arithmetic::power2::pow2;
use vstd::prelude::*;

verus! {

/// A point, in image pixels or on the screen.
#[derive(Clone, Copy, PartialEq, Eq, Structural, Debug)]
pub struct Point {
    pub x: Binary32,
    pub y: Binary32,
}

/// A resize grab-point on the crop rectangle: -1/0/1 for left/middle/right and
/// top/middle/bottom.
#[derive(Clone, Copy, PartialEq, Eq, Structural, Debug)]
pub struct Handle {
    pub hx: i8,
    pub vy: i8,
}

/// The shape of the mouse cursor.
#[derive(Clone, Copy, PartialEq, Eq, Structural, Debug)]
pub enum CursorIcon {
    ResizeVertical,
    ResizeHorizontal,
    ResizeNwSe,
    ResizeNeSw,
    Grab,
}

/// The eight handles, from the top left to the bottom right.
pub open spec fn all_handles() -> Seq<Handle> {
    seq![
        Handle { hx: (-1) as i8, vy: (-1) as i8 },
        Handle { hx: 0, vy: (-1) as i8 },
        Handle { hx: 1, vy: (-1) as i8 },
        Handle { hx: (-1) as i8, vy: 0 },
        Handle { hx: 1, vy: 0 },
        Handle { hx: (-1) as i8, vy: 1 },
        Handle { hx: 0, vy: 1 },
        Handle { hx: 1, vy: 1 },
    ]
}

/// The low end, the high end or the middle of an edge.
pub open spec fn along(side: i8, lo: Binary32, hi: Binary32) -> Binary32 {
    if side == -1 {
        lo
    } else if side == 1 {
        hi
    } else {
        lo.spec_plus(hi).spec_times(Binary32::half())
    }
}

/// Where a handle of the rectangle is.
pub open spec fn handle_place(r: RectF, h: Handle) -> Point {
    let n = r.ordered();
    Point { x: along(h.hx, n.x0, n.x1), y: along(h.vy, n.y0, n.y1) }
}

/// The handles of a rectangle with their places.
pub open spec fn grips(r: RectF) -> Seq<(Handle, Point)> {
    all_handles().map_values(|h: Handle| (h, handle_place(r, h)))
}

/// Image-space positions of the 8 resize handles of the crop rectangle.
pub fn crop_handles(r: &RectF) -> (out: Vec<(Handle, Point)>)
    ensures
        out@ == grips(*r),
        out@.len() == 8,
{
    let n: RectF = r.normalized();
    let half: Binary32 = Binary32::half();
    let midx: Binary32 = n.x0.plus(n.x1).times(half);
    let midy: Binary32 = n.y0.plus(n.y1).times(half);
    let mut out: Vec<(Handle, Point)> = Vec::with_capacity(8);
    out.push((Handle { hx: -1, vy: -1 }, Point { x: n.x0, y: n.y0 }));
    out.push((Handle { hx: 0, vy: -1 }, Point { x: midx, y: n.y0 }));
    out.push((Handle { hx: 1, vy: -1 }, Point { x: n.x1, y: n.y0 }));
    out.push((Handle { hx: -1, vy: 0 }, Point { x: n.x0, y: midy }));
    out.push((Handle { hx: 1, vy: 0 }, Point { x: n.x1, y: midy }));
    out.push((Handle { hx: -1, vy: 1 }, Point { x: n.x0, y: n.y1 }));
    out.push((Handle { hx: 0, vy: 1 }, Point { x: midx, y: n.y1 }));
    out.push((Handle { hx: 1, vy: 1 }, Point { x: n.x1, y: n.y1 }));
    proof {
        assert(out@ =~= grips(*r));
    }
    out
}

/// The rectangle with the edges of a handle moved to a point.
pub open spec fn resized(r: RectF, h: Handle, p: Point) -> RectF {
    let n = r.ordered();
    RectF {
        x0: if h.hx == -1 {
            p.x
        } else {
            n.x0
        },
        y0: if h.vy == -1 {
            p.y
        } else {
            n.y0
        },
        x1: if h.hx == 1 {
            p.x
        } else {
            n.x1
        },
        y1: if h.vy == 1 {
            p.y
        } else {
            n.y1
        },
    }
}

pub fn resize_rect(r: &mut RectF, handle: Handle, p: Point)
    ensures
        *final(r) == resized(*old(r), handle, p),
{
    let mut n: RectF = r.normalized();
    if handle.hx == -1 {
        n.x0 = p.x;
    } else if handle.hx == 1 {
        n.x1 = p.x;
    }
    if handle.vy == -1 {
        n.y0 = p.y;
    } else if handle.vy == 1 {
        n.y1 = p.y;
    }
    *r = n;
}

/// The cursor over a handle.
pub open spec fn icon_of(h: Handle) -> CursorIcon {
    if h.hx == 0 {
        CursorIcon::ResizeVertical
    } else if h.vy == 0 {
        CursorIcon::ResizeHorizontal
    } else if h.hx == h.vy {
        CursorIcon::ResizeNwSe
    } else {
        CursorIcon::ResizeNeSw
    }
}

pub fn cursor_for_handle(handle: Handle) -> (r: CursorIcon)
    ensures
        r == icon_of(handle),
{
    if handle.hx == 0 {
        CursorIcon::ResizeVertical
    } else if handle.vy == 0 {
        CursorIcon::ResizeHorizontal
    } else if handle.hx == handle.vy {
        CursorIcon::ResizeNwSe
    } else {
        CursorIcon::ResizeNeSw
    }
}

/// How close to a handle the pointer has to be: ten pixels of the screen.
#[verifier::allow_in_spec]
pub fn reach() -> Binary32
    returns
        (Binary32 { bits: 0x4120_0000 }),
{
    Binary32 { bits: 0x4120_0000 }
}

/// The distance is within reach.
pub open spec fn within_reach(d: Binary32) -> bool {
    d.below(reach()) || d.equals(reach())
}

/// Handle `k` is the first one within reach, given the distances to all of them.
pub open spec fn is_hit(distances: Seq<Binary32>, k: int) -> bool {
    &&& 0 <= k < distances.len()
    &&& within_reach(distances[k])
    &&& forall|j: int| 0 <= j < k ==> !within_reach(#[trigger] distances[j])
}

/// The first handle within reach of the pointer.
pub open spec fn hit(distances: Seq<Binary32>) -> Option<Handle> {
    if exists|k: int| is_hit(distances, k) && k < 8 {
        Some(all_handles()[choose|k: int| is_hit(distances, k) && k < 8])
    } else {
        None
    }
}

/// The first handle within reach, given the distances of the pointer from the
/// eight handles on the screen.
pub fn find_hit(distances: &Vec<Binary32>) -> (r: Option<Handle>)
    ensures
        r == hit(distances@),
{
    let handles: Vec<Handle> = vec![
        Handle { hx: -1, vy: -1 },
        Handle { hx: 0, vy: -1 },
        Handle { hx: 1, vy: -1 },
        Handle { hx: -1, vy: 0 },
        Handle { hx: 1, vy: 0 },
        Handle { hx: -1, vy: 1 },
        Handle { hx: 0, vy: 1 },
        Handle { hx: 1, vy: 1 },
    ];
    proof {
        assert(handles@ =~= all_handles());
    }
    let limit: Binary32 = reach();
    let mut k: usize = 0;
    while k < 8 && k < distances.len()
        invariant
            k <= 8,
            k <= distances@.len(),
            handles@ == all_handles(),
            handles@.len() == 8,
            limit == reach(),
            forall|j: int| 0 <= j < k ==> !within_reach(#[trigger] distances@[j]),
        decreases 8 - k,
    {
        if distances[k].is_below(limit) || distances[k].is_equal(limit) {
            proof {
                assert(is_hit(distances@, k as int));
                let c = choose|c: int| is_hit(distances@, c) && c < 8;
                if c < k {
                    assert(!within_reach(distances@[c]));
                }
                if k < c {
                    assert(!within_reach(distances@[k as int]));
                }
            }
            return Some(handles[k]);
        }
        k = k + 1;
    }
    None
}

/// Resizing moves only the edges of the handle: the opposite ones stay.
pub proof fn law_resizing_keeps_the_opposite_edges(r: RectF, h: Handle, p: Point)
    ensures
        h.hx != -1 ==> resized(r, h, p).x0 == r.ordered().x0,
        h.hx != 1 ==> resized(r, h, p).x1 == r.ordered().x1,
        h.vy != -1 ==> resized(r, h, p).y0 == r.ordered().y0,
        h.vy != 1 ==> resized(r, h, p).y1 == r.ordered().y1,
{
}

/// The handle on the other side of the rectangle.
pub open spec fn opposite(h: Handle) -> Handle {
    Handle { hx: (-h.hx) as i8, vy: (-h.vy) as i8 }
}

/// All four coordinates are numbers.
pub open spec fn all_finite(r: RectF) -> bool {
    r.x0.finite() && r.y0.finite() && r.x1.finite() && r.y1.finite()
}

/// A handle that is dragged follows the mouse, as long as it is not dragged across the
/// opposite edge: a corner goes where the mouse goes, a handle of an edge to the left or
/// right, or up and down, with it. The handle on the other side stays where it is.
pub proof fn law_handle_follows_the_mouse(r: RectF, h: Handle, p: Point)
    requires
        all_handles().contains(h),
        all_finite(r),
        p.x.finite(),
        p.y.finite(),
        h.hx == -1 ==> !r.ordered().x1.below(p.x),
        h.hx == 1 ==> !p.x.below(r.ordered().x0),
        h.vy == -1 ==> !r.ordered().y1.below(p.y),
        h.vy == 1 ==> !p.y.below(r.ordered().y0),
    ensures
        ({
            let q = resized(r, h, p);
            let (a, b) = (handle_place(q, h), handle_place(q, opposite(h)));
            let c = handle_place(r, opposite(h));
            &&& h.hx != 0 ==> a.x.equals(p.x) && b.x.equals(c.x)
            &&& h.vy != 0 ==> a.y.equals(p.y) && b.y.equals(c.y)
            &&& h.hx == 0 ==> q.x0 == r.ordered().x0 && q.x1 == r.ordered().x1
            &&& h.vy == 0 ==> q.y0 == r.ordered().y0 && q.y1 == r.ordered().y1
        }),
{
    let k = choose|k: int| 0 <= k < all_handles().len() && all_handles()[k] == h;
    assert(h == all_handles()[k]);
}

/// A handle that is dragged across the opposite edge turns the rectangle over: it then
/// reaches from that edge to the mouse, on the other side.
pub proof fn law_handle_dragged_across_turns_over(r: RectF, h: Handle, p: Point)
    requires
        all_handles().contains(h),
        all_finite(r),
        p.x.finite(),
        p.y.finite(),
    ensures
        ({
            let (n, q) = (r.ordered(), resized(r, h, p).ordered());
            &&& h.hx == -1 && n.x1.below(p.x) ==> q.x0 == n.x1 && q.x1 == p.x
            &&& h.hx == 1 && p.x.below(n.x0) ==> q.x0 == p.x && q.x1 == n.x0
            &&& h.vy == -1 && n.y1.below(p.y) ==> q.y0 == n.y1 && q.y1 == p.y
            &&& h.vy == 1 && p.y.below(n.y0) ==> q.y0 == p.y && q.y1 == n.y0
        }),
{
}

/// The cursor over a handle shows the direction in which it moves: it is the same on
/// the other side, and another one on a mirrored corner.
pub proof fn law_cursor_shows_the_direction(h: Handle)
    requires
        all_handles().contains(h),
    ensures
        icon_of(opposite(h)) == icon_of(h),
        icon_of(h) == CursorIcon::ResizeVertical <==> h.hx == 0,
        icon_of(h) == CursorIcon::ResizeHorizontal <==> h.vy == 0,
        h.hx != 0 && h.vy != 0 ==> icon_of(Handle { hx: opposite(h).hx, vy: h.vy }) != icon_of(h),
        icon_of(h) != CursorIcon::Grab,
{
    let k = choose|k: int| 0 <= k < all_handles().len() && all_handles()[k] == h;
    assert(h == all_handles()[k]);
}

/// A handle is hit exactly when the mouse is within ten points of one, and then it is
/// the first such handle, from the top left to the bottom right.
pub proof fn law_first_handle_within_reach_is_hit(distances: Seq<Binary32>, k: int, n: int)
    requires
        0 <= k < 8,
        k < distances.len(),
        within_reach(distances[k]),
        0 <= n <= 0x100_0000,
    ensures
        hit(distances) is Some,
        (forall|j: int| 0 <= j < k ==> !within_reach(#[trigger] distances[j])) ==> hit(distances)
            == Some(all_handles()[k]),
        within_reach(whole(n)) <==> n <= 10,
{
    lemma_first_within_reach(distances, k);
    let c = choose|c: int| is_hit(distances, c) && c < 8;
    if forall|j: int| 0 <= j < k ==> !within_reach(#[trigger] distances[j]) {
        assert(is_hit(distances, k));
        if c < k {
            assert(!within_reach(distances[c]));
        }
        if k < c {
            assert(!within_reach(distances[k]));
        }
    }
    let f = Format::Single;
    assert(f.units(0x4120_0000) == 10 * pow2(149)) by {
        reveal(Format::units);
        vstd::arithmetic::power2::lemma2_to64();
        assert(0x4120_0000nat / f.unit() == 130 && 0x4120_0000nat % f.unit() == 0x20_0000);
        vstd::arithmetic::power2::lemma_pow2_adds(20, 129);
        assert(0xa0_0000 * pow2(129) == 10 * (0x10_0000 * pow2(129))) by (nonlinear_arith);
    }
    lemma_whole_code(10, 0x4120_0000);
    lemma_whole(n);
    lemma_whole(10);
    lemma_whole_order(n, 10);
    lemma_whole_order(10, n);
}

/// Nothing is hit when no handle is within reach.
pub proof fn law_nothing_out_of_reach_is_hit(distances: Seq<Binary32>)
    requires
        forall|j: int| 0 <= j < distances.len() ==> !within_reach(#[trigger] distances[j]),
    ensures
        hit(distances) is None,
{
}

proof fn lemma_first_within_reach(distances: Seq<Binary32>, k: int)
    requires
        0 <= k < 8,
        k < distances.len(),
        within_reach(distances[k]),
    ensures
        exists|j: int| is_hit(distances, j) && j < 8,
    decreases k,
{
    if exists|j: int| 0 <= j < k && within_reach(#[trigger] distances[j]) {
        let j = choose|j: int| 0 <= j < k && within_reach(#[trigger] distances[j]);
        lemma_first_within_reach(distances, j);
    } else {
        assert(is_hit(distances, k));
    }
}

} // verus!
