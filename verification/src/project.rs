//! Pixel-wise projections of a stack of images.
use crate::binary::{Binary32, Binary64};
use crate::frame::Image;
use vstd::prelude::*;

verus! {

/// Per-pixel accumulator for the projections, merged across worker threads.
pub struct Acc {
    pub sum: Vec<Binary64>,
    pub sumsq: Vec<Binary64>,
    pub max: Vec<Binary32>,
    pub min: Vec<Binary32>,
}

/// What is accumulated at one pixel.
pub struct Cell {
    pub sum: Binary64,
    pub sumsq: Binary64,
    pub max: Binary32,
    pub min: Binary32,
}

impl Cell {
    /// Nothing accumulated yet.
    pub open spec fn start() -> Cell {
        Cell { sum: Binary64::zero(), sumsq: Binary64::zero(), max: Binary32::minus_infinity(), min: Binary32::infinity() }
    }

    /// One more value.
    pub open spec fn with(self, v: Binary32) -> Cell {
        let wide = v.spec_widen();
        Cell {
            sum: self.sum.spec_plus(wide),
            sumsq: self.sumsq.spec_plus(wide.spec_times(wide)),
            max: self.max.spec_max(v),
            min: self.min.spec_min(v),
        }
    }

    /// Two parts of the stack together.
    pub open spec fn join(self, other: Cell) -> Cell {
        Cell {
            sum: self.sum.spec_plus(other.sum),
            sumsq: self.sumsq.spec_plus(other.sumsq),
            max: self.max.spec_max(other.max),
            min: self.min.spec_min(other.min),
        }
    }
}

impl Acc {
    /// All four lists have one entry for each pixel.
    pub open spec fn wf(self) -> bool {
        &&& self.sumsq@.len() == self.sum@.len()
        &&& self.max@.len() == self.sum@.len()
        &&& self.min@.len() == self.sum@.len()
    }

    /// The number of pixels.
    pub open spec fn size(self) -> nat {
        self.sum@.len()
    }

    pub open spec fn cell(self, i: int) -> Cell {
        Cell { sum: self.sum@[i], sumsq: self.sumsq@[i], max: self.max@[i], min: self.min@[i] }
    }
}

/// What is accumulated at each pixel.
impl View for Acc {
    type V = Seq<Cell>;

    open spec fn view(&self) -> Seq<Cell> {
        Seq::new(self.size(), |i: int| self.cell(i))
    }
}

/// An empty accumulator.
pub open spec fn blank(len: nat) -> Seq<Cell> {
    Seq::new(len, |i: int| Cell::start())
}

/// One more frame, given by its pixels; it may cover only the first ones.
pub open spec fn with_frame(cells: Seq<Cell>, frame: Seq<u32>) -> Seq<Cell> {
    Seq::new(
        cells.len(),
        |i: int|
            if i < frame.len() {
                cells[i].with(Binary32 { bits: frame[i] })
            } else {
                cells[i]
            },
    )
}

/// Images with one pattern of bits for every NaN.
pub open spec fn settled_images(all: Seq<Image>) -> Seq<Image> {
    all.map_values(|f: Image| f.settled())
}

/// Two accumulators together.
pub open spec fn joined(a: Seq<Cell>, b: Seq<Cell>) -> Seq<Cell> {
    Seq::new(a.len(), |i: int| a[i].join(b[i]))
}

/// The frames accumulated one after the other.
pub open spec fn accumulated(len: nat, frames: Seq<Image>) -> Seq<Cell>
    decreases frames.len(),
{
    if frames.len() == 0 {
        blank(len)
    } else {
        with_frame(accumulated(len, frames.drop_last()), frames.last().pixels)
    }
}

impl Acc {
    pub fn new(len: usize) -> (acc: Acc)
        ensures
            acc.wf(),
            acc@ == blank(len as nat),
    {
        let mut acc: Acc = Acc {
            sum: Vec::with_capacity(len),
            sumsq: Vec::with_capacity(len),
            max: Vec::with_capacity(len),
            min: Vec::with_capacity(len),
        };
        let mut i: usize = 0;
        while i < len
            invariant
                i <= len,
                acc.wf(),
                acc.size() == i,
                forall|k: int| 0 <= k < i ==> #[trigger] acc.cell(k) == Cell::start(),
            decreases len - i,
        {
            let ghost was = acc;
            acc.sum.push(Binary64::zero());
            acc.sumsq.push(Binary64::zero());
            acc.max.push(Binary32::minus_infinity());
            acc.min.push(Binary32::infinity());
            proof {
                assert forall|k: int| 0 <= k < i implies #[trigger] acc.cell(k) == was.cell(k) by {}
            }
            i = i + 1;
        }
        proof {
            assert(acc@ =~= blank(len as nat));
        }
        acc
    }

    pub fn add_frame(&mut self, frame: &[u32])
        requires
            old(self).wf(),
            frame@.len() <= old(self).size(),
        ensures
            final(self).wf(),
            final(self)@ == with_frame(old(self)@, frame@),
    {
        let ghost before = self@;
        let mut i: usize = 0;
        while i < frame.len()
            invariant
                i <= frame@.len() <= self.size(),
                self.wf(),
                self.size() == before.len(),
                forall|k: int|
                    0 <= k < i ==> #[trigger] self.cell(k) == before[k].with(
                        Binary32 { bits: frame@[k] },
                    ),
                forall|k: int| i <= k < self.size() ==> #[trigger] self.cell(k) == before[k],
            decreases frame@.len() - i,
        {
            let ghost was = *self;
            proof {
                assert(self.cell(i as int) == before[i as int]);
            }
            let v: Binary32 = Binary32 { bits: frame[i] };
            let wide: Binary64 = v.widen();
            let sum: Binary64 = self.sum[i].plus(wide);
            let sumsq: Binary64 = self.sumsq[i].plus(wide.times(wide));
            let max: Binary32 = self.max[i].max(v);
            let min: Binary32 = self.min[i].min(v);
            self.sum.set(i, sum);
            self.sumsq.set(i, sumsq);
            self.max.set(i, max);
            self.min.set(i, min);
            proof {
                assert forall|k: int| 0 <= k < self.size() && k != i implies #[trigger] self.cell(k)
                    == was.cell(k) by {}
            }
            i = i + 1;
        }
        proof {
            assert(self@ =~= with_frame(before, frame@));
        }
    }

    pub fn merge(self, other: Acc) -> (acc: Acc)
        requires
            self.wf(),
            other.wf(),
            self.size() <= other.size(),
        ensures
            acc.wf(),
            acc@ == joined(self@, other@),
    {
        let mut acc: Acc = self;
        let ghost before = self@;
        let mut i: usize = 0;
        while i < acc.sum.len()
            invariant
                i <= acc.size(),
                acc.wf(),
                other.wf(),
                acc.size() == before.len(),
                acc.size() <= other.size(),
                forall|k: int| 0 <= k < i ==> #[trigger] acc.cell(k) == before[k].join(other@[k]),
                forall|k: int| i <= k < acc.size() ==> #[trigger] acc.cell(k) == before[k],
            decreases acc.size() - i,
        {
            let ghost was = acc;
            proof {
                assert(acc.cell(i as int) == before[i as int]);
            }
            let sum: Binary64 = acc.sum[i].plus(other.sum[i]);
            let sumsq: Binary64 = acc.sumsq[i].plus(other.sumsq[i]);
            let max: Binary32 = acc.max[i].max(other.max[i]);
            let min: Binary32 = acc.min[i].min(other.min[i]);
            acc.sum.set(i, sum);
            acc.sumsq.set(i, sumsq);
            acc.max.set(i, max);
            acc.min.set(i, min);
            proof {
                assert forall|k: int| 0 <= k < acc.size() && k != i implies #[trigger] acc.cell(k)
                    == was.cell(k) by {}
            }
            i = i + 1;
        }
        proof {
            assert(acc@ =~= joined(before, other@));
        }
        acc
    }
}

// ----- laws --------------------------------------------------------------------

/// The extreme values of a pixel over some values: none lies beyond them, and
/// each is one of the values (or infinite, when there is none).
pub open spec fn is_extent(c: Cell, values: Seq<Binary32>) -> bool {
    &&& !c.max.not_a_number() && !c.min.not_a_number()
    &&& forall|k: int|
        #![trigger values[k]]
        0 <= k < values.len() ==> !c.max.below(values[k]) && !values[k].below(c.min)
    &&& c.max == Binary32::minus_infinity() || values.contains(c.max)
    &&& c.min == Binary32::infinity() || values.contains(c.min)
}

/// At the start, the extremes are those of no value.
pub proof fn law_start_has_no_extremes()
    ensures
        is_extent(Cell::start(), Seq::empty()),
{
}

/// The largest and smallest value of a pixel follow every value that is added:
/// no image of the stack has a brighter or a darker one.
pub proof fn law_extremes_follow_a_value(c: Cell, values: Seq<Binary32>, v: Binary32)
    requires
        is_extent(c, values),
    ensures
        is_extent(c.with(v), values.push(v)),
{
    let all = values.push(v);
    let d = c.with(v);
    assert forall|k: int| #![trigger all[k]] 0 <= k < all.len() implies !d.max.below(all[k])
        && !all[k].below(d.min) by {
        if k < values.len() {
            assert(all[k] == values[k]);
        }
    }
    assert(all.last() == v);
    assert(all[values.len() as int] == v);
    if d.max == c.max && c.max != Binary32::minus_infinity() {
        let k = choose|k: int| 0 <= k < values.len() && values[k] == c.max;
        assert(all[k] == c.max);
    }
    if d.min == c.min && c.min != Binary32::infinity() {
        let k = choose|k: int| 0 <= k < values.len() && values[k] == c.min;
        assert(all[k] == c.min);
    }
}

/// The extremes of two parts of the stack, joined, are those of the whole: they
/// do not depend on how the stack was divided.
pub proof fn law_extremes_of_joined_parts(
    a: Cell,
    b: Cell,
    first: Seq<Binary32>,
    second: Seq<Binary32>,
)
    requires
        is_extent(a, first),
        is_extent(b, second),
    ensures
        is_extent(a.join(b), first + second),
{
    let all = first + second;
    let d = a.join(b);
    assert forall|k: int| #![trigger all[k]] 0 <= k < all.len() implies !d.max.below(all[k])
        && !all[k].below(d.min) by {
        if k < first.len() {
            assert(all[k] == first[k]);
        } else {
            assert(all[k] == second[k - first.len()]);
        }
    }
    if first.contains(d.max) {
        let k = choose|k: int| 0 <= k < first.len() && first[k] == d.max;
        assert(all[k] == d.max);
    }
    if second.contains(d.max) {
        let k = choose|k: int| 0 <= k < second.len() && second[k] == d.max;
        assert(all[first.len() + k] == d.max);
    }
    if first.contains(d.min) {
        let k = choose|k: int| 0 <= k < first.len() && first[k] == d.min;
        assert(all[k] == d.min);
    }
    if second.contains(d.min) {
        let k = choose|k: int| 0 <= k < second.len() && second[k] == d.min;
        assert(all[first.len() + k] == d.min);
    }
}

/// The values that a pixel takes in the frames.
pub open spec fn pixel_values(frames: Seq<Image>, i: int) -> Seq<Binary32> {
    frames.map_values(|f: Image| f.nth(i))
}

/// The max and min projections of a stack hold, at every pixel, the brightest
/// and the darkest value that it ever takes.
pub proof fn law_projections_are_extremes(len: nat, frames: Seq<Image>, i: int)
    requires
        0 <= i < len,
        forall|k: int|
            #![trigger frames[k]]
            0 <= k < frames.len() ==> frames[k].pixels.len() == len,
    ensures
        accumulated(len, frames).len() == len,
        is_extent(accumulated(len, frames)[i], pixel_values(frames, i)),
    decreases frames.len(),
{
    if frames.len() == 0 {
        assert(pixel_values(frames, i) =~= Seq::<Binary32>::empty());
        law_start_has_no_extremes();
    } else {
        let earlier = frames.drop_last();
        assert forall|k: int| #![trigger earlier[k]] 0 <= k < earlier.len() implies earlier[k].pixels.len()
            == len by {
            assert(earlier[k] == frames[k]);
        }
        law_projections_are_extremes(len, earlier, i);
        assert(frames[frames.len() - 1].pixels.len() == len);
        let v = frames.last().nth(i);
        law_extremes_follow_a_value(accumulated(len, earlier)[i], pixel_values(earlier, i), v);
        assert(pixel_values(frames, i) =~= pixel_values(earlier, i).push(v));
    }
}

/// What is accumulated does not depend on the bits of a NaN: the extremes are
/// numbers from the start, and every sum has one pattern for NaN.
pub proof fn lemma_settled_accumulation(len: nat, frames: Seq<Image>)
    ensures
        accumulated(len, settled_images(frames)) == accumulated(len, frames),
        accumulated(len, frames).len() == len,
        forall|i: int|
            #![trigger accumulated(len, frames)[i]]
            0 <= i < len ==> !accumulated(len, frames)[i].max.not_a_number() && !accumulated(
                len,
                frames,
            )[i].min.not_a_number(),
    decreases frames.len(),
{
    if frames.len() == 0 {
        assert(settled_images(frames) =~= frames);
    } else {
        let (head, last) = (frames.drop_last(), frames.last());
        lemma_settled_accumulation(len, head);
        assert(settled_images(frames).drop_last() =~= settled_images(head));
        let cells = accumulated(len, head);
        let (a, b) = (with_frame(cells, last.settled().pixels), with_frame(cells, last.pixels));
        assert forall|i: int| 0 <= i < len implies #[trigger] a[i] == b[i] && !b[i].max.not_a_number()
            && !b[i].min.not_a_number() by {
            assert(!cells[i].max.not_a_number() && !cells[i].min.not_a_number());
        }
        assert(a =~= b);
    }
}

/// The frames of two parts of a stack, accumulated apart and joined, have at every pixel
/// the extremes of the whole stack.
pub proof fn law_divided_stack_has_the_same_extremes(
    len: nat,
    first: Seq<Image>,
    second: Seq<Image>,
    i: int,
)
    requires
        0 <= i < len,
        forall|k: int|
            #![trigger first[k]]
            0 <= k < first.len() ==> first[k].pixels.len() == len,
        forall|k: int|
            #![trigger second[k]]
            0 <= k < second.len() ==> second[k].pixels.len() == len,
    ensures
        ({
            let both = joined(accumulated(len, first), accumulated(len, second));
            &&& both.len() == len
            &&& is_extent(both[i], pixel_values(first, i) + pixel_values(second, i))
        }),
{
    law_projections_are_extremes(len, first, i);
    law_projections_are_extremes(len, second, i);
    law_extremes_of_joined_parts(
        accumulated(len, first)[i],
        accumulated(len, second)[i],
        pixel_values(first, i),
        pixel_values(second, i),
    );
}

/// A frame changes the pixels that it has and no others.
pub proof fn law_frame_changes_its_own_pixels(cells: Seq<Cell>, frame: Seq<u32>, i: int)
    requires
        0 <= i < cells.len(),
    ensures
        with_frame(cells, frame).len() == cells.len(),
        i >= frame.len() ==> with_frame(cells, frame)[i] == cells[i],
        i < frame.len() ==> with_frame(cells, frame)[i] == with_frame(
            seq![cells[i]],
            seq![frame[i]],
        )[0],
{
}

} // verus!
