//! Per-frame statistics of the crop, used to check that no image of the stack
//! loses important content:
//!
//! - **edge band** — mean counts in a thin band just inside the crop edge. If
//!   the sample never touches the crop boundary this curve stays flat at the
//!   open-beam level; a dip (transmission) or spike (bright feature) in some
//!   frame means the crop edge cuts through the sample in that frame.
//! - **inside / outside** — mean counts inside and outside the crop, to see
//!   what the crop keeps and what it throws away, frame by frame.
use crate::binary::Binary64;
use crate::crop::CropRect;
use crate::frame::{sum_of, Frame, Image};
use crate::order::{order_of, sort_positions};
use vstd::prelude::*;

verus! {

pub struct CropStats {
    /// Band width (pixels) the edge statistics were computed with.
    pub band: usize,
    /// Mean counts in the band just inside the crop edge, per frame.
    pub edge_mean: Vec<Binary64>,
    /// Mean counts inside the crop, per frame.
    pub inside_mean: Vec<Binary64>,
    /// Mean counts outside the crop, per frame (NaN when the crop covers the
    /// whole image).
    pub outside_mean: Vec<Binary64>,
}

/// The means of one frame.
#[derive(Clone, Copy, PartialEq, Eq, Structural, Debug)]
pub struct Means {
    pub edge: Binary64,
    pub inside: Binary64,
    pub outside: Binary64,
}

/// The region strictly inside the edge band; `None` when the crop is too small
/// for the band, in which case the whole crop is the band.
pub open spec fn inner_region(crop: CropRect, band: nat) -> Option<CropRect> {
    if crop.width > 2 * band && crop.height > 2 * band {
        Some(
            CropRect {
                x: (crop.x + band) as usize,
                y: (crop.y + band) as usize,
                width: (crop.width - 2 * band) as usize,
                height: (crop.height - 2 * band) as usize,
            },
        )
    } else {
        None
    }
}

/// The number of pixels of the edge band.
pub open spec fn band_area(crop: CropRect, band: nat) -> nat {
    match inner_region(crop, band) {
        Some(inner) => (crop.width * crop.height - inner.width * inner.height) as nat,
        None => (crop.width * crop.height) as nat,
    }
}

/// The counts in the edge band: those of the crop without those of the region
/// inside the band.
pub open spec fn band_sum(f: Image, crop: CropRect, band: nat) -> Binary64 {
    match inner_region(crop, band) {
        Some(inner) => sum_of(f.region(crop)).spec_minus(sum_of(f.region(inner))),
        None => sum_of(f.region(crop)),
    }
}

/// The means of a frame with the given total counts, in a stack whose frames
/// have `pixels` pixels.
pub open spec fn means_of(
    f: Image,
    total: Binary64,
    pixels: nat,
    crop: CropRect,
    band: nat,
) -> Means {
    let inside = sum_of(f.region(crop));
    let area = (crop.width * crop.height) as nat;
    let outside_area = (pixels - area) as nat;
    Means {
        edge: band_sum(f, crop, band).spec_over(Binary64::nearest_to(band_area(crop, band))),
        inside: inside.spec_over(Binary64::nearest_to(area)),
        outside: if outside_area > 0 {
            total.spec_minus(inside).spec_over(Binary64::nearest_to(outside_area))
        } else {
            Binary64::nan()
        },
    }
}

/// The statistics can be computed: the crop lies on every frame, and all frames
/// are images.
pub open spec fn measurable(frames: Seq<Frame>, crop: CropRect) -> bool {
    forall|i: int|
        #![trigger frames[i]]
        0 <= i < frames.len() ==> crop.within(frames[i]@.cols as int, frames[i]@.rows as int)
}

/// The region strictly inside the edge band.
pub fn inner_of(crop: CropRect, band: usize) -> (r: Option<CropRect>)
    requires
        crop.bounded(),
    ensures
        r == inner_region(crop, band as nat),
{
    if crop.width / 2 >= band && crop.height / 2 >= band && crop.width > 2 * band && crop.height > 2
        * band {
        Some(
            CropRect {
                x: crop.x + band,
                y: crop.y + band,
                width: crop.width - 2 * band,
                height: crop.height - 2 * band,
            },
        )
    } else {
        None
    }
}

pub proof fn lemma_areas(crop: CropRect, band: nat, w: nat, h: nat)
    requires
        crop.within(w as int, h as int),
    ensures
        0 <= crop.width * crop.height <= w * h,
        band_area(crop, band) <= crop.width * crop.height,
        crop.width > 0 && crop.height > 0 && band > 0 ==> band_area(crop, band) > 0,
        inner_region(crop, band) matches Some(inner) ==> inner.within(w as int, h as int)
            && inner.width * inner.height <= crop.width * crop.height,
{
    assert(0 <= crop.width * crop.height <= w * h) by (nonlinear_arith)
        requires
            0 <= crop.width <= w,
            0 <= crop.height <= h,
    ;
    if crop.width > 0 && crop.height > 0 {
        assert(crop.width * crop.height > 0) by (nonlinear_arith)
            requires
                crop.width > 0,
                crop.height > 0,
        ;
    }
    if let Some(inner) = inner_region(crop, band) {
        assert(inner.width == crop.width - 2 * band && inner.height == crop.height - 2 * band);
        assert(0 <= inner.width * inner.height <= crop.width * crop.height) by (nonlinear_arith)
            requires
                0 < inner.width <= crop.width,
                0 < inner.height <= crop.height,
        ;
        if band > 0 {
            assert(inner.width * inner.height < crop.width * crop.height) by (nonlinear_arith)
                requires
                    0 < inner.width < crop.width,
                    0 < inner.height < crop.height,
            ;
        }
    }
}

/// The means of one frame of a stack whose frames have `pixels` pixels.
pub fn frame_means(
    f: &Frame,
    total: Binary64,
    pixels: usize,
    crop: CropRect,
    band: usize,
) -> (m: Means)
    requires
        crop.within(f@.cols as int, f@.rows as int),
        crop.width * crop.height <= pixels,
    ensures
        m == means_of(f@, total, pixels as nat, crop, band as nat),
{
    let (h, w): (usize, usize) = f.shape();
    proof {
        lemma_areas(crop, band as nat, w as nat, h as nat);
    }
    let area: usize = crop.area();
    let inside_sum: Binary64 = f.sum_region(crop);
    let (edge_sum, edge_area): (Binary64, usize) = match inner_of(crop, band) {
        Some(inner) => (inside_sum.minus(f.sum_region(inner)), area - inner.area()),
        None => (inside_sum, area),
    };
    let outside_area: usize = pixels - area;
    Means {
        edge: edge_sum.over(Binary64::from_usize(edge_area)),
        inside: inside_sum.over(Binary64::from_usize(area)),
        outside: if outside_area > 0 {
            total.minus(inside_sum).over(Binary64::from_usize(outside_area))
        } else {
            Binary64::nan()
        },
    }
}

/// The statistics of the first `n` frames.
pub open spec fn stats_are(
    s: CropStats,
    frames: Seq<Frame>,
    totals: Seq<Binary64>,
    crop: CropRect,
    band: usize,
    n: int,
) -> bool {
    let means = |i: int|
        means_of(frames[i]@, totals[i], frames[0]@.pixels.len(), crop, band as nat);
    &&& s.band == band
    &&& s.edge_mean@ == Seq::new(n as nat, |i: int| means(i).edge)
    &&& s.inside_mean@ == Seq::new(n as nat, |i: int| means(i).inside)
    &&& s.outside_mean@ == Seq::new(n as nat, |i: int| means(i).outside)
}

/// The statistics made of the means of each frame.
pub fn collect(means: &Vec<Means>, band: usize) -> (s: CropStats)
    ensures
        s.band == band,
        s.edge_mean@ == means@.map_values(|m: Means| m.edge),
        s.inside_mean@ == means@.map_values(|m: Means| m.inside),
        s.outside_mean@ == means@.map_values(|m: Means| m.outside),
{
    let mut s: CropStats = CropStats {
        band,
        edge_mean: Vec::new(),
        inside_mean: Vec::new(),
        outside_mean: Vec::new(),
    };
    let mut i: usize = 0;
    while i < means.len()
        invariant
            i <= means@.len(),
            s.band == band,
            s.edge_mean@ == means@.take(i as int).map_values(|m: Means| m.edge),
            s.inside_mean@ == means@.take(i as int).map_values(|m: Means| m.inside),
            s.outside_mean@ == means@.take(i as int).map_values(|m: Means| m.outside),
        decreases means@.len() - i,
    {
        let m: Means = means[i];
        s.edge_mean.push(m.edge);
        s.inside_mean.push(m.inside);
        s.outside_mean.push(m.outside);
        i = i + 1;
    }
    proof {
        assert(means@.take(means@.len() as int) =~= means@);
    }
    s
}

/// Compute the per-frame crop statistics. `frame_totals[i]` must be the total
/// counts of `frames[i]` (precomputed at load time).
pub fn compute(
    frames: &Vec<Frame>,
    frame_totals: &Vec<Binary64>,
    crop: CropRect,
    band: usize,
) -> (s: CropStats)
    requires
        measurable(frames@, crop),
    ensures
        stats_are(
            s,
            frames@,
            frame_totals@,
            crop,
            band,
            if frames@.len() < frame_totals@.len() {
                frames@.len() as int
            } else {
                frame_totals@.len() as int
            },
        ),
{
    let mut means: Vec<Means> = Vec::new();
    if frames.len() > 0 {
        let pixels: usize = frames[0].len();
        proof {
            assert(crop.within(frames@[0]@.cols as int, frames@[0]@.rows as int));
            lemma_areas(crop, band as nat, frames@[0]@.cols, frames@[0]@.rows);
            assert(frames@[0]@.cols * frames@[0]@.rows == frames@[0]@.rows * frames@[0]@.cols)
                by (nonlinear_arith);
        }
        let mut i: usize = 0;
        while i < frames.len() && i < frame_totals.len()
            invariant
                i <= frames@.len(),
                i <= frame_totals@.len(),
                measurable(frames@, crop),
                pixels == frames@[0]@.pixels.len(),
                crop.width * crop.height <= pixels,
                means@ == Seq::new(
                    i as nat,
                    |k: int| means_of(frames@[k]@, frame_totals@[k], pixels as nat, crop, band as nat),
                ),
            decreases frames@.len() - i,
        {
            means.push(frame_means(&frames[i], frame_totals[i], pixels, crop, band));
            i = i + 1;
        }
    }
    let s: CropStats = collect(&means, band);
    proof {
        let n = means@.len();
        let m = |i: int|
            means_of(frames@[i]@, frame_totals@[i], frames@[0]@.pixels.len(), crop, band as nat);
        assert(s.edge_mean@ =~= Seq::new(n, |i: int| m(i).edge));
        assert(s.inside_mean@ =~= Seq::new(n, |i: int| m(i).inside));
        assert(s.outside_mean@ =~= Seq::new(n, |i: int| m(i).outside));
    }
    s
}

// ----- the most suspicious frame -----------------------------------------------

/// Which values are finite.
pub open spec fn finite_ones(values: Seq<Binary64>) -> Seq<bool> {
    values.map_values(|v: Binary64| v.finite())
}

/// The value in the middle of the finite ones, or half the sum of the two in
/// the middle.
pub open spec fn median_of(values: Seq<Binary64>) -> Binary64 {
    let order = order_of(values, finite_ones(values));
    let mid = order.len() as int / 2;
    if order.len() % 2 == 0 {
        values[order[mid - 1] as int].spec_plus(values[order[mid] as int]).spec_over(Binary64::two())
    } else {
        values[order[mid] as int]
    }
}

/// How far a value lies from the median.
pub open spec fn deviation(values: Seq<Binary64>, i: int) -> Binary64 {
    values[i].spec_minus(median_of(values)).spec_abs()
}

/// Position `i` is finite and farthest from the median, and the last such one.
pub open spec fn is_farthest(values: Seq<Binary64>, i: int) -> bool {
    &&& 0 <= i < values.len()
    &&& values[i].finite()
    &&& forall|j: int|
        #![trigger values[j]]
        0 <= j < values.len() && values[j].finite() ==> {
            ||| deviation(values, j).place() < deviation(values, i).place()
            ||| deviation(values, j).place() == deviation(values, i).place() && j <= i
        }
}

impl CropStats {
    /// Frame whose edge-band mean deviates the most from the median edge-band
    /// mean — the most suspicious image to inspect, whether the feature
    /// crossing the edge is dark (transmission) or bright.
    pub fn most_suspicious_frame(&self) -> (r: Option<usize>)
        ensures
            match r {
                Some(i) => is_farthest(self.edge_mean@, i as int),
                None => forall|i: int|
                    #![trigger self.edge_mean@[i]]
                    0 <= i < self.edge_mean@.len() ==> !self.edge_mean@[i].finite(),
            },
    {
        let values: &Vec<Binary64> = &self.edge_mean;
        let mut picked: Vec<bool> = Vec::new();
        let mut i: usize = 0;
        while i < values.len()
            invariant
                i <= values@.len(),
                picked@ == finite_ones(values@.take(i as int)),
            decreases values@.len() - i,
        {
            picked.push(values[i].is_finite());
            i = i + 1;
        }
        proof {
            assert(values@.take(values@.len() as int) =~= values@);
        }
        let order: Vec<usize> = sort_positions(values, &picked);
        if order.len() == 0 {
            proof {
                assert forall|i: int|
                    #![trigger self.edge_mean@[i]]
                    0 <= i < self.edge_mean@.len() implies !self.edge_mean@[i].finite() by {
                    if values@[i].finite() {
                        assert(picked@[i]);
                        assert(order@.contains(i as usize));
                    }
                }
            }
            return None;
        }
        let mid: usize = order.len() / 2;
        proof {
            assert(order@[mid as int] < values@.len());
            if order@.len() % 2 == 0 {
                assert(order@[mid - 1] < values@.len());
            }
        }
        let median: Binary64 = if order.len() % 2 == 0 {
            values[order[mid - 1]].plus(values[order[mid]]).over(
                Binary64::two(),
            )
        } else {
            values[order[mid]]
        };
        proof {
            assert(median == median_of(values@));
        }
        let mut best: Option<(usize, Binary64)> = None;
        let mut i: usize = 0;
        while i < values.len()
            invariant
                i <= values@.len(),
                median == median_of(values@),
                match best {
                    Some(b) => {
                        &&& b.0 < i
                        &&& values@[b.0 as int].finite()
                        &&& b.1 == deviation(values@, b.0 as int)
                        &&& forall|j: int|
                            #![trigger values@[j]]
                            0 <= j < i && values@[j].finite() ==> {
                                ||| deviation(values@, j).place() < b.1.place()
                                ||| deviation(values@, j).place() == b.1.place() && j <= b.0
                            }
                    },
                    None => forall|j: int|
                        #![trigger values@[j]]
                        0 <= j < i ==> !values@[j].finite(),
                },
            decreases values@.len() - i,
        {
            let v: Binary64 = values[i];
            if v.is_finite() {
                let d: Binary64 = v.minus(median).abs();
                best = match best {
                    Some(b) => {
                        if d.is_before(b.1) {
                            Some(b)
                        } else {
                            Some((i, d))
                        }
                    },
                    None => Some((i, d)),
                };
            }
            i = i + 1;
        }
        match best {
            Some(b) => Some(b.0),
            None => None,
        }
    }

    // ----- laws ----------------------------------------------------------------

    /// The frame that is singled out is the only one that qualifies.
    pub proof fn law_farthest_is_one(values: Seq<Binary64>, i: int, j: int)
        requires
            is_farthest(values, i),
            is_farthest(values, j),
        ensures
            i == j,
    {
        let (a, b) = (values[i], values[j]);
    }
}

/// Every frame of the stack gets its means, when every frame has its total.
pub proof fn law_every_frame_is_measured(
    s: CropStats,
    frames: Seq<Frame>,
    totals: Seq<Binary64>,
    crop: CropRect,
    band: usize,
)
    requires
        stats_are(s, frames, totals, crop, band, frames.len() as int),
    ensures
        s.edge_mean@.len() == frames.len(),
        s.inside_mean@.len() == frames.len(),
        s.outside_mean@.len() == frames.len(),
{
}

/// The edge band and the region inside it make up the crop, and the band is
/// never empty when it is at least one pixel wide.
pub proof fn law_band_and_inner_make_the_crop(crop: CropRect, band: nat)
    requires
        crop.width > 0,
        crop.height > 0,
        crop.bounded(),
        band > 0,
    ensures
        band_area(crop, band) > 0,
        match inner_region(crop, band) {
            Some(inner) => {
                &&& band_area(crop, band) + inner.width * inner.height == crop.width * crop.height
                &&& forall|px: int, py: int|
                    inner.has(px, py) <==> (crop.x + band <= px < crop.x + crop.width - band
                        && crop.y + band <= py < crop.y + crop.height - band)
            },
            None => band_area(crop, band) == crop.width * crop.height,
        },
{
    let (w, h) = ((crop.x + crop.width) as nat, (crop.y + crop.height) as nat);
    lemma_areas(crop, band, w, h);
}

/// A crop of the whole image has no outside.
pub proof fn law_full_image_has_no_outside(f: Image, total: Binary64, band: nat)
    requires
        f.cols <= usize::MAX,
        f.rows <= usize::MAX,
    ensures
        means_of(
            f,
            total,
            f.cols * f.rows,
            CropRect { x: 0, y: 0, width: f.cols as usize, height: f.rows as usize },
            band,
        ).outside.not_a_number(),
{
}

} // verus!
