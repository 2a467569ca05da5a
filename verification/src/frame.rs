//! Images: two-dimensional arrays of binary32 numbers, held by their bits.
use crate::binary::{Binary32, Binary64};
use crate::crop::CropRect;
use crate::samples::settled_bits;
use vstd::prelude::*;

verus! {

/// An image of `(height, width)` pixels. The pixels are the bits of binary32
/// numbers, in an `ndarray::Array2`.
#[verifier::external_body]
pub struct Frame {
    data: ndarray::Array2<u32>,
}

/// `ndarray::ShapeError`: why a buffer does not make an array.
#[verifier::external_type_specification]
#[verifier::external_body]
pub struct ExShapeError(ndarray::ShapeError);

/// The elements of the array, row by row.
pub uninterp spec fn elements(f: Frame) -> Seq<u32>;

/// The number of rows and of columns of the array.
pub uninterp spec fn extent(f: Frame) -> (nat, nat);

/// What an image holds.
pub struct Image {
    pub rows: nat,
    pub cols: nat,
    pub pixels: Seq<u32>,
}

impl Image {
    /// There is a pixel for every row and column.
    pub open spec fn wf(self) -> bool {
        self.pixels.len() == self.rows * self.cols
    }

    /// The value in row `y` and column `x`.
    pub open spec fn at(self, y: int, x: int) -> Binary32 {
        Binary32 { bits: self.pixels[y * self.cols + x] }
    }

    /// The image with one pattern of bits for every NaN.
    pub open spec fn settled(self) -> Image {
        Image { pixels: settled_bits(self.pixels), ..self }
    }

    /// The value at a position counted row by row.
    pub open spec fn nth(self, i: int) -> Binary32 {
        Binary32 { bits: self.pixels[i] }
    }
}

impl View for Frame {
    type V = Image;

    open spec fn view(&self) -> Image {
        Image { rows: extent(*self).0, cols: extent(*self).1, pixels: elements(*self) }
    }
}

/// The product of the extents that are not zero fits in an `isize`, which is
/// what an array asks of its shape.
pub open spec fn addressable(h: nat, w: nat) -> bool {
    (if h == 0 {
        1
    } else {
        h
    }) * (if w == 0 {
        1
    } else {
        w
    }) <= isize::MAX
}

/// `Array2::from_shape_vec` takes the vector as the rows of the array, one
/// after the other. It fails exactly when the vector does not have as many
/// elements as the shape, or when the shape is too large to be addressed.
#[verifier::external_body]
fn from_shape_vec(h: usize, w: usize, v: Vec<u32>) -> (r: Result<Frame, ndarray::ShapeError>)
    ensures
        match r {
            Ok(f) => v@.len() == h * w && addressable(h as nat, w as nat) && elements(f) == v@
                && extent(f) == (h as nat, w as nat),
            Err(_) => !(v@.len() == h * w && addressable(h as nat, w as nat)),
        },
{
    Ok(Frame { data: ndarray::Array2::from_shape_vec((h, w), v)? })
}

/// `ArrayBase::dim` gives the number of rows and of columns; the array holds
/// one element for each, and its shape can be addressed.
#[verifier::external_body]
fn dim(f: &Frame) -> (r: (usize, usize))
    ensures
        (r.0 as nat, r.1 as nat) == extent(*f),
        r.0 * r.1 == elements(*f).len(),
        addressable(r.0 as nat, r.1 as nat),
{
    f.data.dim()
}

/// `ArrayBase::as_slice` gives the elements row by row. It gives `None` for an
/// array in another memory order; an array made by [`from_shape_vec`] is never
/// in another one.
#[verifier::external_body]
fn as_slice(f: &Frame) -> (r: Option<&[u32]>)
    ensures
        match r {
            Some(s) => s@ == elements(*f),
            None => false,
        },
{
    f.data.as_slice()
}

/// The array's index operator gives the element in row `y` and column `x`; it
/// panics outside the array.
#[verifier::external_body]
fn index(f: &Frame, y: usize, x: usize) -> (r: u32)
    requires
        y < extent(*f).0,
        x < extent(*f).1,
    ensures
        r == elements(*f)[y * extent(*f).1 + x],
{
    f.data[(y, x)]
}

impl Frame {
    /// The image of `h` rows and `w` columns whose pixels are given row by row.
    pub fn from_pixels(h: usize, w: usize, v: Vec<u32>) -> (r: Result<Frame, ndarray::ShapeError>)
        ensures
            r is Ok <==> v@.len() == h * w && addressable(h as nat, w as nat),
            r matches Ok(f) ==> f@ == (Image { rows: h as nat, cols: w as nat, pixels: v@ }),
            r matches Ok(f) ==> f@.wf(),
    {
        from_shape_vec(h, w, v)
    }

    /// The number of rows and of columns.
    pub fn shape(&self) -> (r: (usize, usize))
        ensures
            r.0 == self@.rows,
            r.1 == self@.cols,
            self@.wf(),
            addressable(r.0 as nat, r.1 as nat),
    {
        dim(self)
    }

    /// The number of pixels.
    pub fn len(&self) -> (n: usize)
        ensures
            n == self@.pixels.len(),
            self@.wf(),
    {
        let _shape: (usize, usize) = self.shape();
        self.pixels().len()
    }

    /// The pixels, row by row.
    pub fn pixels(&self) -> (s: &[u32])
        ensures
            s@ == self@.pixels,
    {
        match as_slice(self) {
            Some(s) => s,
            None => {
                assert(false);
                &[]
            },
        }
    }

    /// The value in row `y` and column `x`.
    pub fn at(&self, y: usize, x: usize) -> (v: Binary32)
        requires
            y < self@.rows,
            x < self@.cols,
        ensures
            v == self@.at(y as int, x as int),
    {
        Binary32 { bits: index(self, y, x) }
    }
}

// ----- sums --------------------------------------------------------------------

/// The sum in double precision of binary32 numbers, added from left to right.
pub open spec fn sum_of(s: Seq<u32>) -> Binary64
    decreases s.len(),
{
    if s.len() == 0 {
        Binary64::minus_zero()
    } else {
        sum_of(s.drop_last()).spec_plus((Binary32 { bits: s.last() }).spec_widen())
    }
}

impl Image {
    /// The pixels of a region, row by row.
    pub open spec fn region(self, r: CropRect) -> Seq<u32> {
        Seq::new(
            (r.width * r.height) as nat,
            |i: int|
                self.pixels[(r.y + i / (r.width as int)) * self.cols + r.x + i % (r.width as int)],
        )
    }
}

impl Frame {
    /// The total counts of the image.
    pub fn total(&self) -> (t: Binary64)
        ensures
            t == sum_of(self@.pixels),
    {
        let s: &[u32] = self.pixels();
        let mut t: Binary64 = Binary64::minus_zero();
        let mut i: usize = 0;
        proof {
            assert(s@.take(0) =~= Seq::<u32>::empty());
        }
        while i < s.len()
            invariant
                i <= s@.len(),
                t == sum_of(s@.take(i as int)),
            decreases s@.len() - i,
        {
            proof {
                assert(s@.take(i + 1).drop_last() =~= s@.take(i as int));
            }
            t = t.plus((Binary32 { bits: s[i] }).widen());
            i = i + 1;
        }
        proof {
            assert(s@.take(s@.len() as int) =~= s@);
        }
        t
    }

    /// The counts of a region.
    pub fn sum_region(&self, r: CropRect) -> (t: Binary64)
        requires
            r.within(self@.cols as int, self@.rows as int),
        ensures
            t == sum_of(self@.region(r)),
    {
        let (h, w): (usize, usize) = self.shape();
        let ghost area = self@.region(r);
        let mut t: Binary64 = Binary64::minus_zero();
        let mut y: usize = 0;
        proof {
            assert(area.take(0) =~= Seq::<u32>::empty());
            assert(0 * r.width == 0);
        }
        while y < r.height
            invariant
                y <= r.height,
                r.within(w as int, h as int),
                self@.cols == w,
                self@.rows == h,
                area == self@.region(r),
                t == sum_of(area.take(y * r.width)),
            decreases r.height - y,
        {
            let mut x: usize = 0;
            while x < r.width
                invariant
                    y < r.height,
                    x <= r.width,
                    r.within(w as int, h as int),
                    self@.cols == w,
                    self@.rows == h,
                    area == self@.region(r),
                    t == sum_of(area.take(y * r.width + x)),
                decreases r.width - x,
            {
                proof {
                    let i = y * r.width + x;
                    lemma_cell(y as int, x as int, r.width as int, r.height as int);
                    assert(area.take(i + 1).drop_last() =~= area.take(i));
                    assert(area[i] == self@.pixels[(r.y + y) * w + r.x + x]);
                    assert((r.y + y) * w + r.x + x == (r.y + y) * w + (r.x + x));
                }
                t = t.plus(self.at(r.y + y, r.x + x).widen());
                x = x + 1;
            }
            proof {
                assert(y * r.width + r.width == (y + 1) * r.width) by (nonlinear_arith);
            }
            y = y + 1;
        }
        proof {
            assert(r.height * r.width == r.width * r.height) by (nonlinear_arith);
            assert(area.take(area.len() as int) =~= area);
        }
        t
    }
}

/// A sum does not depend on the bits of a NaN.
pub proof fn lemma_settled_sum(s: Seq<u32>)
    ensures
        sum_of(settled_bits(s)) == sum_of(s),
    decreases s.len(),
{
    if s.len() > 0 {
        lemma_settled_sum(s.drop_last());
        assert(settled_bits(s).drop_last() =~= settled_bits(s.drop_last()));
    }
}

/// A position counted row by row is in the row and column it was made of.
pub proof fn lemma_cell(y: int, x: int, w: int, h: int)
    requires
        0 <= y < h,
        0 <= x < w,
    ensures
        0 <= y * w + x < w * h,
        (y * w + x) / w == y,
        (y * w + x) % w == x,
{
    vstd::arithmetic::div_mod::lemma_fundamental_div_mod_converse(y * w + x, w, y, x);
    assert(0 <= y * w + x < w * h) by (nonlinear_arith)
        requires
            0 <= y < h,
            0 <= x < w,
    ;
}

} // verus!
