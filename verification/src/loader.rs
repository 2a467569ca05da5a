//! Loading one folder of TIFF images.
//!
//! Every frame is normalised to a [`Frame`] of `(height, width)` pixels,
//! row-major. Besides the frames themselves, the loader computes the pixel-wise
//! projections used to judge a crop against the whole stack: sum, mean, max,
//! min and standard deviation, plus the total counts of each frame.
//!
//! Pages of JPEG data are refused.
use crate::binary::Binary64;
use crate::crop::ends_with;
use crate::directory::{
    countable, first_place, is_jpeg, page_place, placed, visit, Place, Visit,
};
use crate::frame::{addressable, lemma_settled_sum, sum_of, Frame, Image};
use crate::npy::NpyFault;
use crate::order::{is_order, order_of, sort_positions};
use crate::project::{accumulated, lemma_settled_accumulation, settled_images, Acc, Cell};
use crate::samples::{settled_bits, Numbers, Samples};
use crate::text::{decimal, lemma_decimal, push_decimal, viewed_option};
use std::io::Cursor;
use tiff::decoder::{Decoder, DecodingResult};
use tiff::TiffError;
use vstd::prelude::*;
use vstd::string::*;

verus! {

// ----- errors ------------------------------------------------------------------

/// Why a folder could not be loaded.
#[derive(Debug)]
pub enum LoadError {
    /// There is no TIFF file in the folder.
    NoTiff,
    /// A file is not a TIFF file, or not one that can be decoded.
    Tiff(TiffError),
    /// A page has more strips or tiles than can be counted, or wider ones than can be
    /// held.
    Chunks,
    /// The samples of a page are compressed as JPEG data. Such pages are not read:
    /// the decoder of these data does not return on all of them.
    Jpeg,
    /// An image is too large to be addressed.
    Shape(ndarray::ShapeError),
    /// A page does not have a whole number of samples for each pixel.
    PixelCount { count: usize, width: usize, height: usize },
    /// A page has another size than the first one.
    SizeMismatch {
        file: usize,
        width: usize,
        height: usize,
        first_width: usize,
        first_height: usize,
    },
    /// There was not a single page.
    NoFrames,
    /// A stack file cannot be read.
    Npy(NpyFault),
}

/// What went wrong, without the words of the crate that found it.
pub enum Fault {
    NoTiff,
    Tiff,
    Chunks,
    Jpeg,
    Shape,
    PixelCount { count: nat, width: nat, height: nat },
    SizeMismatch { file: nat, width: nat, height: nat, first_width: nat, first_height: nat },
    NoFrames,
    Npy(NpyFault),
}

impl LoadError {
    pub open spec fn fault(self) -> Fault {
        match self {
            LoadError::NoTiff => Fault::NoTiff,
            LoadError::Tiff(_) => Fault::Tiff,
            LoadError::Chunks => Fault::Chunks,
            LoadError::Jpeg => Fault::Jpeg,
            LoadError::Shape(_) => Fault::Shape,
            LoadError::PixelCount { count, width, height } => Fault::PixelCount {
                count: count as nat,
                width: width as nat,
                height: height as nat,
            },
            LoadError::SizeMismatch { file, width, height, first_width, first_height } =>
                Fault::SizeMismatch {
                    file: file as nat,
                    width: width as nat,
                    height: height as nat,
                    first_width: first_width as nat,
                    first_height: first_height as nat,
                },
            LoadError::NoFrames => Fault::NoFrames,
            LoadError::Npy(e) => Fault::Npy(e),
        }
    }

    /// What is said of the error, unless another crate has words for it: `dir`
    /// is the folder, and `file` the file that was being read.
    pub open spec fn words(self, dir: Seq<char>, file: Seq<char>) -> Option<Seq<char>> {
        match self {
            LoadError::NoTiff => Some("No TIFF files found in "@ + dir),
            LoadError::Tiff(_) => None,
            LoadError::Chunks => Some("The strips or tiles of a page are too many or too wide"@),
            LoadError::Jpeg => Some("JPEG-compressed pages are not read"@),
            LoadError::Shape(_) => None,
            LoadError::PixelCount { count, width, height } => Some(
                "Pixel count "@ + decimal(count as nat) + " is not compatible with "@ + size_text(
                    width as nat,
                    height as nat,
                ),
            ),
            LoadError::SizeMismatch { width, height, first_width, first_height, .. } => Some(
                "Frame size mismatch: "@ + size_text(width as nat, height as nat) + " in "@ + file
                    + " does not match "@ + size_text(first_width as nat, first_height as nat),
            ),
            LoadError::NoFrames => Some("No frames were loaded"@),
            LoadError::Npy(NpyFault::Format) => Some("not a .npy array"@),
            LoadError::Npy(NpyFault::Type) => Some("the .npy array does not hold real numbers"@),
            LoadError::Npy(NpyFault::Shape) => Some("the .npy array is neither 2-D nor 3-D"@),
            LoadError::Npy(NpyFault::Length) => Some(
                "the .npy file does not hold as many elements as its shape"@,
            ),
        }
    }

    /// What is said of the error, unless another crate has words for it: `dir`
    /// is the folder, and `file` the file that was being read.
    pub fn message(&self, dir: &str, file: &str) -> (r: Option<String>)
        ensures
            viewed_option(r) == self.words(dir@, file@),
    {
        match self {
            LoadError::NoTiff => {
                let mut m: String = "No TIFF files found in ".to_owned();
                m.append(dir);
                Some(m)
            },
            LoadError::Tiff(_) => None,
            LoadError::Chunks => Some(
                "The strips or tiles of a page are too many or too wide".to_owned(),
            ),
            LoadError::Jpeg => Some("JPEG-compressed pages are not read".to_owned()),
            LoadError::Shape(_) => None,
            LoadError::PixelCount { count, width, height } => {
                let mut m: String = "Pixel count ".to_owned();
                push_decimal(&mut m, *count as u128);
                m.append(" is not compatible with ");
                m.append(size_message(*width, *height).as_str());
                Some(m)
            },
            LoadError::SizeMismatch { width, height, first_width, first_height, .. } => {
                let mut m: String = "Frame size mismatch: ".to_owned();
                m.append(size_message(*width, *height).as_str());
                m.append(" in ");
                m.append(file);
                m.append(" does not match ");
                m.append(size_message(*first_width, *first_height).as_str());
                Some(m)
            },
            LoadError::NoFrames => Some("No frames were loaded".to_owned()),
            LoadError::Npy(NpyFault::Format) => Some("not a .npy array".to_owned()),
            LoadError::Npy(NpyFault::Type) => Some(
                "the .npy array does not hold real numbers".to_owned(),
            ),
            LoadError::Npy(NpyFault::Shape) => Some(
                "the .npy array is neither 2-D nor 3-D".to_owned(),
            ),
            LoadError::Npy(NpyFault::Length) => Some(
                "the .npy file does not hold as many elements as its shape".to_owned(),
            ),
        }
    }
}

/// The size of an image.
pub open spec fn size_text(w: nat, h: nat) -> Seq<char> {
    decimal(w) + "x"@ + decimal(h)
}

fn size_message(w: usize, h: usize) -> (r: String)
    ensures
        r@ == size_text(w as nat, h as nat),
{
    let mut r: String = String::new();
    push_decimal(&mut r, w as u128);
    r.append("x");
    push_decimal(&mut r, h as u128);
    proof {
        assert(r@ =~= size_text(w as nat, h as nat));
    }
    r
}

/// The images of a list of frames.
pub open spec fn images(frames: Seq<Frame>) -> Seq<Image> {
    frames.map_values(|f: Frame| f@)
}

/// A list of frames by its images, an error by its fault.
pub open spec fn outcome(r: Result<Vec<Frame>, LoadError>) -> Result<Seq<Image>, Fault> {
    match r {
        Ok(v) => Ok(images(v@)),
        Err(e) => Err(e.fault()),
    }
}

// ----- pages -------------------------------------------------------------------

/// `tiff::TiffError`: why a file cannot be decoded.
#[verifier::external_type_specification]
#[verifier::external_body]
pub struct ExTiffError(TiffError);

/// `tiff::decoder::DecodingResult`: a decoded page, as a vector of samples of
/// one of eleven types.
#[verifier::external_type_specification]
#[verifier::external_body]
pub struct ExDecodingResult(DecodingResult);

/// The samples that a decoding result holds.
pub uninterp spec fn decoded(d: DecodingResult) -> Numbers;

/// What decoding page `index` of a TIFF file gives: width, height, samples with one
/// pattern of bits for every NaN, and whether another page follows; `None` when it
/// fails.
pub uninterp spec fn page(bytes: Seq<u8>, index: nat) -> Option<(u32, u32, Numbers, bool)>;

/// `tiff::decoder::Decoder`: opened on the bytes with `new`, moved to a page with
/// `seek_to_image`, asked for its `dimensions`, its samples with `read_image`, and
/// for `more_images`. What comes out is a function of the bytes and the index, but
/// for the bits of a NaN: the decoder inverts floating-point samples by a subtraction
/// where zero is white. Which error comes out is left open. The decoder follows a
/// chain of directories, all at different places of the file, so that there are fewer
/// pages than bytes. Of the first page and of this one it multiplies the number of
/// strips or tiles by that of planes, which overflows where they cannot be counted,
/// and it asks for the memory of a row of them at once: such pages are left out where
/// they are too many or too wide. So are pages of JPEG data, which the crate
/// `zune-jpeg` expands: it indexes past the components of some frames, and its
/// arithmetic can overflow. Other compressed samples are expanded by `weezl`,
/// `flate2` and `fax`.
#[verifier::external_body]
fn decode_page(bytes: &[u8], index: usize) -> (r: Result<
    (u32, u32, DecodingResult, bool),
    TiffError,
>)
    requires
        countable(bytes@, 0),
        countable(bytes@, index as nat),
        !is_jpeg(bytes@, index as nat),
    ensures
        match r {
            Ok(p) => index < bytes@.len() && page(bytes@, index as nat) == Some(
                (p.0, p.1, decoded(p.2).settled(), p.3),
            ),
            Err(_) => page(bytes@, index as nat) is None,
        },
{
    let mut decoder = Decoder::new(Cursor::new(bytes))?;
    decoder.seek_to_image(index)?;
    let (w, h) = decoder.dimensions()?;
    let samples = decoder.read_image()?;
    Ok((w, h, samples, decoder.more_images()))
}

/// The integer samples of a `tiff::decoder::DecodingResult`; one of
/// floating-point samples is handed back.
#[verifier::external_body]
fn integer_samples(d: DecodingResult) -> (r: Result<Samples, DecodingResult>)
    ensures
        match r {
            Ok(s) => s@ == decoded(d),
            Err(rest) => decoded(rest) == decoded(d) && (decoded(rest) is F16 || decoded(rest) is F32
                || decoded(rest) is F64),
        },
{
    match d {
        DecodingResult::U8(v) => Ok(Samples::U8(v)),
        DecodingResult::U16(v) => Ok(Samples::U16(v)),
        DecodingResult::U32(v) => Ok(Samples::U32(v)),
        DecodingResult::U64(v) => Ok(Samples::U64(v)),
        DecodingResult::I8(v) => Ok(Samples::I8(v)),
        DecodingResult::I16(v) => Ok(Samples::I16(v)),
        DecodingResult::I32(v) => Ok(Samples::I32(v)),
        DecodingResult::I64(v) => Ok(Samples::I64(v)),
        rest => Err(rest),
    }
}

/// The floating-point samples of a `tiff::decoder::DecodingResult`, by their
/// bits; half precision ones after `half::f16::to_f32`.
#[verifier::external_body]
fn float_samples(d: DecodingResult) -> (r: Option<Samples>)
    ensures
        match r {
            Some(s) => s@ == decoded(d),
            None => !(decoded(d) is F16 || decoded(d) is F32 || decoded(d) is F64),
        },
{
    match d {
        DecodingResult::F16(v) => {
            Some(Samples::F16(v.into_iter().map(|x| x.to_f32().to_bits()).collect()))
        },
        DecodingResult::F32(v) => Some(Samples::F32(v.into_iter().map(|x| x.to_bits()).collect())),
        DecodingResult::F64(v) => Some(Samples::F64(v.into_iter().map(|x| x.to_bits()).collect())),
        _ => None,
    }
}

fn samples_of(d: DecodingResult) -> (s: Samples)
    ensures
        s@ == decoded(d),
{
    match integer_samples(d) {
        Ok(s) => s,
        Err(rest) => match float_samples(rest) {
            Some(s) => s,
            None => {
                assert(false);
                Samples::U8(Vec::new())
            },
        },
    }
}

/// The pixels of a page with the given samples: one for each pixel, or the
/// first of several; `None` when the samples do not come out even.
pub open spec fn first_samples(values: Seq<u32>, w: nat, h: nat) -> Option<Seq<u32>> {
    let expected = w * h;
    if values.len() == expected {
        Some(values)
    } else if expected > 0 && values.len() > 0 && values.len() % expected == 0 {
        let per_pixel = values.len() / expected;
        Some(Seq::new(expected, |i: int| values[i * per_pixel]))
    } else {
        None
    }
}

/// The image that samples make.
pub open spec fn frame_of(values: Seq<u32>, w: nat, h: nat) -> Result<Image, Fault> {
    match first_samples(values, w, h) {
        Some(pixels) => if addressable(h, w) {
            Ok(Image { rows: h, cols: w, pixels })
        } else {
            Err(Fault::Shape)
        },
        None => Err(Fault::PixelCount { count: values.len(), width: w, height: h }),
    }
}

/// A frame by its image, an error by its fault.
pub open spec fn framed(r: Result<Frame, LoadError>) -> Result<Image, Fault> {
    match r {
        Ok(f) => Ok(f@),
        Err(e) => Err(e.fault()),
    }
}

fn shaped(h: usize, w: usize, pixels: Vec<u32>) -> (r: Result<Frame, LoadError>)
    requires
        pixels@.len() == h * w,
    ensures
        framed(r) == (if addressable(h as nat, w as nat) {
            Ok::<Image, Fault>(Image { rows: h as nat, cols: w as nat, pixels: pixels@ })
        } else {
            Err(Fault::Shape)
        }),
{
    match Frame::from_pixels(h, w, pixels) {
        Ok(f) => Ok(f),
        Err(e) => Err(LoadError::Shape(e)),
    }
}

/// Turn a flat, row-major buffer into an `(h, w)` image. If the buffer carries
/// several samples per pixel (e.g. RGB TIFF) only the first sample is kept.
pub fn to_frame(values: Vec<u32>, w: usize, h: usize) -> (r: Result<Frame, LoadError>)
    ensures
        framed(r) == frame_of(values@, w as nat, h as nat),
{
    let count: usize = values.len();
    proof {
        assert(w * h == h * w) by (nonlinear_arith);
        if w * h > usize::MAX {
            vstd::arithmetic::div_mod::lemma_small_mod(count as nat, (w * h) as nat);
        }
    }
    let expected: usize = match w.checked_mul(h) {
        Some(n) => n,
        None => return Err(LoadError::PixelCount { count, width: w, height: h }),
    };
    if count == expected {
        return shaped(h, w, values);
    }
    if expected > 0 && count > 0 && count % expected == 0 {
        let per_pixel: usize = count / expected;
        let mut first: Vec<u32> = Vec::with_capacity(expected);
        let mut i: usize = 0;
        proof {
            vstd::arithmetic::div_mod::lemma_fundamental_div_mod(count as int, expected as int);
        }
        while i < expected
            invariant
                i <= expected,
                count == values@.len(),
                count == expected * per_pixel,
                count > 0,
                first@ == Seq::new(i as nat, |k: int| values@[k * per_pixel]),
            decreases expected - i,
        {
            proof {
                assert(0 <= i * per_pixel < count) by (nonlinear_arith)
                    requires
                        i < expected,
                        count == expected * per_pixel,
                        count > 0,
                ;
            }
            first.push(values[i * per_pixel]);
            i = i + 1;
        }
        return shaped(h, w, first);
    }
    Err(LoadError::PixelCount { count, width: w, height: h })
}

/// The image of a decoded page.
pub fn page_frame(w: u32, h: u32, samples: Samples) -> (r: Result<Frame, LoadError>)
    ensures
        framed(r) == frame_of(samples@.singles(), w as nat, h as nat),
{
    to_frame(samples.into_singles(), w as usize, h as usize)
}

/// Settling the samples settles the image.
proof fn lemma_settled_frame(values: Seq<u32>, w: nat, h: nat)
    ensures
        frame_of(settled_bits(values), w, h) == (match frame_of(values, w, h) {
            Ok(f) => Ok::<Image, Fault>(f.settled()),
            Err(e) => Err(e),
        }),
{
    let s = settled_bits(values);
    let n = w * h;
    if values.len() != n && n > 0 && values.len() > 0 && values.len() % n == 0 {
        let k = values.len() / n;
        vstd::arithmetic::div_mod::lemma_fundamental_div_mod(values.len() as int, n as int);
        let (a, b) = (Seq::new(n, |i: int| s[i * k]), Seq::new(n, |i: int| values[i * k]));
        assert forall|i: int| 0 <= i < n implies #[trigger] a[i] == settled_bits(b)[i] by {
            assert(0 <= i * k < values.len()) by (nonlinear_arith)
                requires
                    0 <= i < n,
                    values.len() == n * k,
                    values.len() > 0,
            ;
        }
        assert(a =~= settled_bits(b));
    }
}

/// Pages with one pattern of bits for every NaN.
pub open spec fn settled_pages(r: Result<Seq<Image>, Fault>) -> Result<Seq<Image>, Fault> {
    match r {
        Ok(all) => Ok(settled_images(all)),
        Err(e) => Err(e),
    }
}

/// The images of the pages of a file, from page `index` on, with one pattern of bits
/// for every NaN.
pub open spec fn pages_from(bytes: Seq<u8>, index: nat) -> Result<Seq<Image>, Fault>
    decreases bytes.len() - index,
{
    if !countable(bytes, index) {
        Err(Fault::Chunks)
    } else if is_jpeg(bytes, index) {
        Err(Fault::Jpeg)
    } else {
        match page(bytes, index) {
            Some((w, h, samples, more)) if index < bytes.len() => match frame_of(
                samples.singles(),
                w as nat,
                h as nat,
            ) {
                Ok(f) => if more {
                    match pages_from(bytes, index + 1) {
                        Ok(rest) => Ok(seq![f] + rest),
                        Err(e) => Err(e),
                    }
                } else {
                    Ok(seq![f])
                },
                Err(e) => Err(e),
            },
            _ => Err(Fault::Tiff),
        }
    }
}

/// Read every page of a (possibly multi-page) TIFF file. Pages of JPEG data are
/// refused.
pub fn load_tiff(bytes: &[u8]) -> (r: Result<Vec<Frame>, LoadError>)
    ensures
        settled_pages(outcome(r)) == pages_from(bytes@, 0),
{
    let mut out: Vec<Frame> = Vec::new();
    let mut index: usize = 0;
    let mut place: Option<Place> = first_place(bytes);
    let len: usize = bytes.len();
    let ghost whole = pages_from(bytes@, 0);
    proof {
        assert(settled_images(images(out@)) =~= Seq::<Image>::empty());
        if let Ok(rest) = whole {
            assert(settled_images(images(out@)) + rest =~= rest);
        }
    }
    loop
        invariant
            index <= len,
            len == bytes@.len(),
            placed(place) == page_place(bytes@, index as nat),
            index > 0 ==> countable(bytes@, 0),
            whole == (match pages_from(bytes@, index as nat) {
                Ok(rest) => Ok::<Seq<Image>, Fault>(settled_images(images(out@)) + rest),
                Err(e) => Err(e),
            }),
            whole == pages_from(bytes@, 0),
        decreases bytes@.len() - index,
    {
        let ghost before = settled_images(images(out@));
        let found: Visit = visit(bytes, place, index);
        if !found.countable {
            return Err(LoadError::Chunks);
        }
        if found.jpeg {
            return Err(LoadError::Jpeg);
        }
        place = found.next;
        match decode_page(bytes, index) {
            Err(e) => {
                return Err(LoadError::Tiff(e));
            },
            Ok((w, h, data, more)) => {
                proof {
                    let values = decoded(data);
                    values.lemma_settled_singles();
                    lemma_settled_frame(values.singles(), w as nat, h as nat);
                }
                match page_frame(w, h, samples_of(data)) {
                    Err(e) => {
                        return Err(e);
                    },
                    Ok(f) => {
                        let ghost image = f@.settled();
                        out.push(f);
                        proof {
                            assert(settled_images(images(out@)) =~= before.push(image));
                            assert(before.push(image) =~= before + seq![image]);
                        }
                        if !more {
                            return Ok(out);
                        }
                        index = index + 1;
                        proof {
                            if let Ok(rest) = pages_from(bytes@, index as nat) {
                                assert(before + (seq![image] + rest) =~= settled_images(
                                    images(out@),
                                ) + rest);
                            }
                        }
                    },
                }
            },
        }
    }
}

// ----- the files of a folder -----------------------------------------------------

/// An entry of a directory: the bytes of its name, and whether it is a file.
pub struct DirEntry {
    pub name: Vec<u8>,
    pub is_file: bool,
}

/// A byte in lower case, if it is a letter of ASCII.
pub open spec fn lower(b: u8) -> u8 {
    if 65 <= b <= 90 {
        (b + 32) as u8
    } else {
        b
    }
}

/// The name ends in a dot and `ext`, in any case, with something before it.
pub open spec fn has_extension(name: Seq<u8>, ext: Seq<u8>) -> bool {
    let start = name.len() - ext.len();
    &&& start > 1
    &&& name[start - 1] == 46
    &&& name.skip(start).map_values(|b: u8| lower(b)) == ext
}

/// The name of a TIFF file.
pub open spec fn tiff_name(name: Seq<u8>) -> bool {
    has_extension(name, seq![116u8, 105, 102]) || has_extension(name, seq![116u8, 105, 102, 102])
}

/// Which entries are TIFF files.
pub open spec fn tiff_files(entries: Seq<DirEntry>) -> Seq<bool> {
    entries.map_values(|e: DirEntry| e.is_file && tiff_name(e.name@))
}

/// The names of the entries.
pub open spec fn names(entries: Seq<DirEntry>) -> Seq<Vec<u8>> {
    entries.map_values(|e: DirEntry| e.name)
}

fn lower_byte(b: u8) -> (r: u8)
    ensures
        r == lower(b),
{
    if 65 <= b && b <= 90 {
        b + 32
    } else {
        b
    }
}

/// Whether the name ends in a dot and the extension.
pub fn ends_in(name: &Vec<u8>, ext: &Vec<u8>) -> (r: bool)
    ensures
        r == has_extension(name@, ext@),
{
    let len: usize = name.len();
    if len <= ext.len() || len - ext.len() <= 1 {
        return false;
    }
    let start: usize = len - ext.len();
    let ghost tail = name@.skip(start as int).map_values(|b: u8| lower(b));
    if name[start - 1] != 46 {
        return false;
    }
    let mut i: usize = 0;
    while i < ext.len()
        invariant
            i <= ext@.len(),
            len == name@.len(),
            start + ext@.len() == len,
            tail == name@.skip(start as int).map_values(|b: u8| lower(b)),
            forall|k: int| 0 <= k < i ==> tail[k] == ext@[k],
        decreases ext@.len() - i,
    {
        if lower_byte(name[start + i]) != ext[i] {
            proof {
                assert(tail[i as int] != ext@[i as int]);
            }
            return false;
        }
        i = i + 1;
    }
    proof {
        assert(tail =~= ext@);
    }
    true
}

/// Whether the name is that of a TIFF file.
pub fn is_tiff_name(name: &Vec<u8>) -> (r: bool)
    ensures
        r == tiff_name(name@),
{
    let tif: Vec<u8> = vec![116, 105, 102];
    let tiff: Vec<u8> = vec![116, 105, 102, 102];
    proof {
        assert(tif@ =~= seq![116u8, 105, 102]);
        assert(tiff@ =~= seq![116u8, 105, 102, 102]);
    }
    ends_in(name, &tif) || ends_in(name, &tiff)
}

/// Every TIFF file among the entries of a directory, sorted by name: their
/// positions.
pub fn list_tiff_in_dir(entries: Vec<DirEntry>) -> (r: Result<Vec<usize>, LoadError>)
    ensures
        match r {
            Ok(order) => {
                &&& order@ == order_of(names(entries@), tiff_files(entries@))
                &&& is_order(names(entries@), tiff_files(entries@), order@)
                &&& order@.len() > 0
            },
            Err(e) => {
                &&& e.fault() == Fault::NoTiff
                &&& forall|i: int|
                    0 <= i < entries@.len() ==> !(#[trigger] tiff_files(entries@)[i])
            },
        },
{
    let ghost all = entries@;
    let mut picked: Vec<bool> = Vec::new();
    let mut keys: Vec<Vec<u8>> = Vec::new();
    for entry in it: entries
        invariant
            it.seq() == all,
            picked@ == tiff_files(all.take(it.index())),
            keys@ == names(all.take(it.index())),
    {
        picked.push(entry.is_file && is_tiff_name(&entry.name));
        keys.push(entry.name);
        proof {
            let k = it.index();
            assert(all.take(k + 1) =~= all.take(k).push(all[k]));
            assert(names(all.take(k + 1)) =~= keys@);
            assert(tiff_files(all.take(k + 1)) =~= picked@);
        }
    }
    proof {
        assert(all.take(all.len() as int) =~= all);
    }
    let order: Vec<usize> = sort_positions(&keys, &picked);
    if order.len() == 0 {
        proof {
            assert forall|i: int| 0 <= i < all.len() implies !(#[trigger] tiff_files(all)[i]) by {
                if tiff_files(all)[i] {
                    assert(order@.contains(i as usize));
                }
            }
        }
        return Err(LoadError::NoTiff);
    }
    Ok(order)
}

// ----- the frames of a folder ----------------------------------------------------

/// The frames of one more file, added to those of the earlier files: every one
/// has the size of the very first.
pub open spec fn added(earlier: Seq<Image>, more: Seq<Image>, file: nat) -> Result<Seq<Image>, Fault>
    decreases more.len(),
{
    if more.len() == 0 {
        Ok(earlier)
    } else {
        match added(earlier, more.drop_last(), file) {
            Ok(all) => {
                let f = more.last();
                if all.len() > 0 && (all[0].rows != f.rows || all[0].cols != f.cols) {
                    Err(
                        Fault::SizeMismatch {
                            file,
                            width: f.cols,
                            height: f.rows,
                            first_width: all[0].cols,
                            first_height: all[0].rows,
                        },
                    )
                } else {
                    Ok(all.push(f))
                }
            },
            Err(e) => Err(e),
        }
    }
}

/// The frames of all files, in order; the first file that fails, or the first
/// frame of another size, decides the error.
pub open spec fn gathered(files: Seq<Result<Seq<Image>, Fault>>) -> Result<Seq<Image>, Fault>
    decreases files.len(),
{
    if files.len() == 0 {
        Ok(Seq::empty())
    } else {
        match gathered(files.drop_last()) {
            Ok(earlier) => match files.last() {
                Ok(more) => added(earlier, more, (files.len() - 1) as nat),
                Err(e) => Err(e),
            },
            Err(e) => Err(e),
        }
    }
}

/// What was loaded from each file.
pub open spec fn outcomes(loaded: Seq<Result<Vec<Frame>, LoadError>>) -> Seq<
    Result<Seq<Image>, Fault>,
> {
    loaded.map_values(|r: Result<Vec<Frame>, LoadError>| outcome(r))
}

/// All frames are images of the same size.
pub open spec fn uniform(all: Seq<Image>) -> bool {
    forall|i: int|
        #![trigger all[i]]
        0 <= i < all.len() ==> all[i].wf() && all[i].rows == all[0].rows && all[i].cols
            == all[0].cols
}

/// Add the frames of one file to those of the earlier files.
fn add_file(frames: &mut Vec<Frame>, more: Vec<Frame>, file: usize) -> (r: Result<(), LoadError>)
    requires
        uniform(images(old(frames)@)),
    ensures
        match r {
            Ok(_) => added(images(old(frames)@), images(more@), file as nat) == Ok::<
                Seq<Image>,
                Fault,
            >(images(final(frames)@)),
            Err(e) => added(images(old(frames)@), images(more@), file as nat) == Err::<
                Seq<Image>,
                Fault,
            >(e.fault()),
        },
        r is Ok ==> uniform(images(final(frames)@)),
{
    let ghost earlier = images(frames@);
    let ghost list = images(more@);
    let ghost m = more@;
    proof {
        assert(list.take(0) =~= Seq::<Image>::empty());
    }
    for f in it: more
        invariant
            it.seq() == m,
            m == more@,
            list == images(m),
            earlier == images(old(frames)@),
            uniform(images(frames@)),
            added(earlier, list.take(it.index()), file as nat) == Ok::<Seq<Image>, Fault>(
                images(frames@),
            ),
    {
        let ghost before = images(frames@);
        let ghost image = f@;
        proof {
            let k = it.index();
            assert(list.take(k + 1).drop_last() =~= list.take(k));
            assert(list.take(k + 1).last() == image);
        }
        let (height, width): (usize, usize) = f.shape();
        if frames.len() > 0 {
            let (first_height, first_width): (usize, usize) = frames[0].shape();
            assert(before[0] == frames@[0]@);
            if first_height != height || first_width != width {
                proof {
                    lemma_added_keeps_error(
                        earlier,
                        list,
                        file as nat,
                        it.index() + 1,
                        Fault::SizeMismatch {
                            file: file as nat,
                            width: width as nat,
                            height: height as nat,
                            first_width: first_width as nat,
                            first_height: first_height as nat,
                        },
                    );
                }
                return Err(
                    LoadError::SizeMismatch { file, width, height, first_width, first_height },
                );
            }
        }
        frames.push(f);
        proof {
            assert(images(frames@) =~= before.push(image));
            assert forall|i: int|
                #![trigger images(frames@)[i]]
                0 <= i < images(frames@).len() implies images(frames@)[i].wf() && images(
                frames@,
            )[i].rows == images(frames@)[0].rows && images(frames@)[i].cols == images(
                frames@,
            )[0].cols by {
                if i < before.len() {
                    assert(images(frames@)[i] == before[i]);
                }
            }
        }
    }
    proof {
        assert(list.take(list.len() as int) =~= list);
    }
    Ok(())
}

/// An error found early stays the error.
proof fn lemma_added_keeps_error(
    earlier: Seq<Image>,
    more: Seq<Image>,
    file: nat,
    n: int,
    e: Fault,
)
    requires
        0 <= n <= more.len(),
        added(earlier, more.take(n), file) == Err::<Seq<Image>, Fault>(e),
    ensures
        added(earlier, more, file) == Err::<Seq<Image>, Fault>(e),
    decreases more.len() - n,
{
    if n < more.len() {
        assert(more.take(n + 1).drop_last() =~= more.take(n));
        lemma_added_keeps_error(earlier, more, file, n + 1, e);
    } else {
        assert(more.take(n) =~= more);
    }
}

proof fn lemma_gathered_keeps_error(files: Seq<Result<Seq<Image>, Fault>>, n: int, e: Fault)
    requires
        0 <= n <= files.len(),
        gathered(files.take(n)) == Err::<Seq<Image>, Fault>(e),
    ensures
        gathered(files) == Err::<Seq<Image>, Fault>(e),
    decreases files.len() - n,
{
    if n < files.len() {
        assert(files.take(n + 1).drop_last() =~= files.take(n));
        lemma_gathered_keeps_error(files, n + 1, e);
    } else {
        assert(files.take(n) =~= files);
    }
}

/// All frames of a folder, from what was loaded from each file, in order: at
/// least one, and all of the same size.
pub fn collect_frames(loaded: Vec<Result<Vec<Frame>, LoadError>>) -> (r: Result<
    Vec<Frame>,
    LoadError,
>)
    ensures
        match gathered(outcomes(loaded@)) {
            Ok(all) => if all.len() > 0 {
                outcome(r) == Ok::<Seq<Image>, Fault>(all) && uniform(all)
            } else {
                outcome(r) == Err::<Seq<Image>, Fault>(Fault::NoFrames)
            },
            Err(e) => outcome(r) == Err::<Seq<Image>, Fault>(e),
        },
{
    let ghost files = outcomes(loaded@);
    let ghost l = loaded@;
    let mut frames: Vec<Frame> = Vec::new();
    let mut file: usize = 0;
    let n: usize = loaded.len();
    proof {
        assert(files.take(0) =~= Seq::<Result<Seq<Image>, Fault>>::empty());
        assert(images(frames@) =~= Seq::<Image>::empty());
    }
    for item in it: loaded
        invariant
            it.seq() == l,
            l.len() == n,
            files == outcomes(l),
            file == it.index(),
            uniform(images(frames@)),
            gathered(files.take(it.index())) == Ok::<Seq<Image>, Fault>(images(frames@)),
    {
        let ghost k = it.index();
        proof {
            assert(files.take(k + 1).drop_last() =~= files.take(k));
            assert(files.take(k + 1).last() == outcome(item));
        }
        match item {
            Err(e) => {
                proof {
                    lemma_gathered_keeps_error(files, k + 1, e.fault());
                }
                return Err(e);
            },
            Ok(more) => {
                match add_file(&mut frames, more, file) {
                    Ok(_) => {},
                    Err(e) => {
                        proof {
                            lemma_gathered_keeps_error(files, k + 1, e.fault());
                        }
                        return Err(e);
                    },
                }
            },
        }
        file = file + 1;
    }
    proof {
        assert(files.take(files.len() as int) =~= files);
    }
    if frames.len() == 0 {
        return Err(LoadError::NoFrames);
    }
    Ok(frames)
}

// ----- projections -----------------------------------------------------------------

/// Everything the application needs about one folder.
pub struct FolderData {
    pub path: String,
    /// One frame per TIFF page, in sorted file order.
    pub frames: Vec<Frame>,
    pub width: usize,
    pub height: usize,
    /// Pixel-wise sum of every frame (the "integrated" image).
    pub sum: Frame,
    /// Pixel-wise mean of every frame.
    pub mean: Frame,
    /// Brightest value each pixel ever takes.
    pub max: Frame,
    /// Darkest value each pixel ever takes. For transmission images this is
    /// the union of the sample silhouettes over all frames.
    pub min: Frame,
    /// Pixel-wise standard deviation across the frames: moving edges and
    /// changing regions stand out.
    pub std: Frame,
    /// Total counts of each frame, used by the crop statistics.
    pub frame_totals: Vec<Binary64>,
}

/// The sum at a pixel, as shown.
pub open spec fn sum_at(c: Cell) -> u32 {
    c.sum.spec_narrow().bits
}

/// The mean of `n` values at a pixel.
pub open spec fn mean_at(c: Cell, n: nat) -> u32 {
    c.sum.spec_over(Binary64::nearest_to(n)).spec_narrow().bits
}

/// The standard deviation of `n` values at a pixel: the root of the mean square
/// less the squared mean, which rounding may leave below zero.
pub open spec fn std_at(c: Cell, n: nat) -> u32 {
    let count = Binary64::nearest_to(n);
    let mean = c.sum.spec_over(count);
    let variance = c.sumsq.spec_over(count).spec_minus(mean.spec_times(mean));
    variance.spec_max(Binary64::zero()).spec_root().spec_narrow().bits
}

impl FolderData {
    /// A stack that can be shown: at least one frame, all images of the same
    /// size, with a total for every frame.
    pub open spec fn wf(self) -> bool {
        &&& self.frames@.len() > 0
        &&& self.frame_totals@.len() == self.frames@.len()
        &&& addressable(self.height as nat, self.width as nat)
        &&& forall|i: int|
            #![trigger self.frames@[i]]
            0 <= i < self.frames@.len() ==> self.sized(self.frames@[i]@)
        &&& self.sized(self.sum@)
        &&& self.sized(self.mean@)
        &&& self.sized(self.max@)
        &&& self.sized(self.min@)
        &&& self.sized(self.std@)
    }

    /// An image of the size of the stack.
    pub open spec fn sized(self, f: Image) -> bool {
        f.wf() && f.rows == self.height && f.cols == self.width
    }

    /// The projections of the stack, from what was accumulated at each pixel.
    pub open spec fn projects(self, cells: Seq<Cell>) -> bool {
        let n = self.frames@.len();
        &&& self.sum@.pixels == cells.map_values(|c: Cell| sum_at(c))
        &&& self.mean@.pixels == cells.map_values(|c: Cell| mean_at(c, n))
        &&& self.max@.pixels == cells.map_values(|c: Cell| c.max.bits)
        &&& self.min@.pixels == cells.map_values(|c: Cell| c.min.bits)
        &&& self.std@.pixels == cells.map_values(|c: Cell| std_at(c, n))
    }

    pub fn n_frames(&self) -> (n: usize)
        ensures
            n == self.frames@.len(),
    {
        self.frames.len()
    }

    /// A stack made of its frames, of what was accumulated over them and of
    /// their totals.
    pub fn assemble(
        path: String,
        frames: Vec<Frame>,
        acc: Acc,
        frame_totals: Vec<Binary64>,
    ) -> (r: Result<FolderData, LoadError>)
        requires
            frames@.len() > 0,
            uniform(images(frames@)),
            acc.wf(),
            acc.size() == frames@[0]@.pixels.len(),
            frame_totals@.len() == frames@.len(),
        ensures
            r is Ok,
            r matches Ok(d) ==> {
                &&& d.wf()
                &&& d.path == path
                &&& d.frames == frames
                &&& d.frame_totals == frame_totals
                &&& d.projects(acc@)
            },
    {
        let (height, width): (usize, usize) = frames[0].shape();
        let n: usize = frames.len();
        let count: Binary64 = Binary64::from_usize(n);
        let len: usize = acc.sum.len();
        let mut sum: Vec<u32> = Vec::with_capacity(len);
        let mut mean: Vec<u32> = Vec::with_capacity(len);
        let mut max: Vec<u32> = Vec::with_capacity(len);
        let mut min: Vec<u32> = Vec::with_capacity(len);
        let mut std: Vec<u32> = Vec::with_capacity(len);
        let ghost cells = acc@;
        let mut i: usize = 0;
        while i < len
            invariant
                i <= len,
                acc.wf(),
                acc.size() == len,
                cells == acc@,
                count == Binary64::nearest_to(n as nat),
                sum@ == cells.take(i as int).map_values(|c: Cell| sum_at(c)),
                mean@ == cells.take(i as int).map_values(|c: Cell| mean_at(c, n as nat)),
                max@ == cells.take(i as int).map_values(|c: Cell| c.max.bits),
                min@ == cells.take(i as int).map_values(|c: Cell| c.min.bits),
                std@ == cells.take(i as int).map_values(|c: Cell| std_at(c, n as nat)),
            decreases len - i,
        {
            let m: Binary64 = acc.sum[i].over(count);
            let variance: Binary64 = acc.sumsq[i].over(count).minus(m.times(m));
            let zero: Binary64 = Binary64::zero();
            proof {
                assert(cells.take(i + 1) =~= cells.take(i as int).push(acc.cell(i as int)));
            }
            sum.push(acc.sum[i].narrow().bits);
            mean.push(m.narrow().bits);
            max.push(acc.max[i].bits);
            min.push(acc.min[i].bits);
            std.push(variance.max(zero).root().narrow().bits);
            i = i + 1;
        }
        proof {
            assert(cells.take(len as int) =~= cells);
            assert(images(frames@)[0] == frames@[0]@);
        }
        let sum: Frame = match shaped(height, width, sum) {
            Ok(f) => f,
            Err(e) => return Err(e),
        };
        let mean: Frame = match shaped(height, width, mean) {
            Ok(f) => f,
            Err(e) => return Err(e),
        };
        let max: Frame = match shaped(height, width, max) {
            Ok(f) => f,
            Err(e) => return Err(e),
        };
        let min: Frame = match shaped(height, width, min) {
            Ok(f) => f,
            Err(e) => return Err(e),
        };
        let std: Frame = match shaped(height, width, std) {
            Ok(f) => f,
            Err(e) => return Err(e),
        };
        let d: FolderData = FolderData {
            path,
            frames,
            width,
            height,
            sum,
            mean,
            max,
            min,
            std,
            frame_totals,
        };
        proof {
            assert forall|i: int| #![trigger d.frames@[i]] 0 <= i < d.frames@.len() implies d.sized(
                d.frames@[i]@,
            ) by {
                assert(images(frames@)[i] == frames@[i]@);
            }
        }
        Ok(d)
    }
}

/// Accumulate the frames one after the other.
pub fn accumulate(frames: &Vec<Frame>) -> (acc: Acc)
    requires
        frames@.len() > 0,
        uniform(images(frames@)),
    ensures
        acc.wf(),
        acc@ == accumulated(frames@[0]@.pixels.len(), images(frames@)),
{
    let len: usize = frames[0].len();
    let mut acc: Acc = Acc::new(len);
    let ghost all = images(frames@);
    let mut i: usize = 0;
    proof {
        assert(all.take(0) =~= Seq::<Image>::empty());
        assert(acc@.len() == acc.size());
    }
    while i < frames.len()
        invariant
            i <= frames@.len(),
            all == images(frames@),
            uniform(all),
            len == frames@[0]@.pixels.len(),
            acc.wf(),
            acc.size() == len,
            acc@ == accumulated(len as nat, all.take(i as int)),
        decreases frames@.len() - i,
    {
        proof {
            assert(all[i as int] == frames@[i as int]@);
            assert(all[0] == frames@[0]@);
            assert(all.take(i + 1).drop_last() =~= all.take(i as int));
        }
        let ghost size = acc@.len();
        acc.add_frame(frames[i].pixels());
        proof {
            assert(acc@.len() == size);
        }
        i = i + 1;
    }
    proof {
        assert(all.take(all.len() as int) =~= all);
    }
    acc
}

/// The total counts of each image.
pub open spec fn totals_of(all: Seq<Image>) -> Seq<Binary64> {
    all.map_values(|f: Image| sum_of(f.pixels))
}

/// The total counts of each frame.
pub fn total_counts(frames: &Vec<Frame>) -> (r: Vec<Binary64>)
    ensures
        r@ == totals_of(images(frames@)),
{
    let mut r: Vec<Binary64> = Vec::with_capacity(frames.len());
    let mut i: usize = 0;
    while i < frames.len()
        invariant
            i <= frames@.len(),
            r@ == totals_of(images(frames@.take(i as int))),
        decreases frames@.len() - i,
    {
        r.push(frames[i].total());
        i = i + 1;
    }
    proof {
        assert(frames@.take(frames@.len() as int) =~= frames@);
    }
    r
}

/// Settling the images does not change which files fail.
proof fn lemma_settled_added(earlier: Seq<Image>, more: Seq<Image>, file: nat)
    ensures
        added(settled_images(earlier), settled_images(more), file) == settled_pages(
            added(earlier, more, file),
        ),
    decreases more.len(),
{
    if more.len() > 0 {
        lemma_settled_added(earlier, more.drop_last(), file);
        assert(settled_images(more).drop_last() =~= settled_images(more.drop_last()));
        if let Ok(all) = added(earlier, more.drop_last(), file) {
            assert(settled_images(all).push(more.last().settled()) =~= settled_images(
                all.push(more.last()),
            ));
        }
    }
}

/// What was loaded from each file, with one pattern of bits for every NaN.
spec fn settled_files(files: Seq<Result<Seq<Image>, Fault>>) -> Seq<Result<Seq<Image>, Fault>> {
    files.map_values(|r: Result<Seq<Image>, Fault>| settled_pages(r))
}

proof fn lemma_settled_gathered(files: Seq<Result<Seq<Image>, Fault>>)
    ensures
        gathered(settled_files(files)) == settled_pages(gathered(files)),
    decreases files.len(),
{
    if files.len() == 0 {
        assert(settled_images(Seq::<Image>::empty()) =~= Seq::<Image>::empty());
    } else {
        lemma_settled_gathered(files.drop_last());
        assert(settled_files(files).drop_last() =~= settled_files(files.drop_last()));
        if let (Ok(earlier), Ok(more)) = (gathered(files.drop_last()), files.last()) {
            lemma_settled_added(earlier, more, (files.len() - 1) as nat);
        }
    }
}

/// What the pages of each file are.
pub open spec fn file_pages(files: Seq<Vec<u8>>) -> Seq<Result<Seq<Image>, Fault>> {
    files.map_values(|b: Vec<u8>| pages_from(b@, 0))
}

/// The stack that files make, taken in order, with one pattern of bits for every
/// NaN.
pub open spec fn stack_of(files: Seq<Vec<u8>>) -> Result<Seq<Image>, Fault> {
    match gathered(file_pages(files)) {
        Ok(all) => if all.len() > 0 {
            Ok(all)
        } else {
            Err(Fault::NoFrames)
        },
        Err(e) => Err(e),
    }
}

/// Load every TIFF file of a folder, given by its bytes, in order, and compute
/// the projections. `on_progress(files_done, files_total)` is called as files
/// finish, so a caller can drive a progress bar.
pub fn load_folder_with_progress<F>(dir: String, files: &Vec<Vec<u8>>, on_progress: F) -> (r: Result<
    FolderData,
    LoadError,
>) where F: Fn(usize, usize)
    requires
        forall|done: usize, total: usize|
            0 < done <= total && total == files@.len() ==> call_requires(on_progress, (done, total)),
    ensures
        match (stack_of(files@), r) {
            (Ok(all), Ok(d)) => {
                &&& d.wf()
                &&& d.path == dir
                &&& settled_images(images(d.frames@)) == all
                &&& d.projects(accumulated(all[0].pixels.len(), all))
                &&& d.frame_totals@ == totals_of(all)
            },
            (Err(fault), Err(e)) => fault == e.fault(),
            _ => false,
        },
        // The callback was called after every file.
        forall|done: usize|
            0 < done <= files@.len() ==> #[trigger] call_ensures(
                on_progress,
                (done, files@.len() as usize),
                (),
            ),
{
    let total: usize = files.len();
    let mut loaded: Vec<Result<Vec<Frame>, LoadError>> = Vec::with_capacity(total);
    let mut i: usize = 0;
    while i < total
        invariant
            i <= total,
            total == files@.len(),
            forall|done: usize, total: usize|
                0 < done <= total && total == files@.len() ==> call_requires(
                    on_progress,
                    (done, total),
                ),
            forall|done: usize|
                0 < done <= i ==> #[trigger] call_ensures(on_progress, (done, total), ()),
            settled_files(outcomes(loaded@)) == file_pages(files@.take(i as int)),
        decreases files@.len() - i,
    {
        let ghost before = settled_files(outcomes(loaded@));
        loaded.push(load_tiff(files[i].as_slice()));
        proof {
            assert(settled_files(outcomes(loaded@)) =~= before.push(
                pages_from(files@[i as int]@, 0),
            ));
            assert(file_pages(files@.take(i + 1)) =~= file_pages(files@.take(i as int)).push(
                pages_from(files@[i as int]@, 0),
            ));
        }
        i = i + 1;
        on_progress(i, total);
    }
    proof {
        assert(files@.take(files@.len() as int) =~= files@);
        lemma_settled_gathered(outcomes(loaded@));
    }
    let frames: Vec<Frame> = match collect_frames(loaded) {
        Ok(frames) => frames,
        Err(e) => return Err(e),
    };
    proof {
        let all = images(frames@);
        assert(all[0] == frames@[0]@);
        lemma_settled_accumulation(all[0].pixels.len(), all);
        assert(totals_of(settled_images(all)) =~= totals_of(all)) by {
            assert forall|k: int| 0 <= k < all.len() implies sum_of(
                #[trigger] settled_images(all)[k].pixels,
            ) == sum_of(all[k].pixels) by {
                lemma_settled_sum(all[k].pixels);
            }
        }
    }
    let acc: Acc = accumulate(&frames);
    proof {
        lemma_accumulated_size(frames@[0]@.pixels.len(), images(frames@));
        assert(acc@.len() == acc.size());
    }
    let frame_totals: Vec<Binary64> = total_counts(&frames);
    FolderData::assemble(dir, frames, acc, frame_totals)
}

proof fn lemma_accumulated_size(len: nat, frames: Seq<Image>)
    ensures
        accumulated(len, frames).len() == len,
    decreases frames.len(),
{
    if frames.len() > 0 {
        lemma_accumulated_size(len, frames.drop_last());
    }
}

// ----- laws ----------------------------------------------------------------------------

/// The frames of a file come behind those of the files before it, in their order, when
/// all of them have the same size.
pub proof fn law_files_follow_each_other(
    files: Seq<Result<Seq<Image>, Fault>>,
    earlier: Seq<Image>,
    more: Seq<Image>,
    rows: nat,
    cols: nat,
)
    requires
        gathered(files) == Ok::<Seq<Image>, Fault>(earlier),
        forall|i: int|
            #![trigger earlier[i]]
            0 <= i < earlier.len() ==> earlier[i].rows == rows && earlier[i].cols == cols,
        forall|i: int|
            #![trigger more[i]]
            0 <= i < more.len() ==> more[i].rows == rows && more[i].cols == cols,
    ensures
        gathered(files.push(Ok(more))) == Ok::<Seq<Image>, Fault>(earlier + more),
        gathered(Seq::<Result<Seq<Image>, Fault>>::empty()) == Ok::<Seq<Image>, Fault>(
            Seq::empty(),
        ),
{
    let all = files.push(Ok(more));
    assert(all.drop_last() =~= files);
    assert(all.last() == Ok::<Seq<Image>, Fault>(more));
    lemma_added_of_one_size(earlier, more, files.len(), rows, cols);
}

proof fn lemma_added_of_one_size(
    earlier: Seq<Image>,
    more: Seq<Image>,
    file: nat,
    rows: nat,
    cols: nat,
)
    requires
        forall|i: int|
            #![trigger earlier[i]]
            0 <= i < earlier.len() ==> earlier[i].rows == rows && earlier[i].cols == cols,
        forall|i: int|
            #![trigger more[i]]
            0 <= i < more.len() ==> more[i].rows == rows && more[i].cols == cols,
    ensures
        added(earlier, more, file) == Ok::<Seq<Image>, Fault>(earlier + more),
    decreases more.len(),
{
    if more.len() == 0 {
        assert(earlier + more =~= earlier);
    } else {
        let fewer = more.drop_last();
        assert forall|i: int| #![trigger fewer[i]] 0 <= i < fewer.len() implies fewer[i].rows == rows
            && fewer[i].cols == cols by {
            assert(fewer[i] == more[i]);
        }
        lemma_added_of_one_size(earlier, fewer, file, rows, cols);
        let all = earlier + fewer;
        assert(all.push(more.last()) =~= earlier + more);
        assert(more[more.len() - 1].rows == rows);
        if all.len() > 0 {
            if earlier.len() > 0 {
                assert(all[0] == earlier[0]);
            } else {
                assert(all[0] == fewer[0]);
            }
        }
    }
}

/// The first file that cannot be read decides what is said, whatever follows it.
pub proof fn law_first_fault_decides(
    files: Seq<Result<Seq<Image>, Fault>>,
    earlier: Seq<Image>,
    e: Fault,
    others: Seq<Result<Seq<Image>, Fault>>,
)
    requires
        gathered(files) == Ok::<Seq<Image>, Fault>(earlier),
    ensures
        gathered(files.push(Err(e)) + others) == Err::<Seq<Image>, Fault>(e),
{
    let first = files.push(Err(e));
    assert(first.drop_last() =~= files);
    assert((first + others).take(first.len() as int) =~= first);
    lemma_gathered_keeps_error(first + others, first.len() as int, e);
}

/// A frame of another size than the first one is refused.
pub proof fn law_other_sizes_are_refused(
    files: Seq<Result<Seq<Image>, Fault>>,
    earlier: Seq<Image>,
    f: Image,
)
    requires
        gathered(files) == Ok::<Seq<Image>, Fault>(earlier),
        earlier.len() > 0,
        f.rows != earlier[0].rows || f.cols != earlier[0].cols,
    ensures
        gathered(files.push(Ok(seq![f]))) == Err::<Seq<Image>, Fault>(
            Fault::SizeMismatch {
                file: files.len(),
                width: f.cols,
                height: f.rows,
                first_width: earlier[0].cols,
                first_height: earlier[0].rows,
            },
        ),
{
    let all = files.push(Ok(seq![f]));
    assert(all.drop_last() =~= files);
    assert(seq![f].drop_last() =~= Seq::<Image>::empty());
    reveal_with_fuel(added, 2);
}

/// Of several samples of a pixel the first one is kept: a page of `w` × `h` pixels with
/// `k` samples each is the page of their first samples.
pub proof fn law_first_samples_are_kept(values: Seq<u32>, w: nat, h: nat, k: nat, y: int, x: int)
    requires
        0 <= y < h,
        0 <= x < w,
        k > 0,
        values.len() == (w * h) * k,
        addressable(h, w),
    ensures
        frame_of(values, w, h) matches Ok(f) && {
            &&& f.wf()
            &&& f.rows == h && f.cols == w
            &&& f.at(y, x).bits == values[(y * w + x) * k]
        },
{
    let n = w * h;
    assert(n > 0) by (nonlinear_arith)
        requires
            n == w * h,
            w > 0,
            h > 0,
    ;
    assert(h * w == n) by (nonlinear_arith)
        requires
            n == w * h,
    ;
    crate::frame::lemma_cell(y, x, w as int, h as int);
    if k == 1 {
        assert(n * k == n);
        assert((y * w + x) * k == y * w + x);
    } else {
        assert(n * k > n) by (nonlinear_arith)
            requires
                n > 0,
                k > 1,
        ;
        vstd::arithmetic::div_mod::lemma_fundamental_div_mod_converse(
            values.len() as int,
            n as int,
            k as int,
            0,
        );
    }
}

/// The total of an image is the sum of its own pixels.
pub proof fn law_totals_are_those_of_the_images(all: Seq<Image>, others: Seq<Image>, i: int, j: int)
    requires
        0 <= i < all.len(),
        0 <= j < others.len(),
        all[i].pixels == others[j].pixels,
    ensures
        totals_of(all).len() == all.len(),
        totals_of(all)[i] == totals_of(others)[j],
{
}

/// Names that end in `.tif` or `.tiff`, in upper or lower case, with something before
/// the dot are those of TIFF files, and no others.
pub proof fn law_tiff_files_are_known_by_their_names(stem: Seq<u8>, ext: Seq<u8>)
    requires
        !ext.contains(46u8),
    ensures
        tiff_name(stem + seq![46u8] + ext) <==> {
            &&& stem.len() > 0
            &&& 3 <= ext.len() <= 4
            &&& ext[0] == 116 || ext[0] == 84
            &&& ext[1] == 105 || ext[1] == 73
            &&& forall|i: int| 2 <= i < ext.len() ==> #[trigger] ext[i] == 102 || ext[i] == 70
        },
{
    let name = stem + seq![46u8] + ext;
    lemma_extension_is(stem, ext, seq![116u8, 105, 102]);
    lemma_extension_is(stem, ext, seq![116u8, 105, 102, 102]);
    let low = ext.map_values(|b: u8| lower(b));
    assert forall|i: int| 0 <= i < ext.len() implies #[trigger] low[i] == lower(ext[i]) by {}
    if low == seq![116u8, 105, 102] || low == seq![116u8, 105, 102, 102] {
        assert(low[0] == 116 && low[1] == 105 && low[2] == 102);
        assert(lower(ext[0]) == 116 && lower(ext[1]) == 105);
        assert forall|i: int| 2 <= i < ext.len() implies #[trigger] ext[i] == 102 || ext[i]
            == 70 by {
            assert(low[i] == 102);
            assert(lower(ext[i]) == 102);
        }
    }
    if ext.len() == 3 && (ext[0] == 116 || ext[0] == 84) && (ext[1] == 105 || ext[1] == 73) && (ext[2]
        == 102 || ext[2] == 70) {
        assert(low =~= seq![116u8, 105, 102]);
    }
    if ext.len() == 4 && (ext[0] == 116 || ext[0] == 84) && (ext[1] == 105 || ext[1] == 73) && (ext[2]
        == 102 || ext[2] == 70) && (ext[3] == 102 || ext[3] == 70) {
        assert(low =~= seq![116u8, 105, 102, 102]);
    }
}

proof fn lemma_extension_is(stem: Seq<u8>, ext: Seq<u8>, wanted: Seq<u8>)
    requires
        !ext.contains(46u8),
        wanted.len() > 0,
        forall|i: int| 0 <= i < wanted.len() ==> 97 <= #[trigger] wanted[i] <= 122,
    ensures
        has_extension(stem + seq![46u8] + ext, wanted) <==> stem.len() > 0 && ext.map_values(
            |b: u8| lower(b),
        ) == wanted,
{
    let name = stem + seq![46u8] + ext;
    let start = name.len() - wanted.len();
    if wanted.len() == ext.len() {
        assert(name.skip(start) =~= ext);
        assert(name[start - 1] == 46);
    } else if wanted.len() < ext.len() {
        if start > 1 && name[start - 1] == 46 {
            assert(name[start - 1] == ext[start - 1 - stem.len() - 1]);
            assert(ext.contains(46u8));
        }
        assert(ext.map_values(|b: u8| lower(b)).len() == ext.len());
    } else {
        if has_extension(name, wanted) {
            let tail = name.skip(start).map_values(|b: u8| lower(b));
            let at = stem.len() - start;
            assert(at >= 0);
            assert(tail[at] == lower(name[stem.len() as int]));
            assert(name[stem.len() as int] == 46);
            assert(97 <= wanted[at]);
        }
        assert(ext.map_values(|b: u8| lower(b)).len() == ext.len());
    }
}

/// An image of another size is told by its own size, the file that it is in and the size
/// of the first image, each with the width before the height.
pub proof fn law_mismatch_names_both_sizes(
    e: LoadError,
    width: usize,
    height: usize,
    first_width: usize,
    first_height: usize,
    dir: Seq<char>,
    file: Seq<char>,
)
    requires
        e matches LoadError::SizeMismatch { width: w, height: h, first_width: fw, first_height: fh, .. }
            && w == width && h == height && fw == first_width && fh == first_height,
    ensures
        e.words(dir, file) matches Some(words) && {
            let head = "Frame size mismatch: "@ + decimal(width as nat) + "x"@ + decimal(
                height as nat,
            ) + " in "@ + file;
            let end = decimal(first_width as nat) + "x"@ + decimal(first_height as nat);
            &&& words.len() > head.len()
            &&& words.take(head.len() as int) == head
            &&& ends_with(words, end)
        },
{
    let head = "Frame size mismatch: "@ + decimal(width as nat) + "x"@ + decimal(height as nat)
        + " in "@ + file;
    let end = decimal(first_width as nat) + "x"@ + decimal(first_height as nat);
    let words = e.words(dir, file)->0;
    lemma_decimal(first_width as nat);
    assert(words =~= head + (" does not match "@ + end));
    assert(words.take(head.len() as int) =~= head);
    assert(words.skip(words.len() - end.len()) =~= end);
}

} // verus!
