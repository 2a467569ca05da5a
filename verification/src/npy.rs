//! Stacks in NumPy's `.npy` format: the cropped stack is written as float32 of
//! shape `(n_images, height, width)`; a stack handed over by another application
//! is read from a 2-D or 3-D array.
use crate::binary::{Binary32, Binary64};
use crate::bytes::{big_endian, lemma_big_endian_bound, little_endian, read_number};
use crate::crop::CropRect;
use crate::frame::{addressable, Frame, Image};
use crate::loader::{images, outcome, Fault, LoadError};
use crate::samples::{
    is_pixel_of, law_integer_becomes_the_nearest_number, single_of, to_single,
};
use crate::text::{
    chars_of, decimal, digit_run, digits_value, is_digit, lemma_decimal, lemma_digit_run_bound,
    lemma_digit_run_is, push_decimal, read_digits,
};
use vstd::arithmetic::power2::{lemma_pow2_adds, pow2};
use vstd::prelude::*;
use vstd::string::*;

verus! {

/// The four bytes of a number, the least significant one first.
pub open spec fn bytes_of(x: u32) -> Seq<u8> {
    seq![
        (x % 256) as u8,
        (x / 256 % 256) as u8,
        (x / 65536 % 256) as u8,
        (x / 16777216) as u8,
    ]
}

/// Writing a number and reading it gives it back.
proof fn lemma_bytes_of(x: u32)
    ensures
        little_endian(bytes_of(x)) == x,
{
    let s = bytes_of(x).reverse();
    let (s1, s2, s3) = (s.drop_last(), s.drop_last().drop_last(), s.drop_last().drop_last().drop_last());
    assert(s3.drop_last() =~= Seq::<u8>::empty());
    assert(big_endian(s3.drop_last()) == 0);
    assert(s3.last() == (x / 16777216) as u8);
    assert(s2.last() == (x / 65536 % 256) as u8);
    assert(s1.last() == (x / 256 % 256) as u8);
    assert(s.last() == (x % 256) as u8);
    assert(big_endian(s3) == x / 16777216);
    assert(big_endian(s2) == x / 65536);
    assert(big_endian(s1) == x / 256);
}

// ----- writing -------------------------------------------------------------------------

/// What stands before the type of the elements.
pub open spec fn before_type() -> Seq<char> {
    "{'descr': '"@
}

/// What stands between the type and the shape: whether the elements are in
/// Fortran order, where the first index runs fastest, or in C order, where the
/// last one does.
pub open spec fn before_shape(fortran: bool) -> Seq<char> {
    if fortran {
        "', 'fortran_order': True, 'shape': ("@
    } else {
        "', 'fortran_order': False, 'shape': ("@
    }
}

/// The description of a stack of `n` float32 images.
pub open spec fn description(n: nat, h: nat, w: nat) -> Seq<char> {
    before_type() + "<f4"@ + before_shape(false) + decimal(n) + ", "@ + decimal(h) + ", "@ + decimal(w)
        + "), }"@
}

/// How many spaces fill the header up to a multiple of 64 bytes.
pub open spec fn padding(len: nat) -> nat {
    ((64 - (len + 11) % 64) % 64) as nat
}

/// The bytes of an ASCII text.
pub open spec fn ascii(s: Seq<char>) -> Seq<u8> {
    s.map_values(|c: char| c as u8)
}

/// The magic number and the version of the format, 1.0.
pub open spec fn preamble() -> Seq<u8> {
    seq![0x93u8, 78, 85, 77, 80, 89, 1, 0]
}

/// The header with the given description.
pub open spec fn header(text: Seq<char>) -> Seq<u8> {
    let pad = padding(text.len());
    let len = text.len() + pad + 1;
    preamble() + seq![(len % 256) as u8, (len / 256) as u8] + ascii(text) + Seq::new(
        pad,
        |i: int| 32u8,
    ) + seq![10u8]
}

/// The bytes of pixels.
pub open spec fn pixel_bytes(pixels: Seq<u32>) -> Seq<u8>
    decreases pixels.len(),
{
    if pixels.len() == 0 {
        Seq::empty()
    } else {
        pixel_bytes(pixels.drop_last()) + bytes_of(pixels.last())
    }
}

/// The pixels of a region of several images, one after the other.
pub open spec fn cropped_pixels(all: Seq<Image>, crop: CropRect) -> Seq<u32>
    decreases all.len(),
{
    if all.len() == 0 {
        Seq::empty()
    } else {
        cropped_pixels(all.drop_last(), crop) + all.last().region(crop)
    }
}

/// The file of a cropped stack.
pub open spec fn cropped_stack(all: Seq<Image>, crop: CropRect) -> Seq<u8> {
    header(description(all.len(), crop.height as nat, crop.width as nat)) + pixel_bytes(
        cropped_pixels(all, crop),
    )
}

/// A description is short.
proof fn lemma_description_is_short(n: nat, h: nat, w: nat)
    requires
        n <= u64::MAX,
        h <= u64::MAX,
        w <= u64::MAX,
    ensures
        description(n, h, w).len() < 200,
        forall|i: int|
            0 <= i < description(n, h, w).len() ==> (#[trigger] description(n, h, w)[i] as u32) < 128,
{
    reveal_strlit("{'descr': '");
    reveal_strlit("<f4");
    reveal_strlit("', 'fortran_order': False, 'shape': (");
    reveal_strlit(", ");
    reveal_strlit("), }");
    vstd::arithmetic::power2::lemma2_to64_rest();
    lemma_pow2_adds(64, 2);
    vstd::arithmetic::power2::lemma2_to64();
    lemma_decimal_is_short(n, 22);
    lemma_decimal_is_short(h, 22);
    lemma_decimal_is_short(w, 22);
    lemma_decimal(n);
    lemma_decimal(h);
    lemma_decimal(w);
    let (a, b, c) = (decimal(n), decimal(h), decimal(w));
    assert(forall|i: int| 0 <= i < a.len() ==> is_digit(a[i]));
    assert(forall|i: int| 0 <= i < b.len() ==> is_digit(b[i]));
    assert(forall|i: int| 0 <= i < c.len() ==> is_digit(c[i]));
}

/// A number below `8^k` has at most `k` digits.
proof fn lemma_decimal_is_short(n: nat, k: nat)
    requires
        k > 0,
        n < pow2(3 * k),
    ensures
        decimal(n).len() <= k,
    decreases k,
{
    vstd::arithmetic::power2::lemma2_to64();
    if n >= 10 {
        if k > 1 {
            let p = pow2(3 * ((k - 1) as nat));
            lemma_pow2_adds(3 * ((k - 1) as nat), 3);
            assert(3 * k == 3 * ((k - 1) as nat) + 3);
            assert(n < p * 8);
            lemma_decimal_is_short(n / 10, (k - 1) as nat);
        }
    }
}

fn push_u32(r: &mut Vec<u8>, x: u32)
    ensures
        final(r)@ == old(r)@ + bytes_of(x),
{
    r.push((x % 256) as u8);
    r.push((x / 256 % 256) as u8);
    r.push((x / 65536 % 256) as u8);
    r.push((x / 16777216) as u8);
    proof {
        assert(r@ =~= old(r)@ + bytes_of(x));
    }
}

/// The header of a stack of `n` float32 images of `h` rows and `w` columns.
pub fn npy_header(n: usize, h: usize, w: usize) -> (r: Vec<u8>)
    ensures
        r@ == header(description(n as nat, h as nat, w as nat)),
{
    let mut text: String = "{'descr': '".to_owned();
    text.append("<f4");
    text.append("', 'fortran_order': False, 'shape': (");
    push_decimal(&mut text, n as u128);
    text.append(", ");
    push_decimal(&mut text, h as u128);
    text.append(", ");
    push_decimal(&mut text, w as u128);
    text.append("), }");
    let ghost t = description(n as nat, h as nat, w as nat);
    proof {
        lemma_description_is_short(n as nat, h as nat, w as nat);
    }
    let v: Vec<char> = chars_of(text.as_str());
    let pad: usize = (64 - (v.len() + 11) % 64) % 64;
    let len: usize = v.len() + pad + 1;
    let mut r: Vec<u8> = vec![0x93, 78, 85, 77, 80, 89, 1, 0];
    r.push((len % 256) as u8);
    r.push((len / 256) as u8);
    let ghost start = r@;
    proof {
        assert(start =~= preamble() + seq![(len % 256) as u8, (len / 256) as u8]);
        assert(start =~= start + ascii(t.take(0)));
    }
    let mut i: usize = 0;
    while i < v.len()
        invariant
            i <= v@.len(),
            v@ == t,
            forall|k: int| 0 <= k < t.len() ==> (#[trigger] t[k] as u32) < 128,
            r@ == start + ascii(t.take(i as int)),
        decreases v@.len() - i,
    {
        proof {
            assert((t[i as int] as u32) < 128);
            assert(ascii(t.take(i + 1)) =~= ascii(t.take(i as int)).push(t[i as int] as u8));
            assert(start + ascii(t.take(i as int)).push(t[i as int] as u8) =~= (start + ascii(
                t.take(i as int),
            )).push(t[i as int] as u8));
        }
        r.push(v[i] as u8);
        i = i + 1;
    }
    let ghost body = r@;
    proof {
        assert(t.take(t.len() as int) =~= t);
    }
    let mut k: usize = 0;
    while k < pad
        invariant
            k <= pad,
            r@ == body + Seq::new(k as nat, |i: int| 32u8),
        decreases pad - k,
    {
        r.push(32);
        k = k + 1;
        proof {
            assert(r@ =~= body + Seq::new(k as nat, |i: int| 32u8));
        }
    }
    r.push(10);
    proof {
        assert(r@ =~= header(t));
    }
    r
}

/// The bytes of a region of an image.
pub fn cropped_bytes(f: &Frame, crop: CropRect) -> (r: Vec<u8>)
    requires
        crop.within(f@.cols as int, f@.rows as int),
    ensures
        r@ == pixel_bytes(f@.region(crop)),
{
    let (h, w): (usize, usize) = f.shape();
    let ghost area = f@.region(crop);
    let mut r: Vec<u8> = Vec::new();
    let mut y: usize = 0;
    proof {
        assert(area.take(0) =~= Seq::<u32>::empty());
        assert(0 * crop.width == 0);
    }
    while y < crop.height
        invariant
            y <= crop.height,
            crop.within(w as int, h as int),
            f@.cols == w,
            f@.rows == h,
            area == f@.region(crop),
            r@ == pixel_bytes(area.take(y * crop.width)),
        decreases crop.height - y,
    {
        let mut x: usize = 0;
        while x < crop.width
            invariant
                y < crop.height,
                x <= crop.width,
                crop.within(w as int, h as int),
                f@.cols == w,
                f@.rows == h,
                area == f@.region(crop),
                r@ == pixel_bytes(area.take(y * crop.width + x)),
            decreases crop.width - x,
        {
            proof {
                let i = y * crop.width + x;
                crate::frame::lemma_cell(y as int, x as int, crop.width as int, crop.height as int);
                assert(area.take(i + 1).drop_last() =~= area.take(i));
                assert(area[i] == f@.pixels[(crop.y + y) * w + crop.x + x]);
                assert((crop.y + y) * w + crop.x + x == (crop.y + y) * w + (crop.x + x));
            }
            push_u32(&mut r, f.at(crop.y + y, crop.x + x).bits);
            x = x + 1;
        }
        proof {
            assert(y * crop.width + crop.width == (y + 1) * crop.width) by (nonlinear_arith);
        }
        y = y + 1;
    }
    proof {
        assert(crop.height * crop.width == crop.width * crop.height) by (nonlinear_arith);
        assert(area.take(area.len() as int) =~= area);
    }
    r
}

/// The file of the cropped stack: NumPy `.npy`, float32, shape `(n_images,
/// height, width)`.
pub fn write_cropped_stack(frames: &Vec<Frame>, crop: CropRect) -> (r: Vec<u8>)
    requires
        crate::stats::measurable(frames@, crop),
    ensures
        r@ == cropped_stack(images(frames@), crop),
{
    let mut r: Vec<u8> = npy_header(frames.len(), crop.height, crop.width);
    let ghost head = r@;
    let ghost all = images(frames@);
    let mut i: usize = 0;
    proof {
        assert(all.take(0) =~= Seq::<Image>::empty());
        assert(head =~= head + pixel_bytes(cropped_pixels(all.take(0), crop)));
    }
    while i < frames.len()
        invariant
            i <= frames@.len(),
            all == images(frames@),
            crate::stats::measurable(frames@, crop),
            r@ == head + pixel_bytes(cropped_pixels(all.take(i as int), crop)),
        decreases frames@.len() - i,
    {
        let mut more: Vec<u8> = cropped_bytes(&frames[i], crop);
        proof {
            let before = cropped_pixels(all.take(i as int), crop);
            assert(all.take(i + 1).drop_last() =~= all.take(i as int));
            lemma_pixel_bytes_joined(before, all[i as int].region(crop));
            assert(head + pixel_bytes(before) + more@ =~= head + (pixel_bytes(before) + more@));
        }
        r.append(&mut more);
        i = i + 1;
    }
    proof {
        assert(all.take(all.len() as int) =~= all);
    }
    r
}

proof fn lemma_pixel_bytes_joined(a: Seq<u32>, b: Seq<u32>)
    ensures
        pixel_bytes(a + b) == pixel_bytes(a) + pixel_bytes(b),
    decreases b.len(),
{
    if b.len() == 0 {
        assert(a + b =~= a);
        assert(pixel_bytes(a) + pixel_bytes(b) =~= pixel_bytes(a));
    } else {
        let s = a + b;
        assert(s.drop_last() =~= a + b.drop_last());
        lemma_pixel_bytes_joined(a, b.drop_last());
        assert(pixel_bytes(a) + pixel_bytes(b.drop_last()) + bytes_of(b.last()) =~= pixel_bytes(a)
            + (pixel_bytes(b.drop_last()) + bytes_of(b.last())));
    }
}

// ----- reading -------------------------------------------------------------------------

/// Why bytes are not a stack.
#[derive(Clone, Copy, PartialEq, Eq, Structural, Debug)]
pub enum NpyFault {
    /// Not an array that NumPy has written.
    Format,
    /// Not an array of integers or of single or double precision numbers.
    Type,
    /// Neither a 2-D nor a 3-D array, or one that is too large.
    Shape,
    /// Not as many bytes as the array has.
    Length,
}

/// Whether elements are natural numbers, integers or floating-point numbers.
#[derive(Clone, Copy, PartialEq, Eq, Structural, Debug)]
pub enum Class {
    Unsigned,
    Signed,
    Float,
}

/// The type of the elements.
#[derive(Clone, Copy, PartialEq, Eq, Structural, Debug)]
pub struct ElementType {
    pub class: Class,
    /// In bytes.
    pub size: usize,
    pub big_endian: bool,
}

/// The type that a description names.
pub open spec fn type_of(descr: Seq<char>) -> Option<ElementType> {
    if descr.len() != 3 || (descr[0] != '<' && descr[0] != '>' && descr[0] != '|') {
        None
    } else {
        let class = if descr[1] == 'u' {
            Class::Unsigned
        } else if descr[1] == 'i' {
            Class::Signed
        } else {
            Class::Float
        };
        let size: usize = if descr[2] == '1' {
            1
        } else if descr[2] == '2' {
            2
        } else if descr[2] == '4' {
            4
        } else {
            8
        };
        if (descr[1] != 'u' && descr[1] != 'i' && descr[1] != 'f') || (descr[2] != '1' && descr[2]
            != '2' && descr[2] != '4' && descr[2] != '8') || (class == Class::Float && size < 4) || (
        descr[0] == '|' && size > 1) {
            None
        } else {
            Some(ElementType { class, size, big_endian: descr[0] == '>' })
        }
    }
}

impl ElementType {
    /// One to eight bytes; floating-point numbers have four or eight.
    pub open spec fn wf(self) -> bool {
        &&& self.size == 1 || self.size == 2 || self.size == 4 || self.size == 8
        &&& self.class == Class::Float ==> self.size >= 4
    }

    /// The bits of the binary32 number nearest to the element that bytes hold.
    pub open spec fn single(self, bytes: Seq<u8>) -> u32 {
        let n = if self.big_endian {
            big_endian(bytes)
        } else {
            little_endian(bytes)
        };
        let top = pow2((8 * self.size) as nat);
        match self.class {
            Class::Unsigned => single_of(n as int),
            Class::Signed => single_of(
                if 2 * n >= top {
                    n - top
                } else {
                    n as int
                },
            ),
            Class::Float => if self.size == 4 {
                n as u32
            } else {
                (Binary64 { bits: n as u64 }).spec_narrow().bits
            },
        }
    }

    /// The elements that bytes hold.
    pub open spec fn singles(self, data: Seq<u8>, count: nat) -> Seq<u32> {
        Seq::new(
            count,
            |i: int| self.single(data.subrange(i * self.size, i * self.size + self.size)),
        )
    }
}

/// Bytes as characters.
pub open spec fn characters(s: Seq<u8>) -> Seq<char> {
    s.map_values(|b: u8| b as char)
}

/// The description in a file, and where the elements start.
pub open spec fn split_header(bytes: Seq<u8>) -> Option<(Seq<char>, int)> {
    if bytes.len() < 12 || bytes.take(6) != preamble().take(6) || bytes[6] < 1 || bytes[6] > 3 {
        None
    } else {
        let start = if bytes[6] == 1 {
            10int
        } else {
            12int
        };
        let end = start + little_endian(bytes.subrange(8, start));
        if end > bytes.len() {
            None
        } else {
            Some((characters(bytes.subrange(start, end)), end))
        }
    }
}

/// `s` begins with `head`.
pub open spec fn begins(s: Seq<char>, head: Seq<char>) -> bool {
    s.len() >= head.len() && s.take(head.len() as int) == head
}

/// Where the first quote is; the length when there is none.
pub open spec fn first_quote(s: Seq<char>) -> nat
    decreases s.len(),
{
    if s.len() == 0 || s[0] == '\'' {
        0
    } else {
        1 + first_quote(s.skip(1))
    }
}

/// Numbers with a comma and a space between them, up to a bracket.
pub open spec fn numbers(s: Seq<char>) -> Option<Seq<usize>>
    decreases s.len(),
{
    let run = digit_run(s);
    let v = digits_value(s.take(run as int));
    let r = s.skip(run as int);
    if run == 0 || v > usize::MAX || r.len() == 0 {
        None
    } else if r[0] == ')' {
        Some(seq![v as usize])
    } else if r.len() > 1 && r[0] == ',' && r[1] == ' ' {
        proof {
            lemma_digit_run_bound(s);
        }
        match numbers(r.skip(2)) {
            Some(rest) => Some(seq![v as usize] + rest),
            None => None,
        }
    } else {
        None
    }
}

/// The type, the order and the shape that a description names.
pub open spec fn described(text: Seq<char>) -> Result<(ElementType, bool, Seq<usize>), NpyFault> {
    let a = text.skip(before_type().len() as int);
    let q = first_quote(a) as int;
    let b = a.skip(q);
    let fortran = begins(b, before_shape(true));
    if !begins(text, before_type()) || !(fortran || begins(b, before_shape(false))) {
        Err(NpyFault::Format)
    } else {
        match type_of(a.take(q)) {
            None => Err(NpyFault::Type),
            Some(t) => match numbers(b.skip(before_shape(fortran).len() as int)) {
                Some(dims) => Ok((t, fortran, dims)),
                None => Err(NpyFault::Shape),
            },
        }
    }
}

/// The number of images, their height and their width: a 2-D array is one
/// image, a 3-D array one image per plane along axis 0.
pub open spec fn planes(dims: Seq<usize>) -> Option<(nat, nat, nat)> {
    if dims.len() == 2 {
        Some((1, dims[0] as nat, dims[1] as nat))
    } else if dims.len() == 3 {
        Some((dims[0] as nat, dims[1] as nat, dims[2] as nat))
    } else {
        None
    }
}

/// The pixels of image `k` of `n` whose elements are in Fortran order: that of row
/// `j` and column `i` is element `k + n * (j + h * i)`.
pub open spec fn fortran_plane(elements: Seq<u32>, n: nat, h: nat, w: nat, k: int) -> Seq<u32> {
    Seq::new(h * w, |p: int| elements[k + n * (p / (w as int) + h * (p % (w as int)))])
}

/// The images of a stack of `n` images, given all elements.
pub open spec fn divided(elements: Seq<u32>, fortran: bool, n: nat, h: nat, w: nat) -> Seq<Image> {
    Seq::new(
        n,
        |k: int|
            Image {
                rows: h,
                cols: w,
                pixels: if fortran {
                    fortran_plane(elements, n, h, w, k)
                } else {
                    elements.subrange(k * (h * w), k * (h * w) + h * w)
                },
            },
    )
}

/// The images in a file.
pub open spec fn stack_in(bytes: Seq<u8>) -> Result<Seq<Image>, NpyFault> {
    match split_header(bytes) {
        None => Err(NpyFault::Format),
        Some((text, start)) => match described(text) {
            Err(e) => Err(e),
            Ok((t, fortran, dims)) => match planes(dims) {
                None => Err(NpyFault::Shape),
                Some((n, h, w)) => if !addressable(h, w) {
                    Err(NpyFault::Shape)
                } else if bytes.len() - start != n * (h * w) * t.size {
                    Err(NpyFault::Length)
                } else {
                    Ok(divided(t.singles(bytes.skip(start), n * (h * w)), fortran, n, h, w))
                },
            },
        },
    }
}

/// The type that a description names.
fn find_type(v: &Vec<char>, from: usize, to: usize) -> (r: Option<ElementType>)
    requires
        from <= to <= v@.len(),
    ensures
        r == type_of(v@.subrange(from as int, to as int)),
        r matches Some(t) ==> t.wf(),
{
    if to - from != 3 {
        return None;
    }
    let (order, class, size): (char, char, char) = (v[from], v[from + 1], v[from + 2]);
    if order != '<' && order != '>' && order != '|' {
        return None;
    }
    let class: Class = if class == 'u' {
        Class::Unsigned
    } else if class == 'i' {
        Class::Signed
    } else if class == 'f' {
        Class::Float
    } else {
        return None;
    };
    let size: usize = if size == '1' {
        1
    } else if size == '2' {
        2
    } else if size == '4' {
        4
    } else if size == '8' {
        8
    } else {
        return None;
    };
    if (class == Class::Float && size < 4) || (order == '|' && size > 1) {
        return None;
    }
    Some(ElementType { class, size, big_endian: order == '>' })
}

/// Half the number of values of some bytes: the first one that stands for a
/// negative number.
fn sign_limit(size: usize) -> (r: u64)
    requires
        size == 1 || size == 2 || size == 4 || size == 8,
    ensures
        2 * r == pow2((8 * size) as nat),
        0 < r <= 0x8000_0000_0000_0000,
{
    proof {
        vstd::arithmetic::power2::lemma2_to64();
        vstd::arithmetic::power2::lemma2_to64_rest();
    }
    if size == 1 {
        0x80
    } else if size == 2 {
        0x8000
    } else if size == 4 {
        0x8000_0000
    } else {
        0x8000_0000_0000_0000
    }
}

impl ElementType {
    /// The element at `from`, as a binary32 number.
    fn read(self, data: &[u8], from: usize) -> (r: u32)
        requires
            self.wf(),
            from + self.size <= data@.len(),
        ensures
            r == self.single(data@.subrange(from as int, from + self.size)),
    {
        let n: u64 = read_number(data, from, self.size, self.big_endian);
        let ghost s = data@.subrange(from as int, from + self.size);
        proof {
            lemma_big_endian_bound(s);
            lemma_big_endian_bound(s.reverse());
            assert(n < pow2((8 * self.size) as nat));
        }
        match self.class {
            Class::Unsigned => to_single(n),
            Class::Signed => {
                let limit: u64 = sign_limit(self.size);
                if n >= limit {
                    // The distance from zero is what is missing from twice the limit.
                    let x: i64 = (n - limit) as i64 - (limit - 1) as i64 - 1;
                    to_single(x)
                } else {
                    to_single(n)
                }
            },
            Class::Float => if self.size == 4 {
                proof {
                    vstd::arithmetic::power2::lemma2_to64();
                }
                n as u32
            } else {
                (Binary64 { bits: n }).narrow().bits
            },
        }
    }
}

/// The description in a file, and where the elements start.
fn find_header(bytes: &[u8]) -> (r: Option<(Vec<char>, usize)>)
    ensures
        match (r, split_header(bytes@)) {
            (Some((v, end)), Some((text, start))) => v@ == text && end == start && end
                <= bytes@.len(),
            (None, None) => true,
            _ => false,
        },
{
    let len: usize = bytes.len();
    if len < 12 {
        return None;
    }
    if bytes[0] != 0x93 || bytes[1] != 78 || bytes[2] != 85 || bytes[3] != 77 || bytes[4] != 80
        || bytes[5] != 89 {
        proof {
            let (a, b) = (bytes@.take(6), preamble().take(6));
            if a == b {
                assert(a[0] == b[0] && a[1] == b[1] && a[2] == b[2] && a[3] == b[3] && a[4] == b[4]
                    && a[5] == b[5]);
            }
        }
        return None;
    }
    proof {
        assert(bytes@.take(6) =~= preamble().take(6));
    }
    if bytes[6] < 1 || bytes[6] > 3 {
        return None;
    }
    let start: usize = if bytes[6] == 1 {
        10
    } else {
        12
    };
    let size: u64 = read_number(bytes, 8, start - 8, false);
    if size > (len - start) as u64 {
        return None;
    }
    let end: usize = start + size as usize;
    let ghost part = bytes@.subrange(start as int, end as int);
    let mut v: Vec<char> = Vec::new();
    let mut i: usize = start;
    while i < end
        invariant
            start <= i <= end <= len,
            len == bytes@.len(),
            part == bytes@.subrange(start as int, end as int),
            v@ == characters(part.take(i - start)),
        decreases end - i,
    {
        v.push(bytes[i] as char);
        i = i + 1;
        proof {
            assert(v@ =~= characters(part.take(i - start)));
        }
    }
    proof {
        assert(part.take(part.len() as int) =~= part);
    }
    Some((v, end))
}

/// Whether the text from `from` on begins with `head`.
fn test_begins(v: &Vec<char>, from: usize, head: &str) -> (r: bool)
    requires
        from <= v@.len(),
    ensures
        r == begins(v@.skip(from as int), head@),
        r ==> from + head@.len() <= v@.len(),
{
    let h: Vec<char> = chars_of(head);
    let ghost s = v@.skip(from as int);
    let len: usize = v.len();
    if h.len() > len - from {
        return false;
    }
    let mut i: usize = 0;
    while i < h.len()
        invariant
            i <= h@.len(),
            h@ == head@,
            s == v@.skip(from as int),
            from + h@.len() <= len,
            len == v@.len(),
            forall|k: int| 0 <= k < i ==> s[k] == h@[k],
        decreases h@.len() - i,
    {
        if v[from + i] != h[i] {
            proof {
                assert(s.take(h@.len() as int)[i as int] != h@[i as int]);
            }
            return false;
        }
        i = i + 1;
    }
    proof {
        assert(s.take(h@.len() as int) =~= h@);
    }
    true
}

/// Where the first quote after `from` is.
fn find_quote(v: &Vec<char>, from: usize) -> (r: usize)
    requires
        from <= v@.len(),
    ensures
        from <= r <= v@.len(),
        r - from == first_quote(v@.skip(from as int)),
{
    let mut r: usize = from;
    let ghost whole = first_quote(v@.skip(from as int));
    while r < v.len() && v[r] != '\''
        invariant
            from <= r <= v@.len(),
            whole == (r - from) + first_quote(v@.skip(r as int)),
        decreases v@.len() - r,
    {
        proof {
            assert(v@.skip(r as int).skip(1) =~= v@.skip(r + 1));
        }
        r = r + 1;
    }
    r
}

/// Numbers with a comma and a space between them, up to a bracket.
fn read_numbers(v: &Vec<char>, from: usize) -> (r: Option<Vec<usize>>)
    requires
        from <= v@.len(),
    ensures
        match (r, numbers(v@.skip(from as int))) {
            (Some(n), Some(m)) => n@ == m,
            (None, None) => true,
            _ => false,
        },
{
    let len: usize = v.len();
    let mut out: Vec<usize> = Vec::new();
    let mut at: usize = from;
    let ghost whole = numbers(v@.skip(from as int));
    proof {
        if let Some(m) = whole {
            assert(Seq::<usize>::empty() + m =~= m);
        }
    }
    loop
        invariant
            from <= at <= len,
            len == v@.len(),
            whole == (match numbers(v@.skip(at as int)) {
                Some(rest) => Some(out@ + rest),
                None => None,
            }),
            whole == numbers(v@.skip(from as int)),
        decreases len - at,
    {
        let ghost s = v@.skip(at as int);
        let (run, value): (usize, Option<usize>) = read_digits(v, at, len);
        proof {
            assert(v@.subrange(at as int, len as int) =~= s);
            lemma_digit_run_bound(s);
            assert(s.skip(run as int) =~= v@.skip(at + run));
        }
        let n: usize = match value {
            Some(n) if run > 0 => n,
            _ => return None,
        };
        let next: usize = at + run;
        if next == len {
            return None;
        }
        let ghost before = out@;
        out.push(n);
        if v[next] == ')' {
            proof {
                assert(before + seq![n] =~= out@);
            }
            return Some(out);
        }
        if len - next < 2 || v[next] != ',' || v[next + 1] != ' ' {
            return None;
        }
        proof {
            let r = v@.skip(next as int);
            assert(r.skip(2) =~= v@.skip(next + 2));
            if let Some(rest) = numbers(r.skip(2)) {
                assert(before + (seq![n] + rest) =~= out@ + rest);
            }
        }
        at = next + 2;
    }
}

/// The type, the order and the shape that a description names.
fn read_description(v: &Vec<char>) -> (r: Result<(ElementType, bool, Vec<usize>), NpyFault>)
    ensures
        match (r, described(v@)) {
            (Ok((t, fortran, dims)), Ok((u, order, shape))) => t == u && fortran == order && dims@
                == shape && t.wf(),
            (Err(e), Err(f)) => e == f,
            _ => false,
        },
{
    let len: usize = v.len();
    proof {
        assert(v@.skip(0) =~= v@);
    }
    if !test_begins(v, 0, "{'descr': '") {
        return Err(NpyFault::Format);
    }
    let start: usize = chars_of("{'descr': '").len();
    let quote: usize = find_quote(v, start);
    let ghost a = v@.skip(start as int);
    proof {
        assert(a.skip(quote - start) =~= v@.skip(quote as int));
        assert(a.take(quote - start) =~= v@.subrange(start as int, quote as int));
    }
    let fortran: bool = test_begins(v, quote, "', 'fortran_order': True, 'shape': (");
    if !fortran && !test_begins(v, quote, "', 'fortran_order': False, 'shape': (") {
        return Err(NpyFault::Format);
    }
    let shape: usize = if fortran {
        quote + chars_of("', 'fortran_order': True, 'shape': (").len()
    } else {
        quote + chars_of("', 'fortran_order': False, 'shape': (").len()
    };
    proof {
        assert(a.skip(quote - start).skip(before_shape(fortran).len() as int) =~= v@.skip(
            shape as int,
        ));
    }
    match find_type(v, start, quote) {
        None => Err(NpyFault::Type),
        Some(t) => match read_numbers(v, shape) {
            Some(dims) => Ok((t, fortran, dims)),
            None => Err(NpyFault::Shape),
        },
    }
}

/// Whether an image of this size can be addressed.
fn test_addressable(h: usize, w: usize) -> (r: bool)
    ensures
        r == addressable(h as nat, w as nat),
        r ==> h * w <= usize::MAX,
{
    let a: usize = if h == 0 {
        1
    } else {
        h
    };
    let b: usize = if w == 0 {
        1
    } else {
        w
    };
    proof {
        assert(h * w <= a * b) by (nonlinear_arith)
            requires
                0 <= h <= a,
                0 <= w <= b,
        ;
    }
    match a.checked_mul(b) {
        Some(n) => n <= isize::MAX as usize,
        None => false,
    }
}

/// The elements from `start` on.
fn read_elements(bytes: &[u8], start: usize, t: ElementType, count: usize) -> (r: Vec<u32>)
    requires
        t.wf(),
        start <= bytes@.len(),
        bytes@.len() - start == count * t.size,
    ensures
        r@ == t.singles(bytes@.skip(start as int), count as nat),
{
    let ghost data = bytes@.skip(start as int);
    let len: usize = bytes.len();
    let mut r: Vec<u32> = Vec::with_capacity(count);
    let mut i: usize = 0;
    let mut at: usize = start;
    proof {
        assert(0 * t.size == 0);
    }
    while i < count
        invariant
            i <= count,
            t.wf(),
            len == bytes@.len(),
            data == bytes@.skip(start as int),
            len - start == count * t.size,
            at == start + i * t.size,
            r@ == t.singles(data, i as nat),
        decreases count - i,
    {
        proof {
            assert((i + 1) * t.size == i * t.size + t.size) by (nonlinear_arith);
            assert((i + 1) * t.size <= count * t.size) by (nonlinear_arith)
                requires
                    i + 1 <= count,
            ;
            assert(data.subrange(i * t.size, i * t.size + t.size) =~= bytes@.subrange(
                at as int,
                at + t.size,
            ));
        }
        r.push(t.read(bytes, at));
        i = i + 1;
        at = at + t.size;
        proof {
            assert(r@ =~= t.singles(data, i as nat));
        }
    }
    r
}

/// Part of a list.
fn copy_range(v: &Vec<u32>, from: usize, len: usize) -> (r: Vec<u32>)
    requires
        from + len <= v@.len(),
    ensures
        r@ == v@.subrange(from as int, from + len),
{
    let total: usize = v.len();
    let mut r: Vec<u32> = Vec::with_capacity(len);
    let mut i: usize = 0;
    while i < len
        invariant
            i <= len,
            from + len <= total,
            total == v@.len(),
            r@ == v@.subrange(from as int, from + i),
        decreases len - i,
    {
        r.push(v[from + i]);
        i = i + 1;
    }
    r
}

/// The pixels of image `k` of `n` whose elements are in Fortran order.
fn gather_plane(v: &Vec<u32>, n: usize, h: usize, w: usize, k: usize) -> (r: Vec<u32>)
    requires
        k < n,
        n * (h * w) == v@.len(),
        h * w <= usize::MAX,
    ensures
        r@ == fortran_plane(v@, n as nat, h as nat, w as nat, k as int),
{
    let count: usize = v.len();
    let ghost all = fortran_plane(v@, n as nat, h as nat, w as nat, k as int);
    let mut r: Vec<u32> = Vec::with_capacity(h * w);
    let mut j: usize = 0;
    proof {
        assert(all.take(0) =~= Seq::<u32>::empty());
        assert(0 * w == 0);
    }
    while j < h
        invariant
            j <= h,
            k < n,
            count == v@.len(),
            n * (h * w) == count,
            all == fortran_plane(v@, n as nat, h as nat, w as nat, k as int),
            r@ == all.take(j * w),
        decreases h - j,
    {
        let mut i: usize = 0;
        while i < w
            invariant
                i <= w,
                j < h,
                k < n,
                count == v@.len(),
                n * (h * w) == count,
                all == fortran_plane(v@, n as nat, h as nat, w as nat, k as int),
                r@ == all.take(j * w + i),
            decreases w - i,
        {
            proof {
                let p = j * w + i;
                crate::frame::lemma_cell(j as int, i as int, w as int, h as int);
                assert(h * w == w * h) by (nonlinear_arith);
                assert(0 <= h * i && 0 <= j + h * i < h * w) by (nonlinear_arith)
                    requires
                        0 <= j < h,
                        0 <= i < w,
                ;
                lemma_place(k as int, j + h * i, n as int, h * w);
                assert(all[p] == v@[k + n * (j + h * i)]);
                assert(all.take(p + 1) =~= all.take(p).push(all[p]));
            }
            r.push(v[k + n * (j + h * i)]);
            i = i + 1;
        }
        proof {
            assert(j * w + w == (j + 1) * w) by (nonlinear_arith);
        }
        j = j + 1;
    }
    proof {
        assert(all.take(h * w) =~= all);
    }
    r
}

/// Element `k` of group `g` lies among all elements.
proof fn lemma_place(k: int, g: int, n: int, groups: int)
    requires
        0 <= k < n,
        0 <= g < groups,
    ensures
        0 <= n * g,
        k + n * g < n * groups,
        g <= n * g,
{
    assert(0 <= n * g && k + n * g < n * groups && g <= n * g) by (nonlinear_arith)
        requires
            0 <= k < n,
            0 <= g < groups,
    ;
}

/// Read the images of a 2-D or 3-D array.
pub fn load_npy(bytes: &[u8]) -> (r: Result<Vec<Frame>, LoadError>)
    ensures
        outcome(r) == (match stack_in(bytes@) {
            Ok(all) => Ok::<Seq<Image>, Fault>(all),
            Err(e) => Err(Fault::Npy(e)),
        }),
{
    let (text, start): (Vec<char>, usize) = match find_header(bytes) {
        Some(h) => h,
        None => return Err(LoadError::Npy(NpyFault::Format)),
    };
    let (t, fortran, dims): (ElementType, bool, Vec<usize>) = match read_description(&text) {
        Ok(d) => d,
        Err(e) => return Err(LoadError::Npy(e)),
    };
    let (n, h, w): (usize, usize, usize) = if dims.len() == 2 {
        (1, dims[0], dims[1])
    } else if dims.len() == 3 {
        (dims[0], dims[1], dims[2])
    } else {
        return Err(LoadError::Npy(NpyFault::Shape));
    };
    if !test_addressable(h, w) {
        return Err(LoadError::Npy(NpyFault::Shape));
    }
    let plane: usize = h * w;
    let left: usize = bytes.len() - start;
    let count: usize = match n.checked_mul(plane) {
        Some(c) => c,
        None => {
            proof {
                assert(n * plane * t.size >= n * plane) by (nonlinear_arith)
                    requires
                        t.size >= 1,
                        n * plane >= 0,
                ;
                assert(n * plane > usize::MAX && left <= usize::MAX);
                assert(n as nat * (h as nat * w as nat) == n * plane);
            }
            return Err(LoadError::Npy(NpyFault::Length));
        },
    };
    match count.checked_mul(t.size) {
        Some(b) if b == left => {},
        _ => return Err(LoadError::Npy(NpyFault::Length)),
    }
    let elements: Vec<u32> = read_elements(bytes, start, t, count);
    let ghost all = divided(elements@, fortran, n as nat, h as nat, w as nat);
    let mut frames: Vec<Frame> = Vec::new();
    let mut k: usize = 0;
    let mut at: usize = 0;
    proof {
        assert(0 * plane == 0);
        assert(images(frames@) =~= all.take(0));
    }
    while k < n
        invariant
            k <= n,
            plane == h * w,
            count == n * plane,
            addressable(h as nat, w as nat),
            elements@.len() == count,
            at == k * plane,
            all == divided(elements@, fortran, n as nat, h as nat, w as nat),
            images(frames@) == all.take(k as int),
        decreases n - k,
    {
        proof {
            assert((k + 1) * plane == k * plane + plane) by (nonlinear_arith);
            assert((k + 1) * plane <= n * plane) by (nonlinear_arith)
                requires
                    k + 1 <= n,
            ;
        }
        let pixels: Vec<u32> = if fortran {
            gather_plane(&elements, n, h, w, k)
        } else {
            copy_range(&elements, at, plane)
        };
        let ghost p = pixels@;
        match Frame::from_pixels(h, w, pixels) {
            Ok(f) => {
                let ghost before = images(frames@);
                frames.push(f);
                proof {
                    assert(images(frames@) =~= before.push(f@));
                    assert(all[k as int] == f@);
                    assert(all.take(k + 1) =~= all.take(k as int).push(all[k as int]));
                }
            },
            Err(_) => {
                return Err(LoadError::Npy(NpyFault::Shape));
            },
        }
        k = k + 1;
        at = at + plane;
    }
    proof {
        assert(all.take(n as int) =~= all);
    }
    Ok(frames)
}

// ----- laws --------------------------------------------------------------------------

/// What is cropped from several images has, as part `k`, the region of image `k`;
/// `p` is the number of pixels of the region.
proof fn lemma_cropped_part(all: Seq<Image>, crop: CropRect, p: nat, k: int)
    requires
        p == crop.width * crop.height,
        0 <= k < all.len(),
    ensures
        cropped_pixels(all, crop).len() == all.len() * p,
        0 <= k * p,
        k * p + p <= all.len() * p,
        cropped_pixels(all, crop).subrange(k * p, k * p + p) == all[k].region(crop),
    decreases all.len(),
{
    let earlier = all.drop_last();
    let n = all.len() as int;
    lemma_cropped_size(earlier, crop, p);
    let (e, r) = (cropped_pixels(earlier, crop), all.last().region(crop));
    assert((n - 1) * p + p == n * p) by (nonlinear_arith);
    assert(0 <= k * p && k * p + p <= n * p) by (nonlinear_arith)
        requires
            0 <= k < n,
            p >= 0,
    ;
    if k < n - 1 {
        lemma_cropped_part(earlier, crop, p, k);
        assert(earlier[k] == all[k]);
        assert((e + r).subrange(k * p, k * p + p) =~= e.subrange(k * p, k * p + p));
    } else {
        assert((e + r).subrange(k * p, k * p + p) =~= r);
    }
}

proof fn lemma_cropped_size(all: Seq<Image>, crop: CropRect, p: nat)
    requires
        p == crop.width * crop.height,
    ensures
        cropped_pixels(all, crop).len() == all.len() * p,
    decreases all.len(),
{
    if all.len() == 0 {
        assert(0 * p == 0);
    } else {
        let n = all.len() as int;
        lemma_cropped_size(all.drop_last(), crop, p);
        assert((n - 1) * p + p == n * p) by (nonlinear_arith);
    }
}

/// The cropped stack holds, in row `j` and column `i` of image `k`, the pixel of
/// that image in row `y + j` and column `x + i`: the crop of a frame is
/// `frame[y:y+height, x:x+width]`.
pub proof fn law_cropped_stack_is_the_slice(
    all: Seq<Image>,
    crop: CropRect,
    k: int,
    j: int,
    i: int,
)
    requires
        0 <= k < all.len(),
        0 <= j < crop.height,
        0 <= i < crop.width,
        crop.within(all[k].cols as int, all[k].rows as int),
    ensures
        cropped_pixels(all, crop)[k * (crop.width * crop.height) + (j * crop.width + i)]
            == all[k].at(crop.y + j, crop.x + i).bits,
{
    let p = (crop.width * crop.height) as nat;
    let e = j * crop.width + i;
    crate::frame::lemma_cell(j, i, crop.width as int, crop.height as int);
    lemma_cropped_part(all, crop, p, k);
    let area = all[k].region(crop);
    assert(cropped_pixels(all, crop).subrange(k * p, k * p + p)[e] == area[e]);
    let cols = all[k].cols as int;
    assert(area[e] == all[k].pixels[(crop.y + j) * cols + crop.x + i]);
    assert((crop.y + j) * cols + crop.x + i == (crop.y + j) * cols + (crop.x + i));
}

proof fn lemma_pixel_bytes(pixels: Seq<u32>)
    ensures
        pixel_bytes(pixels).len() == 4 * pixels.len(),
        forall|i: int|
            #![trigger pixels[i]]
            0 <= i < pixels.len() ==> pixel_bytes(pixels).subrange(4 * i, 4 * i + 4) == bytes_of(
                pixels[i],
            ),
    decreases pixels.len(),
{
    if pixels.len() > 0 {
        let earlier = pixels.drop_last();
        lemma_pixel_bytes(earlier);
        let (a, b) = (pixel_bytes(earlier), pixel_bytes(pixels));
        assert forall|i: int| #![trigger pixels[i]] 0 <= i < pixels.len() implies b.subrange(
            4 * i,
            4 * i + 4,
        ) == bytes_of(pixels[i]) by {
            if i < earlier.len() {
                assert(earlier[i] == pixels[i]);
                assert(b.subrange(4 * i, 4 * i + 4) =~= a.subrange(4 * i, 4 * i + 4));
            } else {
                assert(b.subrange(4 * i, 4 * i + 4) =~= bytes_of(pixels[i]));
            }
        }
    }
}

/// The type of the elements that are written.
spec fn float32() -> ElementType {
    ElementType { class: Class::Float, size: 4, big_endian: false }
}

/// Elements that were written are read back.
proof fn lemma_elements(pixels: Seq<u32>)
    ensures
        float32().singles(pixel_bytes(pixels), pixels.len()) == pixels,
{
    lemma_pixel_bytes(pixels);
    let got = float32().singles(pixel_bytes(pixels), pixels.len());
    assert forall|i: int| 0 <= i < pixels.len() implies #[trigger] got[i] == pixels[i] by {
        lemma_bytes_of(pixels[i]);
        assert(i * 4 == 4 * i);
    }
    assert(got =~= pixels);
}

/// The header of a file is found again.
proof fn lemma_split_header(text: Seq<char>, data: Seq<u8>)
    requires
        text.len() < 200,
        forall|i: int| 0 <= i < text.len() ==> (#[trigger] text[i] as u32) < 128,
    ensures
        ({
            let file = header(text) + data;
            let end = header(text).len() as int;
            split_header(file) matches Some((t, e)) && e == end && t.len() >= text.len() && t.take(
                text.len() as int,
            ) == text && file.skip(end) == data
        }),
{
    let pad = padding(text.len());
    let len = (text.len() + pad + 1) as nat;
    let h = header(text);
    let file = h + data;
    assert(h.len() == 10 + len);
    assert(file.take(6) =~= preamble().take(6));
    assert(file[6] == 1);
    let size = file.subrange(8, 10);
    assert(size =~= seq![(len % 256) as u8, (len / 256) as u8]);
    let r = size.reverse();
    assert(r =~= seq![(len / 256) as u8, (len % 256) as u8]);
    assert(r.drop_last().drop_last() =~= Seq::<u8>::empty());
    assert(big_endian(r.drop_last().drop_last()) == 0);
    assert(big_endian(r.drop_last()) == len / 256);
    assert(little_endian(size) == len);
    let end = 10 + len;
    let t = characters(file.subrange(10, end as int));
    let front = preamble() + seq![(len % 256) as u8, (len / 256) as u8];
    assert forall|i: int| 0 <= i < text.len() implies #[trigger] t[i] == text[i] by {
        lemma_middle(front, ascii(text), Seq::new(pad, |i: int| 32u8), seq![10u8], data, i);
        lemma_ascii(text[i]);
    }
    assert(t.take(text.len() as int) =~= text);
    assert(file.skip(end as int) =~= data);
}

proof fn lemma_middle(p: Seq<u8>, a: Seq<u8>, b: Seq<u8>, c: Seq<u8>, d: Seq<u8>, i: int)
    requires
        0 <= i < a.len(),
    ensures
        (p + a + b + c + d)[p.len() + i] == a[i],
{
}

proof fn lemma_ascii(c: char)
    requires
        (c as u32) < 128,
    ensures
        ((c as u8) as char) == c,
{
}

proof fn lemma_begins(a: Seq<char>, b: Seq<char>)
    ensures
        begins(a + b, a),
        (a + b).skip(a.len() as int) == b,
{
    assert((a + b).take(a.len() as int) =~= a);
    assert((a + b).skip(a.len() as int) =~= b);
}

proof fn lemma_first_quote(a: Seq<char>, b: Seq<char>)
    requires
        forall|i: int| 0 <= i < a.len() ==> a[i] != '\'',
        b.len() > 0,
        b[0] == '\'',
    ensures
        first_quote(a + b) == a.len(),
    decreases a.len(),
{
    let s = a + b;
    if a.len() > 0 {
        assert(s.skip(1) =~= a.skip(1) + b);
        lemma_first_quote(a.skip(1), b);
    } else {
        assert(s =~= b);
    }
}

/// A number is read up to what follows it.
proof fn lemma_number_before(n: usize, rest: Seq<char>)
    requires
        rest.len() > 0,
        !is_digit(rest[0]),
    ensures
        ({
            let s = decimal(n as nat) + rest;
            let run = digit_run(s);
            &&& run == decimal(n as nat).len()
            &&& run > 0
            &&& digits_value(s.take(run as int)) == n
            &&& s.skip(run as int) == rest
        }),
{
    let d = decimal(n as nat);
    let s = d + rest;
    lemma_decimal(n as nat);
    assert forall|i: int| 0 <= i < d.len() implies is_digit(#[trigger] s[i]) by {
        assert(is_digit(d[i]));
    }
    assert(s[d.len() as int] == rest[0]);
    lemma_digit_run_is(s, d.len() as int);
    assert(s.take(d.len() as int) =~= d);
    assert(s.skip(d.len() as int) =~= rest);
}

/// The shape that is written is read back.
proof fn lemma_numbers(n: usize, h: usize, w: usize, rest: Seq<char>)
    requires
        rest.len() > 0,
        rest[0] == ')',
    ensures
        numbers(
            decimal(n as nat) + (seq![',', ' '] + (decimal(h as nat) + (seq![',', ' '] + (decimal(
                w as nat,
            ) + rest)))),
        ) == Some(seq![n, h, w]),
{
    let sep = seq![',', ' '];
    let s3 = decimal(w as nat) + rest;
    let s2 = decimal(h as nat) + (sep + s3);
    lemma_number_before(w, rest);
    assert(numbers(s3) == Some(seq![w]));
    lemma_next_number(h, s3, seq![w]);
    lemma_next_number(n, s2, seq![h] + seq![w]);
    assert(seq![n] + (seq![h] + seq![w]) =~= seq![n, h, w]);
}

proof fn lemma_next_number(n: usize, s: Seq<char>, m: Seq<usize>)
    requires
        numbers(s) == Some(m),
    ensures
        numbers(decimal(n as nat) + (seq![',', ' '] + s)) == Some(seq![n] + m),
{
    let rest = seq![',', ' '] + s;
    lemma_number_before(n, rest);
    assert(rest.skip(2) =~= s);
}

/// The description that is written is read back, whatever follows it.
proof fn lemma_described(n: usize, h: usize, w: usize, tail: Seq<char>)
    ensures
        described(description(n as nat, h as nat, w as nat) + tail) == Ok::<
            (ElementType, bool, Seq<usize>),
            NpyFault,
        >((float32(), false, seq![n, h, w])),
{
    let (a, b) = (before_type(), before_shape(false));
    let ty = "<f4"@;
    let sep = ", "@;
    let (dn, dh, dw) = (decimal(n as nat), decimal(h as nat), decimal(w as nat));
    let end = "), }"@ + tail;
    let shape = dn + (sep + (dh + (sep + (dw + end))));
    let text = description(n as nat, h as nat, w as nat) + tail;
    assert(text =~= a + (ty + (b + shape))) by {
        lemma_regrouped(a, ty, b, dn, sep, dh, dw, "), }"@, tail);
    }
    reveal_strlit("<f4");
    reveal_strlit(", ");
    reveal_strlit("), }");
    assert(sep =~= seq![',', ' ']);
    assert(b[0] == '\'' && b.len() > 0) by {
        reveal_strlit("', 'fortran_order': False, 'shape': (");
    }
    lemma_begins(a, ty + (b + shape));
    lemma_first_quote(ty, b + shape);
    lemma_begins(ty, b + shape);
    assert((ty + (b + shape)).take(3) =~= ty);
    lemma_begins(b, shape);
    lemma_other_order(shape);
    lemma_numbers(n, h, w, end);
}

/// A description in C order is not one in Fortran order.
proof fn lemma_other_order(rest: Seq<char>)
    ensures
        !begins(before_shape(false) + rest, before_shape(true)),
{
    reveal_strlit("', 'fortran_order': False, 'shape': (");
    reveal_strlit("', 'fortran_order': True, 'shape': (");
    let s = before_shape(false) + rest;
    let head = before_shape(true);
    if begins(s, head) {
        assert(s.take(head.len() as int)[20] == head[20]);
    }
}

proof fn lemma_regrouped(
    a: Seq<char>,
    b: Seq<char>,
    c: Seq<char>,
    d: Seq<char>,
    sep: Seq<char>,
    e: Seq<char>,
    f: Seq<char>,
    g: Seq<char>,
    tail: Seq<char>,
)
    ensures
        a + b + c + d + sep + e + sep + f + g + tail == a + (b + (c + (d + (sep + (e + (sep + (f + (g
            + tail)))))))),
{
    assert(a + b + c + d + sep + e + sep + f + g + tail =~= a + (b + (c + (d + (sep + (e + (sep + (f
        + (g + tail)))))))));
}

/// The elements of a cropped stack that was written are read back.
#[verifier::spinoff_prover]
#[verifier::rlimit(60)]
proof fn lemma_stack_elements(all: Seq<Image>, crop: CropRect)
    requires
        all.len() <= usize::MAX,
        addressable(crop.height as nat, crop.width as nat),
    ensures
        stack_in(cropped_stack(all, crop)) == Ok::<Seq<Image>, NpyFault>(
            divided(
                cropped_pixels(all, crop),
                false,
                all.len(),
                crop.height as nat,
                crop.width as nat,
            ),
        ),
{
    let (n, h, w) = (all.len() as usize, crop.height, crop.width);
    let text = description(n as nat, h as nat, w as nat);
    let pixels = cropped_pixels(all, crop);
    let data = pixel_bytes(pixels);
    let file = cropped_stack(all, crop);
    let plane = h as nat * w as nat;
    assert(h * w == w * h) by (nonlinear_arith);
    lemma_description_is_short(n as nat, h as nat, w as nat);
    lemma_split_header(text, data);
    let (t, end) = split_header(file)->0;
    let tail = t.skip(text.len() as int);
    assert(t =~= t.take(text.len() as int) + tail);
    lemma_described(n, h, w, tail);
    lemma_cropped_size(all, crop, plane);
    assert(data.len() == 4 * pixels.len()) by {
        lemma_pixel_bytes(pixels);
    }
    lemma_elements(pixels);
    assert(file.len() == end + data.len());
    assert(n as nat * plane * 4 == data.len());
}

/// A cropped stack that was written is read back: one image of the size of the
/// crop for each image of the stack, with the pixels of the crop.
pub proof fn law_stack_round_trip(all: Seq<Image>, crop: CropRect)
    requires
        all.len() <= usize::MAX,
        addressable(crop.height as nat, crop.width as nat),
    ensures
        stack_in(cropped_stack(all, crop)) == Ok::<Seq<Image>, NpyFault>(
            all.map_values(
                |f: Image|
                    Image {
                        rows: crop.height as nat,
                        cols: crop.width as nat,
                        pixels: f.region(crop),
                    },
            ),
        ),
{
    let (h, w) = (crop.height, crop.width);
    let plane = h as nat * w as nat;
    assert(h * w == w * h) by (nonlinear_arith);
    lemma_stack_elements(all, crop);
    let got = divided(cropped_pixels(all, crop), false, all.len(), h as nat, w as nat);
    let wanted = all.map_values(
        |f: Image| Image { rows: h as nat, cols: w as nat, pixels: f.region(crop) },
    );
    assert forall|k: int| 0 <= k < all.len() implies #[trigger] got[k] == wanted[k] by {
        lemma_cropped_part(all, crop, plane, k);
    }
    assert(got =~= wanted);
}

// ----- elements --------------------------------------------------------------------------

/// The number that the bytes of an element write.
pub open spec fn written(t: ElementType, bytes: Seq<u8>) -> nat {
    if t.big_endian {
        big_endian(bytes)
    } else {
        little_endian(bytes)
    }
}

/// The pixel made of an element has the value that its bytes write: natural numbers as
/// they are, integers in two's complement, which become the nearest binary32 number, and
/// floating-point numbers by their bits.
pub proof fn law_pixel_has_the_value_of_the_element(t: ElementType, bytes: Seq<u8>)
    requires
        t.wf(),
        bytes.len() == t.size,
    ensures
        ({
            let n = written(t, bytes);
            let half = pow2((8 * t.size - 1) as nat);
            match t.class {
                Class::Unsigned => is_pixel_of(t.single(bytes), n as int),
                Class::Signed => is_pixel_of(
                    t.single(bytes),
                    if n < half {
                        n as int
                    } else {
                        n - 2 * half
                    },
                ),
                Class::Float => {
                    &&& t.size == 4 ==> t.single(bytes) == n
                    &&& t.size == 8 ==> forall|w: Binary32|
                        #![trigger w.spec_widen()]
                        w.finite() && w.spec_widen().raw() == n ==> t.single(bytes) == w.bits
                },
            }
        }),
{
    let n = written(t, bytes);
    let bits = (8 * t.size) as nat;
    lemma_big_endian_bound(bytes);
    lemma_big_endian_bound(bytes.reverse());
    vstd::arithmetic::power2::lemma_pow2_unfold(bits);
    vstd::arithmetic::power2::lemma2_to64();
    vstd::arithmetic::power2::lemma2_to64_rest();
    assert(n < pow2(bits) <= pow2(64)) by {
        if bits < 64 {
            vstd::arithmetic::power2::lemma_pow2_strictly_increases(bits, 64);
        }
    }
    match t.class {
        Class::Unsigned => law_integer_becomes_the_nearest_number(n as int),
        Class::Signed => law_integer_becomes_the_nearest_number(
            if 2 * n >= pow2(bits) {
                n - pow2(bits)
            } else {
                n as int
            },
        ),
        Class::Float => {
            if t.size == 8 {
                assert forall|w: Binary32|
                    #![trigger w.spec_widen()]
                    w.finite() && w.spec_widen().raw() == n implies t.single(bytes) == w.bits by {
                    w.law_widening_is_undone_by_narrowing();
                }
            }
        },
    }
}

/// The order of the bytes is that of the type: the same bytes the other way round are
/// the same element of the type with the other order.
pub proof fn law_other_order_reads_the_other_way(t: ElementType, bytes: Seq<u8>)
    ensures
        (ElementType { big_endian: !t.big_endian, ..t }).single(bytes.reverse()) == t.single(bytes),
{
    assert(bytes.reverse().reverse() =~= bytes);
}

/// Every element is read from its own bytes, which stand one after the other.
pub proof fn law_elements_stand_one_after_the_other(
    t: ElementType,
    before: Seq<u8>,
    element: Seq<u8>,
    behind: Seq<u8>,
    i: nat,
    count: nat,
)
    requires
        element.len() == t.size,
        before.len() == i * t.size,
        i < count,
    ensures
        t.singles(before + element + behind, count).len() == count,
        t.singles(before + element + behind, count)[i as int] == t.single(element),
{
    let all = before + element + behind;
    assert(all.subrange((i * t.size) as int, i * t.size + t.size) =~= element);
}

/// A description of a type says what it says: its order, its class and its size.
pub proof fn law_type_is_what_is_written(descr: Seq<char>)
    ensures
        type_of(descr) matches Some(t) ==> {
            &&& descr.len() == 3
            &&& t.wf()
            &&& t.size == descr[2] as int - 48
            &&& t.class == Class::Unsigned <==> descr[1] == 'u'
            &&& t.class == Class::Signed <==> descr[1] == 'i'
            &&& t.class == Class::Float <==> descr[1] == 'f'
            &&& t.big_endian <==> descr[0] == '>'
            &&& descr[0] == '|' ==> t.size == 1
        },
        descr.len() == 3 && (descr[0] == '<' || descr[0] == '>') && (descr[1] == 'u' || descr[1]
            == 'i' || descr[1] == 'f') && (descr[2] == '4' || descr[2] == '8') ==> type_of(descr)
            is Some,
        descr.len() == 3 && (descr[0] == '<' || descr[0] == '>') && (descr[1] == 'u' || descr[1]
            == 'i') && (descr[2] == '1' || descr[2] == '2') ==> type_of(descr) is Some,
{
}

/// An array is the same stack of images in either order: when the elements in C order
/// and in Fortran order are those of the same array, so are the images.
pub proof fn law_both_orders_are_the_same_stack(
    c: Seq<u32>,
    fortran: Seq<u32>,
    n: nat,
    h: nat,
    w: nat,
)
    requires
        c.len() == n * (h * w),
        forall|k: int, j: int, i: int|
            0 <= k < n && 0 <= j < h && 0 <= i < w ==> #[trigger] fortran[k + n * (j + h * i)]
                == c[k * (h * w) + (j * w + i)],
    ensures
        divided(c, false, n, h, w) == divided(fortran, true, n, h, w),
{
    let (a, b) = (divided(c, false, n, h, w), divided(fortran, true, n, h, w));
    assert forall|k: int| 0 <= k < n implies #[trigger] a[k] == b[k] by {
        let (p, q) = (a[k].pixels, b[k].pixels);
        assert(0 <= k * (h * w) && k * (h * w) + h * w <= n * (h * w)) by (nonlinear_arith)
            requires
                0 <= k < n,
        ;
        assert forall|m: int| 0 <= m < h * w implies #[trigger] p[m] == q[m] by {
            let (j, i) = (m / (w as int), m % (w as int));
            assert(w > 0) by (nonlinear_arith)
                requires
                    0 <= m < h * w,
            ;
            vstd::arithmetic::div_mod::lemma_fundamental_div_mod(m, w as int);
            assert(0 <= j < h) by (nonlinear_arith)
                requires
                    0 <= m < h * w,
                    m == w * j + i,
                    0 <= i < w,
            ;
            assert(w * j == j * w) by (nonlinear_arith);
            assert(fortran[k + n * (j + h * i)] == c[k * (h * w) + (j * w + i)]);
        }
        assert(p =~= q);
    }
    assert(a =~= b);
}

} // verus!
