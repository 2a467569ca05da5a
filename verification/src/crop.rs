//! The crop region: a single, pixel-aligned rectangle on the image, plus the
//! JSON format used to hand it to other applications (e.g. a marimo notebook
//! that applies the crop to the full stack before processing it).
//!
//! Two representations: [`RectF`] is the free-floating rectangle being drawn
//! or dragged on screen; [`CropRect`] is the integer region actually saved and
//! used for statistics, always clamped inside the image.
use crate::binary::Binary32;
use crate::float::{lemma_exact_integer, lemma_exact_integers_ordered, lemma_round_of_integer};
use crate::integers::{is_small, lemma_whole, lemma_whole_order, lemma_whole_sum, whole};
use crate::round::{lemma_units_increase, lemma_units_of_zero, Format};
use crate::text::{
    chars_of, decimal, digit_run, digits_value, find_from, is_digit, is_first, is_space,
    lemma_decimal, lemma_digit_run_is, number, occurs_at, parse_number, push_decimal, read_digits,
    skip_space, split, split_ranges, string_of, trim, trim_end, trim_range, trim_start, viewed,
    NumberError,
};
use vstd::arithmetic::power2::pow2;
use vstd::prelude::*;
use vstd::string::*;

verus! {

/// A floating-point rectangle in image-pixel space, as edited on screen.
/// Corners may be in any order and outside the image; [`RectF::to_crop`]
/// normalizes, rounds and clamps.
#[derive(Clone, Copy, PartialEq, Eq, Structural, Debug)]
pub struct RectF {
    pub x0: Binary32,
    pub y0: Binary32,
    pub x1: Binary32,
    pub y1: Binary32,
}

/// The saved crop: `x`/`y` is the top-left pixel, `width`/`height` the size in
/// pixels; the region is `[x, x+width) × [y, y+height)`.
#[derive(Clone, Copy, PartialEq, Eq, Structural, Debug)]
pub struct CropRect {
    pub x: usize,
    pub y: usize,
    pub width: usize,
    pub height: usize,
}

/// A coordinate rounded to a pixel edge and held inside an image of size `n`.
pub open spec fn pixel_edge(c: Binary32, n: usize) -> usize {
    let k = Format::Single.round_index(c.raw());
    if k < n {
        k as usize
    } else {
        n
    }
}

impl RectF {
    /// The same rectangle with the smaller coordinates first.
    pub open spec fn ordered(self) -> RectF {
        RectF {
            x0: self.x0.spec_min(self.x1),
            y0: self.y0.spec_min(self.y1),
            x1: self.x0.spec_max(self.x1),
            y1: self.y0.spec_max(self.y1),
        }
    }

    /// `lo <= p <= hi` as numbers.
    pub open spec fn between(lo: Binary32, p: Binary32, hi: Binary32) -> bool {
        &&& lo.below(p) || lo.equals(p)
        &&& p.below(hi) || p.equals(hi)
    }

    /// The point lies in the closed rectangle.
    pub open spec fn covers(self, px: Binary32, py: Binary32) -> bool {
        let r = self.ordered();
        RectF::between(r.x0, px, r.x1) && RectF::between(r.y0, py, r.y1)
    }

    pub open spec fn moved(self, dx: Binary32, dy: Binary32) -> RectF {
        RectF {
            x0: self.x0.spec_plus(dx),
            y0: self.y0.spec_plus(dy),
            x1: self.x1.spec_plus(dx),
            y1: self.y1.spec_plus(dy),
        }
    }

    /// All four coordinates are equal as numbers.
    pub open spec fn equals(self, other: RectF) -> bool {
        &&& self.x0.equals(other.x0)
        &&& self.y0.equals(other.y0)
        &&& self.x1.equals(other.x1)
        &&& self.y1.equals(other.y1)
    }

    /// The integer crop that the rectangle covers.
    pub open spec fn crop_on(self, img_w: usize, img_h: usize) -> Option<CropRect> {
        let r = self.ordered();
        let x0 = pixel_edge(r.x0, img_w);
        let y0 = pixel_edge(r.y0, img_h);
        let x1 = pixel_edge(r.x1, img_w);
        let y1 = pixel_edge(r.y1, img_h);
        if x1 > x0 && y1 > y0 {
            Some(
                CropRect {
                    x: x0,
                    y: y0,
                    width: (x1 - x0) as usize,
                    height: (y1 - y0) as usize,
                },
            )
        } else {
            None
        }
    }

    pub fn normalized(self) -> (r: RectF)
        ensures
            r == self.ordered(),
    {
        RectF {
            x0: self.x0.min(self.x1),
            y0: self.y0.min(self.y1),
            x1: self.x0.max(self.x1),
            y1: self.y0.max(self.y1),
        }
    }

    fn is_between(lo: Binary32, p: Binary32, hi: Binary32) -> (r: bool)
        ensures
            r == RectF::between(lo, p, hi),
    {
        (lo.is_below(p) || lo.is_equal(p)) && (p.is_below(hi) || p.is_equal(hi))
    }

    pub fn contains(&self, px: Binary32, py: Binary32) -> (b: bool)
        ensures
            b == self.covers(px, py),
    {
        let r: RectF = self.normalized();
        RectF::is_between(r.x0, px, r.x1) && RectF::is_between(r.y0, py, r.y1)
    }

    pub fn translate(&mut self, dx: Binary32, dy: Binary32)
        ensures
            *final(self) == old(self).moved(dx, dy),
    {
        self.x0 = self.x0.plus(dx);
        self.x1 = self.x1.plus(dx);
        self.y0 = self.y0.plus(dy);
        self.y1 = self.y1.plus(dy);
    }

    /// Whether both rectangles have the same coordinates.
    pub fn is_equal(self, other: RectF) -> (b: bool)
        ensures
            b == self.equals(other),
    {
        self.x0.is_equal(other.x0) && self.y0.is_equal(other.y0) && self.x1.is_equal(other.x1)
            && self.y1.is_equal(other.y1)
    }

    fn edge(c: Binary32, n: usize) -> (r: usize)
        ensures
            r == pixel_edge(c, n),
    {
        let k: usize = c.round_index();
        if k < n {
            k
        } else {
            n
        }
    }

    /// The integer crop this rectangle covers on a `img_w` × `img_h` image:
    /// corners rounded to pixel edges and clamped inside the image. `None`
    /// when nothing (at least 1×1 px) is left.
    pub fn to_crop(self, img_w: usize, img_h: usize) -> (c: Option<CropRect>)
        ensures
            c == self.crop_on(img_w, img_h),
    {
        let r: RectF = self.normalized();
        let x0: usize = RectF::edge(r.x0, img_w);
        let y0: usize = RectF::edge(r.y0, img_h);
        let x1: usize = RectF::edge(r.x1, img_w);
        let y1: usize = RectF::edge(r.y1, img_h);
        if x1 > x0 && y1 > y0 {
            Some(CropRect { x: x0, y: y0, width: x1 - x0, height: y1 - y0 })
        } else {
            None
        }
    }
}

/// A hexadecimal digit.
pub open spec fn hex_digit(n: nat) -> char {
    if n < 10 {
        (48 + n) as char
    } else {
        (87 + n) as char
    }
}

/// A character as it stands inside a JSON string.
pub open spec fn escape(c: char) -> Seq<char> {
    if c == '"' || c == '\\' {
        seq!['\\', c]
    } else if c == '\n' {
        seq!['\\', 'n']
    } else if c == '\r' {
        seq!['\\', 'r']
    } else if c == '\t' {
        seq!['\\', 't']
    } else if c as u32 == 8 {
        seq!['\\', 'b']
    } else if c as u32 == 12 {
        seq!['\\', 'f']
    } else if (c as u32) < 32 {
        seq!['\\', 'u', '0', '0', hex_digit(c as nat / 16), hex_digit(c as nat % 16)]
    } else {
        seq![c]
    }
}

/// The text as it stands inside a JSON string.
pub open spec fn escaped(s: Seq<char>) -> Seq<char>
    decreases s.len(),
{
    if s.len() == 0 {
        s
    } else {
        escaped(s.drop_last()) + escape(s.last())
    }
}

/// The value of a hexadecimal digit.
pub open spec fn hex_value(c: char) -> Option<nat> {
    if '0' <= c <= '9' {
        Some((c as nat - 48) as nat)
    } else if 'a' <= c <= 'f' {
        Some((c as nat - 87) as nat)
    } else if 'A' <= c <= 'F' {
        Some((c as nat - 55) as nat)
    } else {
        None
    }
}

/// The number that the four hexadecimal digits of a `\u` escape write at the
/// start of a text.
pub open spec fn code_unit(s: Seq<char>) -> Option<nat> {
    if s.len() < 6 || s[0] != '\\' || s[1] != 'u' {
        None
    } else {
        match (hex_value(s[2]), hex_value(s[3]), hex_value(s[4]), hex_value(s[5])) {
            (Some(a), Some(b), Some(c), Some(d)) => Some(((a * 16 + b) * 16 + c) * 16 + d),
            _ => None,
        }
    }
}

/// The first character that the inside of a JSON string writes, and over how many
/// characters: one that stands for itself, an escape of two characters, one with
/// four hexadecimal digits, or two such that make a surrogate pair. `None` where
/// the string is not JSON: at a quote, a control character or another escape.
#[verifier::opaque]
pub open spec fn first_written(s: Seq<char>) -> Option<(char, nat)> {
    if s.len() == 0 || s[0] == '"' || (s[0] as u32) < 32 {
        None
    } else if s[0] != '\\' {
        Some((s[0], 1))
    } else if s.len() == 1 {
        None
    } else if s[1] == '"' || s[1] == '\\' || s[1] == '/' {
        Some((s[1], 2))
    } else if s[1] == 'b' {
        Some((8 as char, 2))
    } else if s[1] == 'f' {
        Some((12 as char, 2))
    } else if s[1] == 'n' {
        Some(('\n', 2))
    } else if s[1] == 'r' {
        Some(('\r', 2))
    } else if s[1] == 't' {
        Some(('\t', 2))
    } else {
        match code_unit(s) {
            None => None,
            Some(a) => if 0xd800 <= a < 0xdc00 {
                match code_unit(s.skip(6)) {
                    Some(b) if 0xdc00 <= b < 0xe000 => Some(
                        ((0x1_0000 + (a - 0xd800) * 0x400 + (b - 0xdc00)) as char, 12),
                    ),
                    _ => None,
                }
            } else if 0xdc00 <= a < 0xe000 {
                None
            } else {
                Some((a as char, 6))
            },
        }
    }
}

/// What the inside of a JSON string stands for; `None` where it is not JSON.
pub open spec fn unescaped(s: Seq<char>) -> Option<Seq<char>>
    decreases s.len(),
{
    if s.len() == 0 {
        Some(s)
    } else {
        match first_written(s) {
            Some((c, n)) if 0 < n <= s.len() => match unescaped(s.skip(n as int)) {
                Some(rest) => Some(seq![c] + rest),
                None => None,
            },
            _ => None,
        }
    }
}

/// The key as it stands in JSON, in quotes.
pub open spec fn quoted(key: Seq<char>) -> Seq<char> {
    seq!['"'] + key + seq!['"']
}

/// The digits that follow a colon at the start of `rest`, white space aside.
pub open spec fn digits_after_colon(rest: Seq<char>) -> Seq<char> {
    let t = trim_start(rest);
    if t.len() > 0 && t[0] == ':' {
        let u = trim_start(t.skip(1));
        u.take(digit_run(u) as int)
    } else {
        Seq::empty()
    }
}

/// The first non-negative integer that follows `"key" :` in `text`; `None` when
/// there is none or when it is too large.
pub open spec fn uint_field(text: Seq<char>, key: Seq<char>) -> Option<usize>
    decreases text.len(),
{
    let needle = quoted(key);
    if exists|at: int| is_first(text, needle, at) {
        let at = choose|at: int| is_first(text, needle, at);
        let rest = text.skip(at + needle.len());
        let digits = digits_after_colon(rest);
        if digits.len() > 0 {
            if digits_value(digits) <= usize::MAX {
                Some(digits_value(digits) as usize)
            } else {
                None
            }
        } else if at >= 0 && at + needle.len() <= text.len() {
            uint_field(rest, key)
        } else {
            None
        }
    } else {
        None
    }
}

impl CropRect {
    /// The pixel lies in the region.
    pub open spec fn has(self, px: int, py: int) -> bool {
        self.x <= px < self.x + self.width && self.y <= py < self.y + self.height
    }

    /// The region lies on a `img_w` × `img_h` image.
    pub open spec fn within(self, img_w: int, img_h: int) -> bool {
        self.x + self.width <= img_w && self.y + self.height <= img_h
    }

    /// The region is not empty and lies on a `img_w` × `img_h` image.
    pub open spec fn fits(self, img_w: int, img_h: int) -> bool {
        self.width > 0 && self.height > 0 && self.within(img_w, img_h)
    }

    /// The far corner can be written down.
    pub open spec fn bounded(self) -> bool {
        self.x + self.width <= usize::MAX && self.y + self.height <= usize::MAX
    }

    /// The part of the region that lies on the image.
    pub open spec fn clamped(self, img_w: usize, img_h: usize) -> Option<CropRect> {
        let x1 = if self.x + self.width < img_w {
            self.x + self.width
        } else {
            img_w as int
        };
        let y1 = if self.y + self.height < img_h {
            self.y + self.height
        } else {
            img_h as int
        };
        if self.x < x1 && self.y < y1 {
            Some(
                CropRect {
                    x: self.x,
                    y: self.y,
                    width: (x1 - self.x) as usize,
                    height: (y1 - self.y) as usize,
                },
            )
        } else {
            None
        }
    }

    /// The region as a floating rectangle.
    pub open spec fn as_rectf(self) -> RectF {
        RectF {
            x0: Binary32::nearest_to(self.x as nat),
            y0: Binary32::nearest_to(self.y as nat),
            x1: Binary32::nearest_to((self.x + self.width) as nat),
            y1: Binary32::nearest_to((self.y + self.height) as nat),
        }
    }

    /// What the command-line form `s` stands for, or the message why not.
    pub open spec fn of_arg(s: Seq<char>) -> Result<CropRect, Seq<char>> {
        let parts = split(s, ',').map_values(|p: Seq<char>| trim(p));
        if parts.len() != 4 {
            Err("expected X,Y,WIDTH,HEIGHT (got '"@ + s + "')"@)
        } else {
            match (number(parts[0]), number(parts[1]), number(parts[2]), number(parts[3])) {
                (Err(e), _, _, _) => Err(CropRect::bad_value(parts[0], s, e)),
                (_, Err(e), _, _) => Err(CropRect::bad_value(parts[1], s, e)),
                (_, _, Err(e), _) => Err(CropRect::bad_value(parts[2], s, e)),
                (_, _, _, Err(e)) => Err(CropRect::bad_value(parts[3], s, e)),
                (Ok(x), Ok(y), Ok(width), Ok(height)) => if width == 0 || height == 0 {
                    Err("crop width and height must be > 0 (got '"@ + s + "')"@)
                } else {
                    Ok(CropRect { x, y, width, height })
                },
            }
        }
    }

    pub open spec fn bad_value(part: Seq<char>, s: Seq<char>, e: NumberError) -> Seq<char> {
        "invalid value '"@ + part + "' in '"@ + s + "': "@ + e.text()
    }

    /// The JSON form of the region.
    pub open spec fn json(self, img_w: nat, img_h: nat, folder: Seq<char>) -> Seq<char> {
        "{\n  \"x\": "@ + decimal(self.x as nat) + ",\n  \"y\": "@ + decimal(self.y as nat)
            + ",\n  \"width\": "@ + decimal(self.width as nat) + ",\n  \"height\": "@ + decimal(
            self.height as nat,
        ) + ",\n  \"image_width\": "@ + decimal(img_w) + ",\n  \"image_height\": "@ + decimal(img_h)
            + ",\n  \"folder\": \""@ + escaped(folder) + "\"\n}\n"@
    }

    /// The region that JSON text describes, or the message why there is none.
    pub open spec fn of_json(text: Seq<char>) -> Result<CropRect, Seq<char>> {
        match (
            uint_field(text, "x"@),
            uint_field(text, "y"@),
            uint_field(text, "width"@),
            uint_field(text, "height"@),
        ) {
            (None, _, _, _) => Err(CropRect::no_field("x"@)),
            (_, None, _, _) => Err(CropRect::no_field("y"@)),
            (_, _, None, _) => Err(CropRect::no_field("width"@)),
            (_, _, _, None) => Err(CropRect::no_field("height"@)),
            (Some(x), Some(y), Some(width), Some(height)) => if width == 0 || height == 0 {
                Err("crop width and height must be > 0"@)
            } else {
                Ok(CropRect { x, y, width, height })
            },
        }
    }

    pub open spec fn no_field(key: Seq<char>) -> Seq<char> {
        "no numeric \""@ + key + "\" field found"@
    }

    pub fn full(img_w: usize, img_h: usize) -> (c: CropRect)
        ensures
            c == (CropRect { x: 0, y: 0, width: img_w, height: img_h }),
            forall|px: int, py: int| #[trigger]
                c.has(px, py) <==> 0 <= px < img_w && 0 <= py < img_h,
    {
        CropRect { x: 0, y: 0, width: img_w, height: img_h }
    }

    /// One past the right-most column.
    pub fn x1(&self) -> (r: usize)
        requires
            self.x + self.width <= usize::MAX,
        ensures
            r == self.x + self.width,
            self.width > 0 && self.height > 0 ==> self.has(r - 1, self.y as int),
            forall|px: int, py: int| px >= r ==> !self.has(px, py),
    {
        self.x + self.width
    }

    /// One past the bottom-most row.
    pub fn y1(&self) -> (r: usize)
        requires
            self.y + self.height <= usize::MAX,
        ensures
            r == self.y + self.height,
            self.width > 0 && self.height > 0 ==> self.has(self.x as int, r - 1),
            forall|px: int, py: int| py >= r ==> !self.has(px, py),
    {
        self.y + self.height
    }

    pub fn area(&self) -> (r: usize)
        requires
            self.width * self.height <= usize::MAX,
        ensures
            r == self.width * self.height,
    {
        self.width * self.height
    }

    pub fn to_rectf(self) -> (r: RectF)
        ensures
            r == self.as_rectf(),
    {
        RectF {
            x0: Binary32::from_usize(self.x),
            y0: Binary32::from_usize(self.y),
            x1: Binary32::from_sum(self.x, self.width),
            y1: Binary32::from_sum(self.y, self.height),
        }
    }

    /// The part of the crop that lies on a `img_w` × `img_h` image, or `None`
    /// when it falls entirely outside.
    pub fn clamp_to(self, img_w: usize, img_h: usize) -> (c: Option<CropRect>)
        ensures
            c == self.clamped(img_w, img_h),
    {
        // A region may reach beyond what a pixel coordinate can say.
        let x1: usize = match self.x.checked_add(self.width) {
            Some(n) if n < img_w => n,
            _ => img_w,
        };
        let y1: usize = match self.y.checked_add(self.height) {
            Some(n) if n < img_h => n,
            _ => img_h,
        };
        if self.x < x1 && self.y < y1 {
            Some(CropRect { x: self.x, y: self.y, width: x1 - self.x, height: y1 - self.y })
        } else {
            None
        }
    }

    fn bad_value_message(v: &Vec<char>, part: (usize, usize), s: &str, e: NumberError) -> (m: String)
        requires
            part.0 <= part.1 <= v@.len(),
        ensures
            m@ == CropRect::bad_value(v@.subrange(part.0 as int, part.1 as int), s@, e),
    {
        let mut m: String = "invalid value '".to_owned();
        m.append(string_of(v, part.0, part.1).as_str());
        m.append("' in '");
        m.append(s);
        m.append("': ");
        m.append(e.message());
        m
    }

    fn got_message(head: &str, s: &str) -> (m: String)
        ensures
            m@ == head@ + s@ + "')"@,
    {
        let mut m: String = head.to_owned();
        m.append(s);
        m.append("')");
        m
    }

    /// Parse the command-line form `X,Y,WIDTH,HEIGHT` (e.g. `100,200,512,512`).
    pub fn parse_arg(s: &str) -> (r: Result<CropRect, String>)
        ensures
            viewed(r) == CropRect::of_arg(s@),
    {
        let v: Vec<char> = chars_of(s);
        let pieces: Vec<(usize, usize)> = split_ranges(&v, ',');
        let ghost parts = split(s@, ',').map_values(|p: Seq<char>| trim(p));
        if pieces.len() != 4 {
            return Err(CropRect::got_message("expected X,Y,WIDTH,HEIGHT (got '", s));
        }
        let mut vals: Vec<usize> = Vec::new();
        let mut i: usize = 0;
        while i < 4
            invariant
                i <= 4,
                v@ == s@,
                pieces@.len() == 4,
                pieces@.len() == split(v@, ',').len(),
                forall|k: int|
                    #![trigger pieces@[k]]
                    0 <= k < pieces@.len() ==> pieces@[k].0 <= pieces@[k].1 <= v@.len()
                        && v@.subrange(pieces@[k].0 as int, pieces@[k].1 as int) == split(v@, ',')[k],
                parts == split(s@, ',').map_values(|p: Seq<char>| trim(p)),
                vals@.len() == i,
                forall|k: int| 0 <= k < i ==> number(#[trigger] parts[k]) == Ok::<usize, NumberError>(vals@[k]),
            decreases 4 - i,
        {
            let (from, to): (usize, usize) = pieces[i];
            let part: (usize, usize) = trim_range(&v, from, to);
            proof {
                assert(parts[i as int] == v@.subrange(part.0 as int, part.1 as int));
            }
            match parse_number(&v, part.0, part.1) {
                Ok(n) => {
                    vals.push(n);
                },
                Err(e) => {
                    proof {
                        // The parts before this one are numbers.
                        assert(i > 0 ==> number(parts[0]) is Ok);
                        assert(i > 1 ==> number(parts[1]) is Ok);
                        assert(i > 2 ==> number(parts[2]) is Ok);
                    }
                    return Err(CropRect::bad_value_message(&v, part, s, e));
                },
            }
            i = i + 1;
        }
        proof {
            assert(number(parts[0]) is Ok && number(parts[1]) is Ok && number(parts[2]) is Ok
                && number(parts[3]) is Ok);
        }
        let (x, y, width, height): (usize, usize, usize, usize) = (
            vals[0],
            vals[1],
            vals[2],
            vals[3],
        );
        if width == 0 || height == 0 {
            return Err(CropRect::got_message("crop width and height must be > 0 (got '", s));
        }
        Ok(CropRect { x, y, width, height })
    }

    /// The JSON written by the save button. `image_width`/`image_height` and
    /// `folder` record what the crop was drawn on.
    pub fn to_json(&self, img_w: usize, img_h: usize, folder: &str) -> (r: String)
        ensures
            r@ == self.json(img_w as nat, img_h as nat, folder@),
    {
        let mut r: String = "{\n  \"x\": ".to_owned();
        push_decimal(&mut r, self.x as u128);
        r.append(",\n  \"y\": ");
        push_decimal(&mut r, self.y as u128);
        r.append(",\n  \"width\": ");
        push_decimal(&mut r, self.width as u128);
        r.append(",\n  \"height\": ");
        push_decimal(&mut r, self.height as u128);
        r.append(",\n  \"image_width\": ");
        push_decimal(&mut r, img_w as u128);
        r.append(",\n  \"image_height\": ");
        push_decimal(&mut r, img_h as u128);
        r.append(",\n  \"folder\": \"");
        push_escaped(&mut r, folder);
        r.append("\"\n}\n");
        r
    }

    fn no_field_message(key: &str) -> (m: String)
        ensures
            m@ == CropRect::no_field(key@),
    {
        let mut m: String = "no numeric \"".to_owned();
        m.append(key);
        m.append("\" field found");
        m
    }

    /// Read a crop back from JSON text: only the `x`, `y`, `width` and
    /// `height` keys are used, so files from other tools work too.
    pub fn from_json_text(text: &str) -> (r: Result<CropRect, String>)
        ensures
            viewed(r) == CropRect::of_json(text@),
    {
        let x: usize = match json_uint(text, "x") {
            Some(n) => n,
            None => return Err(CropRect::no_field_message("x")),
        };
        let y: usize = match json_uint(text, "y") {
            Some(n) => n,
            None => return Err(CropRect::no_field_message("y")),
        };
        let width: usize = match json_uint(text, "width") {
            Some(n) => n,
            None => return Err(CropRect::no_field_message("width")),
        };
        let height: usize = match json_uint(text, "height") {
            Some(n) => n,
            None => return Err(CropRect::no_field_message("height")),
        };
        if width == 0 || height == 0 {
            return Err("crop width and height must be > 0".to_owned());
        }
        Ok(CropRect { x, y, width, height })
    }
}

fn digit_of(n: u32) -> (c: char)
    requires
        n < 16,
    ensures
        c == hex_digit(n as nat),
{
    if n < 10 {
        (48 + n as u8) as char
    } else {
        (87 + n as u8) as char
    }
}

fn push_escape(r: &mut String, c: char)
    ensures
        final(r)@ == old(r)@ + escape(c),
{
    let n: u32 = c as u32;
    if c == '"' || c == '\\' {
        r.push('\\');
        r.push(c);
    } else if c == '\n' {
        r.append("\\n");
    } else if c == '\r' {
        r.append("\\r");
    } else if c == '\t' {
        r.append("\\t");
    } else if n == 8 {
        r.append("\\b");
    } else if n == 12 {
        r.append("\\f");
    } else if n < 32 {
        r.append("\\u00");
        r.push(digit_of(n / 16));
        r.push(digit_of(n % 16));
    } else {
        r.push(c);
    }
    proof {
        reveal_strlit("\\n");
        reveal_strlit("\\r");
        reveal_strlit("\\t");
        reveal_strlit("\\b");
        reveal_strlit("\\f");
        reveal_strlit("\\u00");
        assert(r@ =~= old(r)@ + escape(c));
    }
}

fn push_escaped(r: &mut String, folder: &str)
    ensures
        final(r)@ == old(r)@ + escaped(folder@),
{
    let ghost start = r@;
    let v: Vec<char> = chars_of(folder);
    let mut i: usize = 0;
    proof {
        assert(r@ =~= start + escaped(v@.take(0)));
    }
    while i < v.len()
        invariant
            i <= v@.len(),
            r@ == start + escaped(v@.take(i as int)),
        decreases v@.len() - i,
    {
        let c: char = v[i];
        push_escape(r, c);
        proof {
            assert(v@.take(i + 1).drop_last() =~= v@.take(i as int));
            assert(v@.take(i + 1).last() == c);
            assert(r@ =~= start + escaped(v@.take(i + 1)));
        }
        i = i + 1;
    }
    proof {
        assert(v@.take(v@.len() as int) =~= v@);
    }
}

/// First non-negative integer following `"key" :` in `text`.
pub fn json_uint(text: &str, key: &str) -> (r: Option<usize>)
    ensures
        r == uint_field(text@, key@),
{
    let v: Vec<char> = chars_of(text);
    let mut needle: Vec<char> = Vec::new();
    needle.push('"');
    let mut word: Vec<char> = chars_of(key);
    needle.append(&mut word);
    needle.push('"');
    proof {
        assert(needle@ =~= quoted(key@));
        assert(v@.skip(0) =~= v@);
    }
    let len: usize = v.len();
    let mut from: usize = 0;
    loop
        invariant
            from <= v@.len(),
            len == v@.len(),
            v@ == text@,
            needle@ == quoted(key@),
            uint_field(v@.skip(from as int), key@) == uint_field(text@, key@),
        decreases v@.len() - from,
    {
        let ghost s = v@.skip(from as int);
        match find_from(&v, &needle, from) {
            None => {
                return None;
            },
            Some(at) => {
                proof {
                    let c = choose|p: int| is_first(s, needle@, p);
                    assert(is_first(s, needle@, at as int));
                    assert(c == at) by {
                        assert(is_first(s, needle@, c));
                        if c < at {
                            assert(!occurs_at(s, needle@, c));
                        } else if at < c {
                            assert(!occurs_at(s, needle@, at as int));
                        }
                    }
                    assert(s.skip(at + needle@.len()) =~= v@.skip(from + at + needle@.len()));
                }
                let rest: usize = from + at + needle.len();
                let colon: usize = skip_space(&v, rest);
                if colon < len && v[colon] == ':' {
                    let start: usize = skip_space(&v, colon + 1);
                    let (run, value): (usize, Option<usize>) = read_digits(&v, start, len);
                    proof {
                        assert(v@.skip(colon as int)[0] == ':');
                        assert(v@.skip(colon as int).skip(1) =~= v@.skip(colon + 1));
                        assert(v@.subrange(start as int, len as int) =~= v@.skip(start as int));
                        crate::text::lemma_digit_run_bound(v@.skip(start as int));
                    }
                    if run > 0 {
                        return value;
                    }
                }
                // The key appeared elsewhere, e.g. inside a string value; keep looking.
                proof {
                    if colon < len {
                        assert(v@.skip(colon as int)[0] == v@[colon as int]);
                    }
                    assert(digits_after_colon(v@.skip(rest as int)).len() == 0);
                }
                from = rest;
            },
        }
    }
}

// ----- laws --------------------------------------------------------------------

/// No quote in `s` is followed by `c`, and none stands at the end.
#[verifier::opaque]
spec fn quotes_avoid(s: Seq<char>, c: char) -> bool {
    forall|p: int|
        #![trigger s[p]]
        0 <= p < s.len() && s[p] == '"' ==> p + 1 < s.len() && s[p + 1] != c
}

proof fn lemma_avoid_joined(a: Seq<char>, b: Seq<char>, c: char)
    requires
        quotes_avoid(a, c),
        quotes_avoid(b, c),
    ensures
        quotes_avoid(a + b, c),
{
    reveal(quotes_avoid);
    let s = a + b;
    assert forall|p: int| #![trigger s[p]] 0 <= p < s.len() && s[p] == '"' implies p + 1 < s.len()
        && s[p + 1] != c by {
        if p < a.len() {
            assert(a[p] == '"');
        } else {
            assert(b[p - a.len()] == '"');
            assert(s[p + 1] == b[p - a.len() + 1]);
        }
    }
}

proof fn lemma_avoid_decimal(n: nat, c: char)
    ensures
        quotes_avoid(decimal(n), c),
{
    reveal(quotes_avoid);
    lemma_decimal(n);
}

proof fn lemma_first_is_one(s: Seq<char>, needle: Seq<char>, a: int, b: int)
    requires
        is_first(s, needle, a),
        is_first(s, needle, b),
    ensures
        a == b,
{
    if a < b {
        assert(!occurs_at(s, needle, a));
    } else if b < a {
        assert(!occurs_at(s, needle, b));
    }
}

/// The field is read where it was written, when nothing before it looks like
/// its key.
proof fn lemma_field(pre: Seq<char>, key: Seq<char>, n: usize, rest: Seq<char>)
    requires
        key.len() > 0,
        quotes_avoid(pre, key[0]),
        rest.len() > 0,
        rest[0] == ',',
    ensures
        uint_field(pre + quoted(key) + seq![':', ' '] + decimal(n as nat) + rest, key) == Some(n),
{
    let text = pre + quoted(key) + seq![':', ' '] + decimal(n as nat) + rest;
    let needle = quoted(key);
    let at = pre.len() as int;
    assert(text.subrange(at, at + needle.len()) =~= needle);
    assert forall|p: int| 0 <= p < at implies !occurs_at(text, needle, p) by {
        reveal(quotes_avoid);
        if occurs_at(text, needle, p) {
            let found = text.subrange(p, p + needle.len());
            assert(found[0] == '"' && found[1] == key[0]);
            assert(pre[p] == text[p] && text[p] == '"');
            assert(pre[p + 1] == text[p + 1] && text[p + 1] == key[0]);
        }
    }
    assert(is_first(text, needle, at));
    let chosen = choose|p: int| is_first(text, needle, p);
    lemma_first_is_one(text, needle, at, chosen);
    let tail = text.skip(at + needle.len());
    let digits = decimal(n as nat);
    assert(tail =~= seq![':', ' '] + digits + rest);
    assert(trim_start(tail) == tail);
    let after = tail.skip(1);
    assert(after[0] == ' ');
    assert(after.skip(1) =~= digits + rest);
    lemma_decimal(n as nat);
    let u = digits + rest;
    assert(is_digit(digits[0]));
    assert(trim_start(u) == u);
    assert(trim_start(after) == u);
    assert forall|i: int| 0 <= i < digits.len() implies is_digit(#[trigger] u[i]) by {
        assert(u[i] == digits[i]);
    }
    assert(u[digits.len() as int] == ',');
    lemma_digit_run_is(u, digits.len() as int);
    assert(u.take(digits.len() as int) =~= digits);
}

proof fn lemma_join_end(
    a: Seq<char>,
    p1: Seq<char>,
    p2: Seq<char>,
    p3: Seq<char>,
    p4: Seq<char>,
    p5: Seq<char>,
    p6: Seq<char>,
    p7: Seq<char>,
)
    ensures
        a + p1 + p2 + p3 + p4 + p5 + p6 + p7 == a + (p1 + p2 + p3 + p4 + p5 + p6 + p7),
{
    assert(a + p1 + p2 + p3 + p4 + p5 + p6 + p7 =~= a + (p1 + p2 + p3 + p4 + p5 + p6 + p7));
}

/// The text of the four fields, cut open at each of them.
proof fn lemma_join_fields(
    pre: Seq<char>,
    key_x: Seq<char>,
    colon: Seq<char>,
    x: Seq<char>,
    gap: Seq<char>,
    key_y: Seq<char>,
    y: Seq<char>,
    key_w: Seq<char>,
    w: Seq<char>,
    key_h: Seq<char>,
    h: Seq<char>,
    end: Seq<char>,
)
    ensures
        ({
            let text = (pre + key_x + colon) + x + (gap + key_y + colon) + y + (gap + key_w + colon)
                + w + (gap + key_h + colon) + h + end;
            let pre_y = pre + key_x + colon + x + gap;
            let pre_w = pre_y + key_y + colon + y + gap;
            let pre_h = pre_w + key_w + colon + w + gap;
            &&& text == pre + key_x + colon + x + (gap + key_y + colon + y + gap + key_w + colon + w
                + gap + key_h + colon + h + end)
            &&& text == pre_y + key_y + colon + y + (gap + key_w + colon + w + gap + key_h + colon
                + h + end)
            &&& text == pre_w + key_w + colon + w + (gap + key_h + colon + h + end)
            &&& text == pre_h + key_h + colon + h + end
        }),
{
    let pre_y = pre + key_x + colon + x + gap;
    let pre_w = pre_y + key_y + colon + y + gap;
    let pre_h = pre_w + key_w + colon + w + gap;
    // Bring every grouping to the left.
    lemma_three(pre + key_x + colon + x, gap, key_y, colon);
    lemma_three(pre_y + key_y + colon + y, gap, key_w, colon);
    lemma_three(pre_w + key_w + colon + w, gap, key_h, colon);
    let t3 = gap + key_h + colon + h + end;
    lemma_five(pre_w + key_w + colon + w, gap, key_h, colon, h, end);
    let t2 = gap + key_w + colon + w + t3;
    lemma_five(pre_y + key_y + colon + y, gap, key_w, colon, w, t3);
    lemma_five(gap + key_w + colon + w, gap, key_h, colon, h, end);
    let t1 = gap + key_y + colon + y + t2;
    lemma_five(pre + key_x + colon + x, gap, key_y, colon, y, t2);
    lemma_five(gap + key_y + colon + y, gap, key_w, colon, w, t3);
    lemma_five(gap + key_y + colon + y + gap + key_w + colon + w, gap, key_h, colon, h, end);
}

proof fn lemma_three(a: Seq<char>, b: Seq<char>, c: Seq<char>, d: Seq<char>)
    ensures
        a + (b + c + d) == a + b + c + d,
{
    assert(a + (b + c + d) =~= a + b + c + d);
}

proof fn lemma_five(
    a: Seq<char>,
    b: Seq<char>,
    c: Seq<char>,
    d: Seq<char>,
    e: Seq<char>,
    f: Seq<char>,
)
    ensures
        a + (b + c + d + e + f) == a + b + c + d + e + f,
{
    assert(a + (b + c + d + e + f) =~= a + b + c + d + e + f);
}

/// How the four field names stand in the text.
proof fn lemma_field_names()
    ensures
        "{\n  \"x\": "@ == seq!['{', '\n', ' ', ' '] + quoted("x"@) + seq![':', ' '],
        ",\n  \"y\": "@ == seq![',', '\n', ' ', ' '] + quoted("y"@) + seq![':', ' '],
        ",\n  \"width\": "@ == seq![',', '\n', ' ', ' '] + quoted("width"@) + seq![':', ' '],
        ",\n  \"height\": "@ == seq![',', '\n', ' ', ' '] + quoted("height"@) + seq![':', ' '],
        "x"@.len() == 1 && "x"@[0] == 'x',
        "y"@.len() == 1 && "y"@[0] == 'y',
        "width"@.len() == 5 && "width"@[0] == 'w',
        "height"@.len() == 6 && "height"@[0] == 'h',
        forall|i: int| 0 <= i < 5 ==> "width"@[i] != '"',
{
    reveal_strlit("{\n  \"x\": ");
    reveal_strlit(",\n  \"y\": ");
    reveal_strlit(",\n  \"width\": ");
    reveal_strlit(",\n  \"height\": ");
    reveal_strlit("x");
    reveal_strlit("y");
    reveal_strlit("width");
    reveal_strlit("height");
    assert("{\n  \"x\": "@ =~= seq!['{', '\n', ' ', ' '] + quoted("x"@) + seq![':', ' ']);
    assert(",\n  \"y\": "@ =~= seq![',', '\n', ' ', ' '] + quoted("y"@) + seq![':', ' ']);
    assert(",\n  \"width\": "@ =~= seq![',', '\n', ' ', ' '] + quoted("width"@) + seq![':', ' ']);
    assert(",\n  \"height\": "@ =~= seq![',', '\n', ' ', ' '] + quoted("height"@) + seq![':', ' ']);
}

impl CropRect {
    /// What is written to JSON is read back, whatever the image and the folder
    /// are called; a region without area is refused.
    pub proof fn law_json_round_trip(self, img_w: nat, img_h: nat, folder: Seq<char>)
        ensures
            CropRect::of_json(self.json(img_w, img_h, folder)) == (if self.width > 0 && self.height
                > 0 {
                Ok::<CropRect, Seq<char>>(self)
            } else {
                Err("crop width and height must be > 0"@)
            }),
    {
        let (x, y) = (decimal(self.x as nat), decimal(self.y as nat));
        let (w, h) = (decimal(self.width as nat), decimal(self.height as nat));
        let gap = seq![',', '\n', ' ', ' '];
        let colon = seq![':', ' '];
        let pre_x = seq!['{', '\n', ' ', ' '];
        let (key_x, key_y) = (quoted("x"@), quoted("y"@));
        let (key_w, key_h) = (quoted("width"@), quoted("height"@));
        let end = ",\n  \"image_width\": "@ + decimal(img_w) + ",\n  \"image_height\": "@ + decimal(
            img_h,
        ) + ",\n  \"folder\": \""@ + escaped(folder) + "\"\n}\n"@;
        let text = self.json(img_w, img_h, folder);
        lemma_join_end(
            "{\n  \"x\": "@ + x + ",\n  \"y\": "@ + y + ",\n  \"width\": "@ + w + ",\n  \"height\": "@
                + h,
            ",\n  \"image_width\": "@,
            decimal(img_w),
            ",\n  \"image_height\": "@,
            decimal(img_h),
            ",\n  \"folder\": \""@,
            escaped(folder),
            "\"\n}\n"@,
        );
        lemma_field_names();
        lemma_join_fields(pre_x, key_x, colon, x, gap, key_y, y, key_w, w, key_h, h, end);
        assert(end.len() > 0 && end[0] == ',') by {
            reveal_strlit(",\n  \"image_width\": ");
        }
        let pre_y = pre_x + key_x + colon + x + gap;
        let pre_w = pre_y + key_y + colon + y + gap;
        let pre_h = pre_w + key_w + colon + w + gap;
        assert(quotes_avoid(pre_x, 'x') && quotes_avoid(pre_x, 'y') && quotes_avoid(pre_x, 'w')
            && quotes_avoid(pre_x, 'h')) by {
            reveal(quotes_avoid);
        }
        lemma_field(pre_x, "x"@, self.x, gap + key_y + colon + y + gap + key_w + colon + w + gap
            + key_h + colon + h + end);
        lemma_key_before(pre_x, "x"@, self.x as nat, 'y');
        lemma_field(pre_y, "y"@, self.y, gap + key_w + colon + w + gap + key_h + colon + h + end);
        lemma_key_before(pre_x, "x"@, self.x as nat, 'w');
        lemma_key_before(pre_y, "y"@, self.y as nat, 'w');
        lemma_field(pre_w, "width"@, self.width, gap + key_h + colon + h + end);
        lemma_key_before(pre_x, "x"@, self.x as nat, 'h');
        lemma_key_before(pre_y, "y"@, self.y as nat, 'h');
        lemma_key_before(pre_w, "width"@, self.width as nat, 'h');
        lemma_field(pre_h, "height"@, self.height, end);
    }
}

/// `text` ends in `end`.
pub open spec fn ends_with(text: Seq<char>, end: Seq<char>) -> bool {
    text.len() >= end.len() && text.skip(text.len() - end.len()) == end
}

impl CropRect {
    /// The JSON form also records which image the region was drawn on: its width stands
    /// in the field of that name, and the text ends in its height and its folder.
    pub proof fn law_json_records_the_image(self, img_w: usize, img_h: nat, folder: Seq<char>)
        ensures
            ({
                let text = self.json(img_w as nat, img_h, folder);
                &&& uint_field(text, "image_width"@) == Some(img_w)
                &&& ends_with(
                    text,
                    "image_height\": "@ + decimal(img_h) + ",\n  \"folder\": \""@ + escaped(folder)
                        + "\"\n}\n"@,
                )
            }),
    {
        let text = self.json(img_w as nat, img_h, folder);
        let front = self.json_front();
        let gap = seq![',', '\n', ' ', ' '];
        let colon = seq![':', ' '];
        let key = quoted("image_width"@);
        let (a, b, c, d) = (
            decimal(img_h),
            ",\n  \"folder\": \""@,
            escaped(folder),
            "\"\n}\n"@,
        );
        let (height, five) = ("image_height\": "@, seq![',', '\n', ' ', ' ', '"']);
        lemma_image_names();
        lemma_regrouped_image(front, gap, key, colon, decimal(img_w as nat), five, height, a, b, c, d);
        self.lemma_front();
        lemma_field(front + gap, "image_width"@, img_w, five + height + (a + b + c + d));
    }

    /// The JSON form up to the height of the region.
    spec fn json_front(self) -> Seq<char> {
        "{\n  \"x\": "@ + decimal(self.x as nat) + ",\n  \"y\": "@ + decimal(self.y as nat)
            + ",\n  \"width\": "@ + decimal(self.width as nat) + ",\n  \"height\": "@ + decimal(
            self.height as nat,
        )
    }

    /// No name up to there begins with an `i`.
    proof fn lemma_front(self)
        ensures
            quotes_avoid(self.json_front() + seq![',', '\n', ' ', ' '], 'i'),
    {
        let (x, y) = (decimal(self.x as nat), decimal(self.y as nat));
        let (w, h) = (decimal(self.width as nat), decimal(self.height as nat));
        let gap = seq![',', '\n', ' ', ' '];
        let colon = seq![':', ' '];
        lemma_field_names();
        let pre_x = seq!['{', '\n', ' ', ' '];
        assert(quotes_avoid(pre_x, 'i')) by {
            reveal(quotes_avoid);
        }
        let (key_x, key_y) = (quoted("x"@), quoted("y"@));
        let (key_w, key_h) = (quoted("width"@), quoted("height"@));
        lemma_key_before(pre_x, "x"@, self.x as nat, 'i');
        let pre_y = pre_x + key_x + colon + x + gap;
        lemma_key_before(pre_y, "y"@, self.y as nat, 'i');
        let pre_w = pre_y + key_y + colon + y + gap;
        lemma_key_before(pre_w, "width"@, self.width as nat, 'i');
        let pre_h = pre_w + key_w + colon + w + gap;
        assert(forall|i: int| 0 <= i < 6 ==> "height"@[i] != '"') by {
            reveal_strlit("height");
        }
        lemma_key_before(pre_h, "height"@, self.height as nat, 'i');
        lemma_join_fields(pre_x, key_x, colon, x, gap, key_y, y, key_w, w, key_h, h, gap);
    }
}

/// How the names of the fields of the image stand in the text.
proof fn lemma_image_names()
    ensures
        "image_width"@.len() > 0 && "image_width"@[0] == 'i',
        ",\n  \"image_width\": "@ == seq![',', '\n', ' ', ' '] + quoted("image_width"@) + seq![
            ':',
            ' ',
        ],
        ",\n  \"image_height\": "@ == seq![',', '\n', ' ', ' ', '"'] + "image_height\": "@,
{
    reveal_strlit("image_width");
    reveal_strlit(",\n  \"image_width\": ");
    reveal_strlit(",\n  \"image_height\": ");
    reveal_strlit("image_height\": ");
    assert(",\n  \"image_width\": "@ =~= seq![',', '\n', ' ', ' '] + quoted("image_width"@) + seq![
        ':',
        ' ',
    ]);
    assert(",\n  \"image_height\": "@ =~= seq![',', '\n', ' ', ' ', '"'] + "image_height\": "@);
}

/// A text cut open at one of its fields, and at its end.
proof fn lemma_regrouped_image(
    front: Seq<char>,
    gap: Seq<char>,
    key: Seq<char>,
    colon: Seq<char>,
    n: Seq<char>,
    five: Seq<char>,
    height: Seq<char>,
    a: Seq<char>,
    b: Seq<char>,
    c: Seq<char>,
    d: Seq<char>,
)
    ensures
        ({
            let text = front + (gap + key + colon) + n + (five + height) + a + b + c + d;
            &&& text == front + gap + key + colon + n + (five + height + (a + b + c + d))
            &&& ends_with(text, height + a + b + c + d)
        }),
{
    let text = front + (gap + key + colon) + n + (five + height) + a + b + c + d;
    let end = height + a + b + c + d;
    assert(text =~= front + gap + key + colon + n + (five + height + (a + b + c + d)));
    assert(text.skip(text.len() - end.len()) =~= end);
}

proof fn lemma_escape(c: char, rest: Seq<char>)
    ensures
        first_written(escape(c) + rest) == Some((c, escape(c).len())),
        escape(c).len() > 0,
{
    reveal(first_written);
    let s = escape(c) + rest;
    let n = c as nat;
    if n < 32 && escape(c).len() == 6 {
        assert(s[2] == '0' && s[3] == '0');
        assert(s[4] == hex_digit(n / 16) && s[5] == hex_digit(n % 16));
        assert(n / 16 < 2 && n % 16 < 16);
        assert(code_unit(s) == Some(n));
    }
}

proof fn lemma_unescaped_one(c: char, rest: Seq<char>)
    ensures
        unescaped(escape(c) + rest) == (match unescaped(rest) {
            Some(r) => Some(seq![c] + r),
            None => None,
        }),
{
    lemma_escape(c, rest);
    let s = escape(c) + rest;
    assert(s.skip(escape(c).len() as int) =~= rest);
}

proof fn lemma_unescaped_part(s: Seq<char>, rest: Seq<char>)
    ensures
        unescaped(escaped(s) + rest) == (match unescaped(rest) {
            Some(r) => Some(s + r),
            None => None,
        }),
    decreases s.len(),
{
    if s.len() == 0 {
        assert(escaped(s) + rest =~= rest);
        if let Some(r) = unescaped(rest) {
            assert(s + r =~= r);
        }
    } else {
        let (head, c) = (s.drop_last(), s.last());
        let more = escape(c) + rest;
        assert(escaped(s) + rest =~= escaped(head) + more);
        lemma_unescaped_part(head, more);
        lemma_unescaped_one(c, rest);
        if let Some(r) = unescaped(rest) {
            assert(head + (seq![c] + r) =~= s + r);
        }
    }
}

/// The folder stands in the JSON as a string of JSON: without a bare quote or
/// control character, and decoded by the rules of JSON it is the folder again,
/// whatever it is called.
pub proof fn law_folder_is_a_json_string(folder: Seq<char>)
    ensures
        unescaped(escaped(folder)) == Some(folder),
{
    let empty = Seq::<char>::empty();
    lemma_unescaped_part(folder, empty);
    assert(escaped(folder) + empty =~= escaped(folder));
    assert(folder + empty =~= folder);
}

/// A field written after `pre` does not look like a key that starts with `c`.
proof fn lemma_key_before(pre: Seq<char>, key: Seq<char>, n: nat, c: char)
    requires
        quotes_avoid(pre, c),
        key.len() > 0,
        key[0] != c,
        c != ':',
        forall|i: int| 0 <= i < key.len() ==> key[i] != '"',
    ensures
        quotes_avoid(pre + quoted(key) + seq![':', ' '] + decimal(n) + seq![',', '\n', ' ', ' '], c),
{
    let name = quoted(key) + seq![':', ' '];
    assert(quotes_avoid(name, c) && quotes_avoid(seq![',', '\n', ' ', ' '], c)) by {
        reveal(quotes_avoid);
    }
    lemma_avoid_joined(pre, name, c);
    assert(pre + name =~= pre + quoted(key) + seq![':', ' ']);
    lemma_avoid_decimal(n, c);
    lemma_avoid_joined(pre + quoted(key) + seq![':', ' '], decimal(n), c);
    lemma_avoid_joined(
        pre + quoted(key) + seq![':', ' '] + decimal(n),
        seq![',', '\n', ' ', ' '],
        c,
    );
}

proof fn lemma_trim_digits(s: Seq<char>)
    requires
        s.len() > 0,
        is_digit(s[0]),
        is_digit(s.last()),
    ensures
        trim(s) == s,
{
}

proof fn lemma_split_plain(s: Seq<char>, sep: char)
    requires
        forall|i: int| 0 <= i < s.len() ==> s[i] != sep,
    ensures
        split(s, sep) == seq![s],
    decreases s.len(),
{
    if s.len() > 0 {
        lemma_split_plain(s.drop_last(), sep);
        assert(s.drop_last().push(s.last()) =~= s);
        assert(split(s, sep) =~= seq![s]);
    } else {
        assert(s =~= Seq::<char>::empty());
    }
}

proof fn lemma_split_joined(a: Seq<char>, sep: char, b: Seq<char>)
    requires
        forall|i: int| 0 <= i < b.len() ==> b[i] != sep,
    ensures
        split(a.push(sep) + b, sep) == split(a, sep).push(b),
    decreases b.len(),
{
    let s = a.push(sep) + b;
    if b.len() > 0 {
        lemma_split_joined(a, sep, b.drop_last());
        assert(s.drop_last() =~= a.push(sep) + b.drop_last());
        assert(b.drop_last().push(b.last()) =~= b);
        assert(split(s, sep) =~= split(a, sep).push(b));
    } else {
        assert(s =~= a.push(sep));
        assert(s.drop_last() =~= a);
        assert(b =~= Seq::<char>::empty());
    }
}

proof fn lemma_number_of_decimal(n: usize)
    ensures
        number(trim(decimal(n as nat))) == Ok::<usize, NumberError>(n),
        forall|i: int| 0 <= i < decimal(n as nat).len() ==> decimal(n as nat)[i] != ',',
{
    let s = decimal(n as nat);
    lemma_decimal(n as nat);
    assert(is_digit(s[0]) && is_digit(s[s.len() - 1]));
    lemma_trim_digits(s);
    lemma_digit_run_is(s, s.len() as int);
    assert(s.take(s.len() as int) =~= s);
    assert forall|i: int| 0 <= i < s.len() implies s[i] != ',' by {
        assert(is_digit(s[i]));
    }
}

/// Nothing but white space.
pub open spec fn all_space(s: Seq<char>) -> bool {
    forall|i: int| 0 <= i < s.len() ==> is_space(#[trigger] s[i])
}

/// A number with something before and behind it.
pub open spec fn spaced(before: Seq<char>, n: usize, behind: Seq<char>) -> Seq<char> {
    before + decimal(n as nat) + behind
}

proof fn lemma_trim_front(a: Seq<char>, s: Seq<char>)
    requires
        all_space(a),
        s.len() > 0,
        !is_space(s[0]),
    ensures
        trim_start(a + s) == s,
    decreases a.len(),
{
    if a.len() > 0 {
        let rest = a.skip(1);
        assert forall|i: int| 0 <= i < rest.len() implies is_space(#[trigger] rest[i]) by {
            assert(rest[i] == a[i + 1]);
        }
        lemma_trim_front(rest, s);
        assert(is_space(a[0]));
        assert((a + s)[0] == a[0]);
        assert((a + s).skip(1) =~= rest + s);
    } else {
        assert(a + s =~= s);
    }
}

proof fn lemma_trim_back(s: Seq<char>, b: Seq<char>)
    requires
        all_space(b),
        s.len() > 0,
        !is_space(s.last()),
    ensures
        trim_end(s + b) == s,
    decreases b.len(),
{
    if b.len() > 0 {
        let rest = b.drop_last();
        assert forall|i: int| 0 <= i < rest.len() implies is_space(#[trigger] rest[i]) by {
            assert(rest[i] == b[i]);
        }
        lemma_trim_back(s, rest);
        assert(is_space(b[b.len() - 1]));
        assert((s + b).last() == b.last());
        assert((s + b).drop_last() =~= s + rest);
    } else {
        assert(s + b =~= s);
    }
}

/// A number is read whatever white space stands around it.
proof fn lemma_spaced(a: Seq<char>, n: usize, b: Seq<char>)
    requires
        all_space(a),
        all_space(b),
    ensures
        number(trim(spaced(a, n, b))) == Ok::<usize, NumberError>(n),
        forall|i: int| 0 <= i < spaced(a, n, b).len() ==> spaced(a, n, b)[i] != ',',
{
    let d = decimal(n as nat);
    lemma_number_of_decimal(n);
    lemma_decimal(n as nat);
    assert(is_digit(d[0]) && is_digit(d[d.len() - 1]));
    lemma_trim_digits(d);
    assert(spaced(a, n, b) =~= a + (d + b));
    assert((d + b)[0] == d[0]);
    lemma_trim_front(a, d + b);
    lemma_trim_back(d, b);
    let s = spaced(a, n, b);
    assert forall|i: int| 0 <= i < s.len() implies s[i] != ',' by {
        if i < a.len() {
            assert(is_space(a[i]));
        } else if i < a.len() + d.len() {
            assert(s[i] == d[i - a.len()]);
        } else {
            assert(is_space(b[i - a.len() - d.len()]));
        }
    }
}

impl CropRect {
    /// The command-line form of a region: its four numbers, with commas between.
    pub open spec fn arg(self) -> Seq<char> {
        decimal(self.x as nat).push(',') + decimal(self.y as nat) + seq![','] + decimal(
            self.width as nat,
        ) + seq![','] + decimal(self.height as nat)
    }

    /// A region is read back from its command-line form; one without area is
    /// refused.
    pub proof fn law_arg_round_trip(self)
        ensures
            CropRect::of_arg(self.arg()) == (if self.width > 0 && self.height > 0 {
                Ok::<CropRect, Seq<char>>(self)
            } else {
                Err("crop width and height must be > 0 (got '"@ + self.arg() + "')"@)
            }),
    {
        let (x, y) = (decimal(self.x as nat), decimal(self.y as nat));
        let (w, h) = (decimal(self.width as nat), decimal(self.height as nat));
        lemma_number_of_decimal(self.x);
        lemma_number_of_decimal(self.y);
        lemma_number_of_decimal(self.width);
        lemma_number_of_decimal(self.height);
        lemma_split_plain(x, ',');
        lemma_split_joined(x, ',', y);
        let xy = x.push(',') + y;
        lemma_split_joined(xy, ',', w);
        assert(xy + seq![','] + w =~= xy.push(',') + w);
        let xyw = xy + seq![','] + w;
        lemma_split_joined(xyw, ',', h);
        assert(self.arg() =~= xyw.push(',') + h);
        assert(split(self.arg(), ',') =~= seq![x, y, w, h]);
    }

    /// The command-line form of a region with something around each of its numbers:
    /// `around[2 * k]` before number `k` and `around[2 * k + 1]` behind it.
    pub open spec fn arg_with(self, around: Seq<Seq<char>>) -> Seq<char> {
        spaced(around[0], self.x, around[1]).push(',') + spaced(around[2], self.y, around[3])
            + seq![','] + spaced(around[4], self.width, around[5]) + seq![','] + spaced(
            around[6],
            self.height,
            around[7],
        )
    }

    /// White space around the numbers of the command-line form changes nothing: the
    /// same region is read.
    pub proof fn law_arg_ignores_white_space(self, around: Seq<Seq<char>>)
        requires
            around.len() == 8,
            forall|k: int| 0 <= k < 8 ==> all_space(#[trigger] around[k]),
        ensures
            CropRect::of_arg(self.arg_with(around)) == (if self.width > 0 && self.height > 0 {
                Ok::<CropRect, Seq<char>>(self)
            } else {
                Err(
                    "crop width and height must be > 0 (got '"@ + self.arg_with(around) + "')"@,
                )
            }),
    {
        let x = spaced(around[0], self.x, around[1]);
        let y = spaced(around[2], self.y, around[3]);
        let w = spaced(around[4], self.width, around[5]);
        let h = spaced(around[6], self.height, around[7]);
        lemma_spaced(around[0], self.x, around[1]);
        lemma_spaced(around[2], self.y, around[3]);
        lemma_spaced(around[4], self.width, around[5]);
        lemma_spaced(around[6], self.height, around[7]);
        lemma_split_plain(x, ',');
        lemma_split_joined(x, ',', y);
        let xy = x.push(',') + y;
        lemma_split_joined(xy, ',', w);
        assert(xy + seq![','] + w =~= xy.push(',') + w);
        let xyw = xy + seq![','] + w;
        lemma_split_joined(xyw, ',', h);
        assert(self.arg_with(around) =~= xyw.push(',') + h);
        assert(split(self.arg_with(around), ',') =~= seq![x, y, w, h]);
    }

    /// Clamping keeps exactly the pixels of the region that lie on the image.
    pub proof fn law_clamp_is_intersection(self, img_w: usize, img_h: usize, px: int, py: int)
        ensures
            (self.clamped(img_w, img_h) matches Some(c) && c.has(px, py)) <==> (self.has(px, py)
                && px < img_w && py < img_h),
    {
    }

    /// What is left after clamping is not empty and lies on the image; a region
    /// that does so already is not changed, so clamping twice is clamping once.
    pub proof fn law_clamp_fits(self, img_w: usize, img_h: usize)
        ensures
            self.clamped(img_w, img_h) matches Some(c) ==> c.fits(img_w as int, img_h as int)
                && c.clamped(img_w, img_h) == Some(c),
            self.fits(img_w as int, img_h as int) <==> self.clamped(img_w, img_h) == Some(self),
    {
    }

    /// A region on the image survives being turned into a floating rectangle and
    /// back, as long as its corners are numbers that binary32 can hold exactly.
    pub proof fn law_snap_keeps_whole_pixels(self, img_w: usize, img_h: usize)
        requires
            self.fits(img_w as int, img_h as int),
            self.x + self.width <= 0x100_0000,
            self.y + self.height <= 0x100_0000,
        ensures
            self.as_rectf().crop_on(img_w, img_h) == Some(self),
    {
        lemma_exact_pair(self.x as nat, (self.x + self.width) as nat);
        lemma_exact_pair(self.y as nat, (self.y + self.height) as nat);
    }
}

proof fn lemma_exact_pair(a: nat, b: nat)
    requires
        a < b <= 0x100_0000,
    ensures
        ({
            let (p, q) = (Binary32::nearest_to(a), Binary32::nearest_to(b));
            &&& p.spec_min(q) == p
            &&& p.spec_max(q) == q
            &&& Format::Single.round_index(p.raw()) == a
            &&& Format::Single.round_index(q.raw()) == b
        }),
{
    lemma_exact_integers_ordered(Format::Single, a, b);
    lemma_round_of_integer(Format::Single, a);
    lemma_round_of_integer(Format::Single, b);
}

impl RectF {
    /// The crop of a rectangle holds at least one pixel and lies on the image.
    pub proof fn law_crop_fits(self, img_w: usize, img_h: usize)
        ensures
            self.crop_on(img_w, img_h) matches Some(c) ==> c.fits(img_w as int, img_h as int),
    {
    }

    /// The corners may be given in any order.
    pub proof fn law_corner_order(self, img_w: usize, img_h: usize)
        ensures
            (RectF { x0: self.x1, x1: self.x0, ..self }).crop_on(img_w, img_h) == self.crop_on(
                img_w,
                img_h,
            ),
            (RectF { y0: self.y1, y1: self.y0, ..self }).crop_on(img_w, img_h) == self.crop_on(
                img_w,
                img_h,
            ),
    {
        lemma_edge_order(self.x0, self.x1, img_w);
        lemma_edge_order(self.y0, self.y1, img_h);
    }

    /// Normalizing does not change the crop, and normalizing twice is
    /// normalizing once.
    pub proof fn law_normalized(self, img_w: usize, img_h: usize)
        ensures
            self.ordered().ordered() == self.ordered(),
            self.ordered().crop_on(img_w, img_h) == self.crop_on(img_w, img_h),
    {
    }
}

proof fn lemma_edge_order(a: Binary32, b: Binary32, n: usize)
    ensures
        pixel_edge(a.spec_min(b), n) == pixel_edge(b.spec_min(a), n),
        pixel_edge(a.spec_max(b), n) == pixel_edge(b.spec_max(a), n),
{
    let f = Format::Single;
    if !f.is_nan(a.raw()) && !f.is_nan(b.raw()) && f.rank(a.raw()) == f.rank(b.raw())
        && a.raw() != b.raw() {
        // The two zeros.
        lemma_round_of_integer(f, 0);
        lemma_exact_integer(f, 0);
        lemma_units_of_zero(f);
        if f.from_nat(0) > 0 {
            lemma_units_increase(f, 0, f.from_nat(0));
        }
    }
}

// ----- rectangles with whole coordinates ---------------------------------------------------

/// The rectangle with the given whole coordinates.
pub open spec fn whole_rect(x0: int, y0: int, x1: int, y1: int) -> RectF {
    RectF { x0: whole(x0), y0: whole(y0), x1: whole(x1), y1: whole(y1) }
}

/// `p` lies between `a` and `b`, whichever is the smaller one, or is one of them.
pub open spec fn lies_between(a: int, p: int, b: int) -> bool {
    a <= p <= b || b <= p <= a
}

impl RectF {
    /// A rectangle covers the points between its corners, in whatever order they are,
    /// and no others.
    pub proof fn law_covers_what_lies_between(
        x0: int,
        y0: int,
        x1: int,
        y1: int,
        px: int,
        py: int,
    )
        requires
            is_small(x0),
            is_small(y0),
            is_small(x1),
            is_small(y1),
            is_small(px),
            is_small(py),
        ensures
            whole_rect(x0, y0, x1, y1).covers(whole(px), whole(py)) <==> lies_between(x0, px, x1)
                && lies_between(y0, py, y1),
    {
        lemma_between(x0, px, x1);
        lemma_between(y0, py, y1);
    }

    /// Moving a rectangle moves all of its corners by the same way, and moving it back
    /// brings it back.
    pub proof fn law_moving_keeps_the_shape(
        x0: int,
        y0: int,
        x1: int,
        y1: int,
        dx: int,
        dy: int,
    )
        requires
            is_small(x0) && is_small(x0 + dx),
            is_small(y0) && is_small(y0 + dy),
            is_small(x1) && is_small(x1 + dx),
            is_small(y1) && is_small(y1 + dy),
            is_small(dx),
            is_small(dy),
        ensures
            whole_rect(x0, y0, x1, y1).moved(whole(dx), whole(dy)) == whole_rect(
                x0 + dx,
                y0 + dy,
                x1 + dx,
                y1 + dy,
            ),
            whole_rect(x0, y0, x1, y1).moved(whole(dx), whole(dy)).moved(whole(-dx), whole(-dy))
                == whole_rect(x0, y0, x1, y1),
    {
        lemma_whole_sum(x0, dx);
        lemma_whole_sum(y0, dy);
        lemma_whole_sum(x1, dx);
        lemma_whole_sum(y1, dy);
        lemma_whole_sum(x0 + dx, -dx);
        lemma_whole_sum(y0 + dy, -dy);
        lemma_whole_sum(x1 + dx, -dx);
        lemma_whole_sum(y1 + dy, -dy);
    }

    /// Rectangles are equal exactly when all of their coordinates are.
    pub proof fn law_equal_rectangles_have_equal_corners(
        a: (int, int, int, int),
        b: (int, int, int, int),
    )
        requires
            is_small(a.0) && is_small(a.1) && is_small(a.2) && is_small(a.3),
            is_small(b.0) && is_small(b.1) && is_small(b.2) && is_small(b.3),
        ensures
            whole_rect(a.0, a.1, a.2, a.3).equals(whole_rect(b.0, b.1, b.2, b.3)) <==> a == b,
    {
        lemma_equal(a.0, b.0);
        lemma_equal(a.1, b.1);
        lemma_equal(a.2, b.2);
        lemma_equal(a.3, b.3);
    }

    /// The crop of a rectangle has its edges at the pixel edges that are nearest to the
    /// corners, held inside the image.
    pub proof fn law_edges_are_nearest(self, img_w: usize, img_h: usize)
        requires
            self.crop_on(img_w, img_h) is Some,
        ensures
            ({
                let c = self.crop_on(img_w, img_h)->0;
                let r = self.ordered();
                &&& is_nearest_edge(r.x0, c.x as nat, img_w)
                &&& is_nearest_edge(r.y0, c.y as nat, img_h)
                &&& is_nearest_edge(r.x1, (c.x + c.width) as nat, img_w)
                &&& is_nearest_edge(r.y1, (c.y + c.height) as nat, img_h)
            }),
    {
        let r = self.ordered();
        lemma_nearest_edge(r.x0, img_w);
        lemma_nearest_edge(r.y0, img_h);
        lemma_nearest_edge(r.x1, img_w);
        lemma_nearest_edge(r.y1, img_h);
    }
}

/// Edge `k` of an image of size `n` is the nearest one to a coordinate: it is not more
/// than half a pixel away, or the coordinate lies outside the image on that side.
pub open spec fn is_nearest_edge(c: Binary32, k: nat, n: usize) -> bool {
    let (f, p) = (Format::Single, pow2(149));
    &&& k <= n
    &&& c.finite() ==> {
        &&& k > 0 ==> 2 * (k * p) <= 2 * f.value(c.raw()) + p
        &&& k < n ==> 2 * f.value(c.raw()) <= 2 * (k * p) + p
    }
}

proof fn lemma_nearest_edge(c: Binary32, n: usize)
    ensures
        is_nearest_edge(c, pixel_edge(c, n) as nat, n),
{
    let (f, p) = (Format::Single, pow2(149));
    vstd::arithmetic::power2::lemma_pow2_pos(149);
    vstd::arithmetic::power2::lemma_pow2_unfold(150);
    if c.finite() && !f.negative(c.raw()) {
        let u = f.units(c.raw());
        let q = (2 * u + p) / (2 * p);
        vstd::arithmetic::div_mod::lemma_fundamental_div_mod((2 * u + p) as int, (2 * p) as int);
        assert((2 * p) * q == 2 * (q * p)) by (nonlinear_arith);
        if n <= q {
            assert(n * p <= q * p) by (nonlinear_arith)
                requires
                    n <= q,
            ;
        }
    } else {
        assert(0 * p == 0);
    }
}

proof fn lemma_between(a: int, q: int, b: int)
    requires
        is_small(a),
        is_small(q),
        is_small(b),
    ensures
        RectF::between(whole(a).spec_min(whole(b)), whole(q), whole(a).spec_max(whole(b)))
            <==> lies_between(a, q, b),
{
    lemma_whole(a);
    lemma_whole(b);
    lemma_whole(q);
    lemma_whole_order(a, b);
    lemma_whole_order(b, a);
    lemma_whole_order(a, q);
    lemma_whole_order(q, a);
    lemma_whole_order(b, q);
    lemma_whole_order(q, b);
}

proof fn lemma_equal(m: int, n: int)
    requires
        is_small(m),
        is_small(n),
    ensures
        whole(m).equals(whole(n)) <==> m == n,
{
    lemma_whole(m);
    lemma_whole(n);
    lemma_whole_order(m, n);
    lemma_whole_order(n, m);
}

} // verus!
