//! The directories of a TIFF file, read as far as is needed to know that the strips
//! or tiles of a page can be counted and held, and whether it holds JPEG data.
//!
//! A file begins with its byte order, its version and the place of the first
//! directory. A directory is a list of entries, each with a tag, a type, a number of
//! values and the value or its place, and ends with the place of the next directory.
use crate::bytes::{bytes_in, law_written_number_is_read, number_at, read_number};
use vstd::arithmetic::power2::pow2;
use vstd::prelude::*;

verus! {

pub const IMAGE_WIDTH: u64 = 256;

pub const IMAGE_LENGTH: u64 = 257;

pub const COMPRESSION: u64 = 259;

pub const STRIP_OFFSETS: u64 = 273;

pub const SAMPLES_PER_PIXEL: u64 = 277;

pub const ROWS_PER_STRIP: u64 = 278;

pub const STRIP_BYTE_COUNTS: u64 = 279;

pub const PLANAR_CONFIGURATION: u64 = 284;

pub const TILE_WIDTH: u64 = 322;

pub const TILE_LENGTH: u64 = 323;

pub const TILE_OFFSETS: u64 = 324;

pub const TILE_BYTE_COUNTS: u64 = 325;

/// How numbers stand in a file: whether places and counts have eight bytes, as in
/// BigTIFF, and which byte of a number comes first.
#[derive(Clone, Copy, PartialEq, Eq, Structural, Debug)]
pub struct Kind {
    pub big_tiff: bool,
    pub big_endian: bool,
}

/// A directory: where its entries start, how many there are, and where the next
/// directory is, or 0.
pub struct Entries {
    pub start: int,
    pub count: nat,
    pub next: nat,
}

/// How many samples a row of a strip or tile may have: as many as an image may have
/// bytes where it is decoded.
pub const LONGEST_ROW: u64 = 0x1000_0000;

/// The type of a value is one that TIFF has.
pub open spec fn known_type(t: nat) -> bool {
    1 <= t <= 13 || 16 <= t <= 18
}

/// How many pieces of a given size cover a length.
pub open spec fn pieces(length: nat, size: nat) -> nat {
    if length == 0 || size == 0 {
        0
    } else {
        ((length - 1) as nat) / size + 1
    }
}

impl Kind {
    pub open spec fn number(self, bytes: Seq<u8>, at: int, size: int) -> nat {
        number_at(bytes, at, size, self.big_endian)
    }

    /// The size of a place, and of the number of values of an entry.
    pub open spec fn place_size(self) -> int {
        if self.big_tiff {
            8
        } else {
            4
        }
    }

    /// The size of an entry. One of an unknown type is passed over as a short one.
    pub open spec fn entry_size(self, bytes: Seq<u8>, at: int) -> int {
        if self.big_tiff && known_type(self.number(bytes, at + 2, 2)) {
            20
        } else {
            12
        }
    }

    /// Where `n` entries from `at` on end; `None` when the file ends before.
    pub open spec fn entries_end(self, bytes: Seq<u8>, at: int, n: nat) -> Option<int>
        decreases n,
    {
        if n == 0 {
            Some(at)
        } else if at + 4 > bytes.len() || at + self.entry_size(bytes, at) > bytes.len() {
            None
        } else {
            self.entries_end(bytes, at + self.entry_size(bytes, at), (n - 1) as nat)
        }
    }

    /// The last of `n` entries from `at` on that has the tag, and a known type.
    pub open spec fn last_entry(self, bytes: Seq<u8>, at: int, n: nat, tag: nat) -> Option<int>
        decreases n,
    {
        if n == 0 {
            None
        } else {
            match self.last_entry(bytes, at + self.entry_size(bytes, at), (n - 1) as nat, tag) {
                Some(p) => Some(p),
                None => if known_type(self.number(bytes, at + 2, 2)) && self.number(bytes, at, 2)
                    == tag {
                    Some(at)
                } else {
                    None
                },
            }
        }
    }

    /// The directory at a place; `None` when the file ends before it.
    pub open spec fn entries(self, bytes: Seq<u8>, at: nat) -> Option<Entries> {
        let size = if self.big_tiff {
            8int
        } else {
            2int
        };
        if at + size > bytes.len() {
            None
        } else {
            let count = self.number(bytes, at as int, size);
            match self.entries_end(bytes, at + size, count) {
                Some(end) if end + self.place_size() <= bytes.len() => Some(
                    Entries {
                        start: at + size,
                        count,
                        next: self.number(bytes, end, self.place_size()),
                    },
                ),
                _ => None,
            }
        }
    }

    /// The value of an entry that has a single one, a natural number: in a byte, in
    /// two, four or eight. Eight bytes stand elsewhere where there is no room.
    pub open spec fn scalar(self, bytes: Seq<u8>, at: int) -> Option<nat> {
        let t = self.number(bytes, at + 2, 2);
        let v = at + 4 + self.place_size();
        if self.number(bytes, at + 4, self.place_size()) != 1 {
            None
        } else if t == 1 || t == 7 {
            Some(self.number(bytes, v, 1))
        } else if t == 3 {
            Some(self.number(bytes, v, 2))
        } else if t == 4 || t == 13 {
            Some(self.number(bytes, v, 4))
        } else if t == 16 || t == 18 {
            if self.big_tiff {
                Some(self.number(bytes, v, 8))
            } else if self.number(bytes, v, 4) + 8 <= bytes.len() {
                Some(self.number(bytes, self.number(bytes, v, 4) as int, 8))
            } else {
                None
            }
        } else {
            None
        }
    }

    /// The directory has an entry with the tag.
    pub open spec fn has(self, bytes: Seq<u8>, d: Entries, tag: u64) -> bool {
        self.last_entry(bytes, d.start, d.count, tag as nat) is Some
    }

    /// The value of the entry with the tag, if it is no larger than `max`.
    pub open spec fn value(self, bytes: Seq<u8>, d: Entries, tag: u64, max: nat) -> Option<nat> {
        match self.last_entry(bytes, d.start, d.count, tag as nat) {
            Some(p) => match self.scalar(bytes, p) {
                Some(v) if v <= max => Some(v),
                _ => None,
            },
            None => None,
        }
    }

    /// How many planes the pixels of a page are divided into: one for each sample,
    /// or one for all of them.
    pub open spec fn planes(self, bytes: Seq<u8>, d: Entries) -> nat {
        match (
            self.value(bytes, d, PLANAR_CONFIGURATION, 0xffff),
            self.value(bytes, d, SAMPLES_PER_PIXEL, 0xffff),
        ) {
            (Some(p), Some(n)) if p == 2 => n,
            _ => 1,
        }
    }

    /// How many samples of a pixel stand together.
    pub open spec fn together(self, bytes: Seq<u8>, d: Entries) -> nat {
        match (
            self.value(bytes, d, PLANAR_CONFIGURATION, 0xffff),
            self.value(bytes, d, SAMPLES_PER_PIXEL, 0xffff),
        ) {
            (Some(p), Some(_)) if p == 2 => 1,
            (_, Some(n)) => n,
            _ => 1,
        }
    }

    /// A row of the strips or tiles of a page, of samples of up to eight bytes, can be
    /// held. `tag` is that of their width.
    pub open spec fn row_fits(self, bytes: Seq<u8>, d: Entries, tag: u64) -> bool {
        match self.value(bytes, d, tag, 0xffff_ffff) {
            Some(w) => w * self.together(bytes, d) <= LONGEST_ROW && 8 * (w * self.together(
                bytes,
                d,
            )) <= isize::MAX,
            None => true,
        }
    }

    /// The samples of a page are compressed as JPEG data.
    pub open spec fn holds_jpeg(self, bytes: Seq<u8>, d: Entries) -> bool {
        match self.value(bytes, d, COMPRESSION, 0xffff) {
            Some(c) => c == 7,
            None => false,
        }
    }

    /// The strips of a page are not more than fit in a `u32`, or its tiles not more
    /// than fit in a `usize`, and a row of them can be held.
    pub open spec fn chunks_fit(self, bytes: Seq<u8>, d: Entries) -> bool {
        let planes = self.planes(bytes, d);
        let height = self.value(bytes, d, IMAGE_LENGTH, 0xffff_ffff);
        let strips = self.has(bytes, d, STRIP_OFFSETS) && self.has(bytes, d, STRIP_BYTE_COUNTS);
        let tiles = self.has(bytes, d, TILE_OFFSETS) && self.has(bytes, d, TILE_BYTE_COUNTS);
        let rows = if self.has(bytes, d, ROWS_PER_STRIP) {
            self.value(bytes, d, ROWS_PER_STRIP, 0xffff_ffff)
        } else {
            height
        };
        &&& strips ==> self.row_fits(bytes, d, IMAGE_WIDTH)
        &&& tiles ==> self.row_fits(bytes, d, TILE_WIDTH)
        &&& strips ==> match (height, rows) {
            (Some(h), Some(r)) => pieces(h, r) * planes <= u32::MAX,
            _ => true,
        }
        &&& tiles ==> match (
            height,
            self.value(bytes, d, TILE_LENGTH, 0xffff_ffff),
            self.value(bytes, d, IMAGE_WIDTH, 0xffff_ffff),
            self.value(bytes, d, TILE_WIDTH, 0xffff_ffff),
        ) {
            (Some(h), Some(r), Some(w), Some(c)) => pieces(h, r) * pieces(w, c) * planes
                <= usize::MAX,
            _ => true,
        }
    }
}

/// How numbers stand in a file, and where its first directory is.
pub open spec fn file_head(bytes: Seq<u8>) -> Option<(Kind, nat)> {
    if bytes.len() < 8 || bytes[0] != bytes[1] || (bytes[0] != 73 && bytes[0] != 77) {
        None
    } else {
        let big_endian = bytes[0] == 77;
        let version = number_at(bytes, 2, 2, big_endian);
        if version == 42 {
            Some((Kind { big_tiff: false, big_endian }, number_at(bytes, 4, 4, big_endian)))
        } else if version == 43 && bytes.len() >= 16 && number_at(bytes, 4, 2, big_endian) == 8
            && number_at(bytes, 6, 2, big_endian) == 0 {
            Some((Kind { big_tiff: true, big_endian }, number_at(bytes, 8, 8, big_endian)))
        } else {
            None
        }
    }
}

/// Where the directory of page `index` is.
pub open spec fn page_place(bytes: Seq<u8>, index: nat) -> Option<(Kind, nat)>
    decreases index,
{
    if index == 0 {
        file_head(bytes)
    } else {
        match page_place(bytes, (index - 1) as nat) {
            Some((k, at)) => match k.entries(bytes, at) {
                Some(d) if d.next > 0 => Some((k, d.next)),
                _ => None,
            },
            None => None,
        }
    }
}

/// The strips or tiles of page `index` can be counted and held, if there is such a
/// page.
pub open spec fn countable(bytes: Seq<u8>, index: nat) -> bool {
    match page_place(bytes, index) {
        Some((k, at)) => match k.entries(bytes, at) {
            Some(d) => k.chunks_fit(bytes, d),
            None => true,
        },
        None => true,
    }
}

/// There is a page `index`, and its samples are compressed as JPEG data.
pub open spec fn is_jpeg(bytes: Seq<u8>, index: nat) -> bool {
    match page_place(bytes, index) {
        Some((k, at)) => match k.entries(bytes, at) {
            Some(d) => k.holds_jpeg(bytes, d),
            None => false,
        },
        None => false,
    }
}

// ----- reading -------------------------------------------------------------------------

/// A directory that was found.
struct Found {
    start: usize,
    count: u64,
    next: u64,
}

impl Found {
    spec fn matches(self, d: Entries) -> bool {
        self.start == d.start && self.count == d.count && self.next == d.next
    }
}

fn test_known(t: u64) -> (r: bool)
    ensures
        r == known_type(t as nat),
{
    (1 <= t && t <= 13) || (16 <= t && t <= 18)
}

fn count_pieces(length: u64, size: u64) -> (r: u64)
    requires
        length <= 0xffff_ffff,
    ensures
        r == pieces(length as nat, size as nat),
        r <= 0xffff_ffff,
{
    if length == 0 || size == 0 {
        0
    } else {
        proof {
            vstd::arithmetic::div_mod::lemma_div_is_ordered_by_denominator(
                length - 1,
                1,
                size as int,
            );
        }
        (length - 1) / size + 1
    }
}

impl Kind {
    fn read(self, bytes: &[u8], at: usize, size: usize) -> (n: u64)
        requires
            at + size <= bytes@.len(),
            size <= 8,
        ensures
            n == self.number(bytes@, at as int, size as int),
    {
        read_number(bytes, at, size, self.big_endian)
    }

    fn size_of_entry(self, bytes: &[u8], at: usize) -> (n: usize)
        requires
            at + 4 <= bytes@.len(),
        ensures
            n == self.entry_size(bytes@, at as int),
    {
        let len: usize = bytes.len();
        assert(at + 4 <= len);
        if self.big_tiff && test_known(self.read(bytes, at + 2, 2)) {
            20
        } else {
            12
        }
    }

    fn size_of_place(self) -> (n: usize)
        ensures
            n == self.place_size(),
    {
        if self.big_tiff {
            8
        } else {
            4
        }
    }

    /// Where entries end.
    fn find_end(self, bytes: &[u8], start: usize, count: u64) -> (r: Option<usize>)
        requires
            start <= bytes@.len(),
        ensures
            match (r, self.entries_end(bytes@, start as int, count as nat)) {
                (Some(a), Some(b)) => a == b && a <= bytes@.len(),
                (None, None) => true,
                _ => false,
            },
    {
        let len: usize = bytes.len();
        let mut at: usize = start;
        let mut left: u64 = count;
        while left > 0
            invariant
                at <= len,
                len == bytes@.len(),
                self.entries_end(bytes@, at as int, left as nat) == self.entries_end(
                    bytes@,
                    start as int,
                    count as nat,
                ),
            decreases left,
        {
            if len - at < 4 {
                return None;
            }
            let size: usize = self.size_of_entry(bytes, at);
            if len - at < size {
                return None;
            }
            at = at + size;
            left = left - 1;
        }
        Some(at)
    }

    /// The directory at a place.
    fn find_directory(self, bytes: &[u8], at: u64) -> (r: Option<Found>)
        ensures
            match (r, self.entries(bytes@, at as nat)) {
                (Some(f), Some(d)) => f.matches(d) && self.entries_end(bytes@, d.start, d.count)
                    is Some,
                (None, None) => true,
                _ => false,
            },
    {
        let len: usize = bytes.len();
        let size: usize = if self.big_tiff {
            8
        } else {
            2
        };
        if at > len as u64 || len - (at as usize) < size {
            return None;
        }
        let count: u64 = self.read(bytes, at as usize, size);
        let start: usize = at as usize + size;
        match self.find_end(bytes, start, count) {
            Some(end) if len - end >= self.size_of_place() => {
                let next: u64 = self.read(bytes, end, self.size_of_place());
                Some(Found { start, count, next })
            },
            _ => None,
        }
    }

    /// The last entry with a tag.
    fn find_entry(self, bytes: &[u8], f: &Found, tag: u64) -> (r: Option<usize>)
        requires
            self.entries_end(bytes@, f.start as int, f.count as nat) is Some,
        ensures
            match (r, self.last_entry(bytes@, f.start as int, f.count as nat, tag as nat)) {
                (Some(a), Some(b)) => a == b && known_type(self.number(bytes@, a + 2, 2)) && a
                    + self.entry_size(bytes@, a as int) <= bytes@.len(),
                (None, None) => true,
                _ => false,
            },
    {
        let len: usize = bytes.len();
        let mut at: usize = f.start;
        let mut left: u64 = f.count;
        let mut found: Option<usize> = None;
        while left > 0
            invariant
                len == bytes@.len(),
                self.entries_end(bytes@, at as int, left as nat) is Some,
                self.last_entry(bytes@, f.start as int, f.count as nat, tag as nat) == (
                match self.last_entry(bytes@, at as int, left as nat, tag as nat) {
                    Some(p) => Some(p),
                    None => match found {
                        Some(q) => Some(q as int),
                        None => None,
                    },
                }),
                found matches Some(q) ==> known_type(self.number(bytes@, q + 2, 2)) && q
                    + self.entry_size(bytes@, q as int) <= len,
            decreases left,
        {
            let size: usize = self.size_of_entry(bytes, at);
            if test_known(self.read(bytes, at + 2, 2)) && self.read(bytes, at, 2) == tag {
                found = Some(at);
            }
            at = at + size;
            left = left - 1;
        }
        found
    }

    /// The value of an entry.
    fn read_scalar(self, bytes: &[u8], at: usize) -> (r: Option<u64>)
        requires
            known_type(self.number(bytes@, at + 2, 2)),
            at + self.entry_size(bytes@, at as int) <= bytes@.len(),
        ensures
            match (r, self.scalar(bytes@, at as int)) {
                (Some(a), Some(b)) => a == b,
                (None, None) => true,
                _ => false,
            },
    {
        let len: usize = bytes.len();
        let t: u64 = self.read(bytes, at + 2, 2);
        let v: usize = at + 4 + self.size_of_place();
        if self.read(bytes, at + 4, self.size_of_place()) != 1 {
            None
        } else if t == 1 || t == 7 {
            Some(self.read(bytes, v, 1))
        } else if t == 3 {
            Some(self.read(bytes, v, 2))
        } else if t == 4 || t == 13 {
            Some(self.read(bytes, v, 4))
        } else if t == 16 || t == 18 {
            if self.big_tiff {
                return Some(self.read(bytes, v, 8));
            }
            let place: u64 = self.read(bytes, v, 4);
            if place > len as u64 || len - (place as usize) < 8 {
                return None;
            }
            Some(self.read(bytes, place as usize, 8))
        } else {
            None
        }
    }

    fn test_has(self, bytes: &[u8], f: &Found, tag: u64, Ghost(d): Ghost<Entries>) -> (r: bool)
        requires
            f.matches(d),
            self.entries_end(bytes@, d.start, d.count) is Some,
        ensures
            r == self.has(bytes@, d, tag),
    {
        self.find_entry(bytes, f, tag).is_some()
    }

    fn find_value(self, bytes: &[u8], f: &Found, tag: u64, max: u64, Ghost(d): Ghost<Entries>) -> (r:
        Option<u64>)
        requires
            f.matches(d),
            self.entries_end(bytes@, d.start, d.count) is Some,
        ensures
            match (r, self.value(bytes@, d, tag, max as nat)) {
                (Some(a), Some(b)) => a == b && a <= max,
                (None, None) => true,
                _ => false,
            },
    {
        match self.find_entry(bytes, f, tag) {
            Some(at) => match self.read_scalar(bytes, at) {
                Some(v) if v <= max => Some(v),
                _ => None,
            },
            None => None,
        }
    }

    fn test_row(
        self,
        bytes: &[u8],
        f: &Found,
        tag: u64,
        together: u64,
        Ghost(d): Ghost<Entries>,
    ) -> (r: bool)
        requires
            f.matches(d),
            self.entries_end(bytes@, d.start, d.count) is Some,
            together == self.together(bytes@, d),
            together <= 0xffff,
        ensures
            r == self.row_fits(bytes@, d, tag),
    {
        match self.find_value(bytes, f, tag, 0xffff_ffff, Ghost(d)) {
            Some(w) => {
                proof {
                    assert(w * together <= 0xffff_ffff * 0xffff) by (nonlinear_arith)
                        requires
                            w <= 0xffff_ffff,
                            together <= 0xffff,
                    ;
                }
                let row: u64 = w * together;
                row <= LONGEST_ROW && 8 * row <= isize::MAX as u64
            },
            None => true,
        }
    }

    /// Whether the strips or tiles of a page can be counted and held.
    fn test_chunks(self, bytes: &[u8], f: &Found, Ghost(d): Ghost<Entries>) -> (r: bool)
        requires
            f.matches(d),
            self.entries_end(bytes@, d.start, d.count) is Some,
        ensures
            r == self.chunks_fit(bytes@, d),
    {
        let planar: Option<u64> = self.find_value(bytes, f, PLANAR_CONFIGURATION, 0xffff, Ghost(d));
        let samples: Option<u64> = self.find_value(bytes, f, SAMPLES_PER_PIXEL, 0xffff, Ghost(d));
        let planes: u64 = match (planar, samples) {
            (Some(2), Some(n)) => n,
            _ => 1,
        };
        let together: u64 = match (planar, samples) {
            (Some(2), Some(_)) => 1,
            (_, Some(n)) => n,
            _ => 1,
        };
        let height: Option<u64> = self.find_value(bytes, f, IMAGE_LENGTH, 0xffff_ffff, Ghost(d));
        if self.test_has(bytes, f, STRIP_OFFSETS, Ghost(d)) && self.test_has(
            bytes,
            f,
            STRIP_BYTE_COUNTS,
            Ghost(d),
        ) {
            if !self.test_row(bytes, f, IMAGE_WIDTH, together, Ghost(d)) {
                return false;
            }
            let rows: Option<u64> = if self.test_has(bytes, f, ROWS_PER_STRIP, Ghost(d)) {
                self.find_value(bytes, f, ROWS_PER_STRIP, 0xffff_ffff, Ghost(d))
            } else {
                height
            };
            if let (Some(h), Some(r)) = (height, rows) {
                let strips: u64 = count_pieces(h, r);
                proof {
                    assert(strips * planes <= 0xffff_ffff * 0xffff) by (nonlinear_arith)
                        requires
                            strips <= 0xffff_ffff,
                            planes <= 0xffff,
                    ;
                }
                if strips * planes > u32::MAX as u64 {
                    return false;
                }
            }
        }
        if self.test_has(bytes, f, TILE_OFFSETS, Ghost(d)) && self.test_has(
            bytes,
            f,
            TILE_BYTE_COUNTS,
            Ghost(d),
        ) {
            if !self.test_row(bytes, f, TILE_WIDTH, together, Ghost(d)) {
                return false;
            }
            let length: Option<u64> = self.find_value(bytes, f, TILE_LENGTH, 0xffff_ffff, Ghost(d));
            let width: Option<u64> = self.find_value(bytes, f, IMAGE_WIDTH, 0xffff_ffff, Ghost(d));
            let cols: Option<u64> = self.find_value(bytes, f, TILE_WIDTH, 0xffff_ffff, Ghost(d));
            if let (Some(h), Some(r), Some(w), Some(c)) = (height, length, width, cols) {
                let (down, across): (u64, u64) = (count_pieces(h, r), count_pieces(w, c));
                proof {
                    assert(down * across <= 0xffff_ffff * 0xffff_ffff) by (nonlinear_arith)
                        requires
                            down <= 0xffff_ffff,
                            across <= 0xffff_ffff,
                    ;
                    assert(down * across * planes <= 0xffff_ffff * 0xffff_ffff * 0xffff)
                        by (nonlinear_arith)
                        requires
                            0 <= down * across <= 0xffff_ffff * 0xffff_ffff,
                            planes <= 0xffff,
                    ;
                }
                if down as u128 * across as u128 * planes as u128 > usize::MAX as u128 {
                    return false;
                }
            }
        }
        true
    }
}

/// Where the directory of a page is, while the pages of a file are walked through.
#[derive(Clone, Copy, PartialEq, Eq, Structural, Debug)]
pub struct Place {
    pub kind: Kind,
    pub at: u64,
}

/// The place, by its parts.
pub open spec fn placed(p: Option<Place>) -> Option<(Kind, nat)> {
    match p {
        Some(p) => Some((p.kind, p.at as nat)),
        None => None,
    }
}

/// The place of the first page.
pub fn first_place(bytes: &[u8]) -> (r: Option<Place>)
    ensures
        placed(r) == page_place(bytes@, 0),
{
    let len: usize = bytes.len();
    if len < 8 || bytes[0] != bytes[1] || (bytes[0] != 73 && bytes[0] != 77) {
        return None;
    }
    let big_endian: bool = bytes[0] == 77;
    let version: u64 = read_number(bytes, 2, 2, big_endian);
    if version == 42 {
        let at: u64 = read_number(bytes, 4, 4, big_endian);
        Some(Place { kind: Kind { big_tiff: false, big_endian }, at })
    } else if version == 43 && len >= 16 && read_number(bytes, 4, 2, big_endian) == 8
        && read_number(bytes, 6, 2, big_endian) == 0 {
        let at: u64 = read_number(bytes, 8, 8, big_endian);
        Some(Place { kind: Kind { big_tiff: true, big_endian }, at })
    } else {
        None
    }
}

/// What was found of a page: whether its strips or tiles can be counted and held,
/// whether it holds JPEG data, and the place of the next page.
#[derive(Clone, Copy, PartialEq, Eq, Structural, Debug)]
pub struct Visit {
    pub countable: bool,
    pub jpeg: bool,
    pub next: Option<Place>,
}

/// Look at the directory of page `index`.
pub fn visit(bytes: &[u8], place: Option<Place>, index: usize) -> (r: Visit)
    requires
        placed(place) == page_place(bytes@, index as nat),
    ensures
        r.countable == countable(bytes@, index as nat),
        r.jpeg == is_jpeg(bytes@, index as nat),
        placed(r.next) == page_place(bytes@, (index + 1) as nat),
{
    match place {
        None => Visit { countable: true, jpeg: false, next: None },
        Some(p) => match p.kind.find_directory(bytes, p.at) {
            None => Visit { countable: true, jpeg: false, next: None },
            Some(f) => {
                let ghost d = p.kind.entries(bytes@, p.at as nat)->0;
                let countable: bool = p.kind.test_chunks(bytes, &f, Ghost(d));
                let jpeg: bool = match p.kind.find_value(bytes, &f, COMPRESSION, 0xffff, Ghost(d)) {
                    Some(c) => c == 7,
                    None => false,
                };
                let next: Option<Place> = if f.next > 0 {
                    Some(Place { kind: p.kind, at: f.next })
                } else {
                    None
                };
                Visit { countable, jpeg, next }
            },
        },
    }
}

// ----- laws ----------------------------------------------------------------------------

/// Pieces of a size cover a length, and one piece less does not.
pub proof fn law_pieces_cover_the_length(length: nat, size: nat)
    requires
        length > 0,
        size > 0,
    ensures
        pieces(length, size) * size >= length,
        (pieces(length, size) - 1) * size < length,
{
    let n = (length - 1) as nat;
    let (q, r) = (n / size, n % size);
    vstd::arithmetic::div_mod::lemma_fundamental_div_mod(n as int, size as int);
    assert(size * q == q * size && (q + 1) * size == q * size + size) by (nonlinear_arith);
}

/// An entry with a single value, as it is written: its tag, its type, one, and the value
/// in as many bytes as the type has.
pub open spec fn entry_of(k: Kind, tag: nat, t: nat, v: nat, size: nat) -> Seq<u8> {
    bytes_in(tag, 2, k.big_endian) + bytes_in(t, 2, k.big_endian) + bytes_in(
        1,
        k.place_size() as nat,
        k.big_endian,
    ) + bytes_in(v, size, k.big_endian)
}

/// The value of an entry is the one that was written, in a byte, in two, four or, where
/// there is room for them, eight, and in either byte order, wherever the entry stands.
/// The entry has the tag that was written.
pub proof fn law_written_value_is_read(
    k: Kind,
    before: Seq<u8>,
    tag: nat,
    t: nat,
    v: nat,
    size: nat,
    behind: Seq<u8>,
)
    requires
        tag < 0x1_0000,
        (t == 1 || t == 7) && size == 1 || t == 3 && size == 2 || (t == 4 || t == 13) && size == 4
            || (t == 16 || t == 18) && size == 8 && k.big_tiff,
        v < pow2(8 * size),
    ensures
        ({
            let bytes = before + entry_of(k, tag, t, v, size) + behind;
            let at = before.len() as int;
            &&& k.scalar(bytes, at) == Some(v)
            &&& k.last_entry(bytes, at, 1, tag) == Some(at)
            &&& forall|other: nat|
                other != tag ==> #[trigger] k.last_entry(bytes, at, 1, other) is None
            &&& known_type(t)
        }),
{
    let bytes = before + entry_of(k, tag, t, v, size) + behind;
    let at = before.len() as int;
    lemma_entry(k, before, tag, t, v, size, behind);
    reveal_with_fuel(Kind::last_entry, 2);
    assert(k.last_entry(bytes, at, 1, tag) == Some(at));
}

/// The numbers of an entry stand at their places.
proof fn lemma_entry(
    k: Kind,
    before: Seq<u8>,
    tag: nat,
    t: nat,
    v: nat,
    size: nat,
    behind: Seq<u8>,
)
    requires
        tag < 0x1_0000,
        t < 0x1_0000,
        v < pow2(8 * size),
    ensures
        ({
            let bytes = before + entry_of(k, tag, t, v, size) + behind;
            let at = before.len() as int;
            &&& k.number(bytes, at, 2) == tag
            &&& k.number(bytes, at + 2, 2) == t
            &&& k.number(bytes, at + 4, k.place_size()) == 1
            &&& k.number(bytes, at + 4 + k.place_size(), size as int) == v
        }),
{
    let big = k.big_endian;
    let p = k.place_size() as nat;
    let (a, b, c, d) = (
        bytes_in(tag, 2, big),
        bytes_in(t, 2, big),
        bytes_in(1, p, big),
        bytes_in(v, size, big),
    );
    let bytes = before + entry_of(k, tag, t, v, size) + behind;
    assert(pow2(16) == 0x1_0000 && pow2(8 * p) > 1) by {
        vstd::arithmetic::power2::lemma2_to64();
        vstd::arithmetic::power2::lemma2_to64_rest();
    }
    law_written_number_is_read(before, tag, 2, b + c + d + behind, big);
    assert(bytes =~= before + a + (b + c + d + behind));
    law_written_number_is_read(before + a, t, 2, c + d + behind, big);
    assert(bytes =~= (before + a) + b + (c + d + behind));
    law_written_number_is_read(before + a + b, 1, p, d + behind, big);
    assert(bytes =~= (before + a + b) + c + (d + behind));
    law_written_number_is_read(before + a + b + c, v, size, behind, big);
    assert(bytes =~= (before + a + b + c) + d + behind);
}

/// Pages follow each other as their directories say: each one is where the one before
/// it points, and behind the last there is none.
pub proof fn law_pages_follow_their_directories(bytes: Seq<u8>, index: nat, k: Kind, at: nat)
    requires
        page_place(bytes, index) == Some((k, at)),
    ensures
        match k.entries(bytes, at) {
            Some(d) => {
                &&& d.next > 0 ==> page_place(bytes, index + 1) == Some((k, d.next))
                &&& d.next == 0 ==> page_place(bytes, index + 1) is None
            },
            None => page_place(bytes, index + 1) is None,
        },
        page_place(bytes, index + 1) is None ==> page_place(bytes, index + 2) is None,
{
}

} // verus!
