//! The samples of a decoded image, and their conversion to binary32.
use crate::binary::{Binary32, Binary64};
use crate::round::Format;
use vstd::arithmetic::power2::pow2;
use vstd::prelude::*;

verus! {

/// The samples of an image as a file holds them. Floating-point samples are
/// held by their bits; half precision ones by those of the binary32 number of
/// the same value.
#[derive(Debug)]
pub enum Samples {
    U8(Vec<u8>),
    U16(Vec<u16>),
    U32(Vec<u32>),
    U64(Vec<u64>),
    I8(Vec<i8>),
    I16(Vec<i16>),
    I32(Vec<i32>),
    I64(Vec<i64>),
    F16(Vec<u32>),
    F32(Vec<u32>),
    F64(Vec<u64>),
}

/// The samples as sequences.
pub enum Numbers {
    U8(Seq<u8>),
    U16(Seq<u16>),
    U32(Seq<u32>),
    U64(Seq<u64>),
    I8(Seq<i8>),
    I16(Seq<i16>),
    I32(Seq<i32>),
    I64(Seq<i64>),
    F16(Seq<u32>),
    F32(Seq<u32>),
    F64(Seq<u64>),
}

impl View for Samples {
    type V = Numbers;

    open spec fn view(&self) -> Numbers {
        match self {
            Samples::U8(v) => Numbers::U8(v@),
            Samples::U16(v) => Numbers::U16(v@),
            Samples::U32(v) => Numbers::U32(v@),
            Samples::U64(v) => Numbers::U64(v@),
            Samples::I8(v) => Numbers::I8(v@),
            Samples::I16(v) => Numbers::I16(v@),
            Samples::I32(v) => Numbers::I32(v@),
            Samples::I64(v) => Numbers::I64(v@),
            Samples::F16(v) => Numbers::F16(v@),
            Samples::F32(v) => Numbers::F32(v@),
            Samples::F64(v) => Numbers::F64(v@),
        }
    }
}

/// The bits of the binary32 number nearest to an integer.
pub open spec fn single_of(n: int) -> u32 {
    let f = Format::Single;
    if n < 0 {
        f.pack(true, f.from_nat((-n) as nat)) as u32
    } else {
        f.from_nat(n as nat) as u32
    }
}

impl Numbers {
    /// The samples as binary32 numbers, by their bits.
    pub open spec fn singles(self) -> Seq<u32> {
        match self {
            Numbers::U8(s) => s.map_values(|x: u8| single_of(x as int)),
            Numbers::U16(s) => s.map_values(|x: u16| single_of(x as int)),
            Numbers::U32(s) => s.map_values(|x: u32| single_of(x as int)),
            Numbers::U64(s) => s.map_values(|x: u64| single_of(x as int)),
            Numbers::I8(s) => s.map_values(|x: i8| single_of(x as int)),
            Numbers::I16(s) => s.map_values(|x: i16| single_of(x as int)),
            Numbers::I32(s) => s.map_values(|x: i32| single_of(x as int)),
            Numbers::I64(s) => s.map_values(|x: i64| single_of(x as int)),
            Numbers::F16(s) => s,
            Numbers::F32(s) => s,
            Numbers::F64(s) => s.map_values(|x: u64| (Binary64 { bits: x }).spec_narrow().bits),
        }
    }
}

/// Binary32 numbers by their bits, with one pattern for every NaN.
pub open spec fn settled_bits(s: Seq<u32>) -> Seq<u32> {
    s.map_values(|b: u32| (Binary32 { bits: b }).settled().bits)
}

impl Numbers {
    /// The samples, with one pattern of bits for every NaN.
    pub open spec fn settled(self) -> Numbers {
        match self {
            Numbers::F16(s) => Numbers::F16(settled_bits(s)),
            Numbers::F32(s) => Numbers::F32(settled_bits(s)),
            Numbers::F64(s) => Numbers::F64(
                s.map_values(|b: u64| (Binary64 { bits: b }).settled().bits),
            ),
            _ => self,
        }
    }

    /// Settling the samples settles what they are converted to.
    pub proof fn lemma_settled_singles(self)
        ensures
            self.settled().singles() == settled_bits(self.singles()),
    {
        let (a, b) = (self.settled().singles(), settled_bits(self.singles()));
        assert forall|i: int| 0 <= i < a.len() implies #[trigger] a[i] == b[i] by {
            match self {
                Numbers::U8(s) => lemma_integer_is_settled(s[i] as int),
                Numbers::U16(s) => lemma_integer_is_settled(s[i] as int),
                Numbers::U32(s) => lemma_integer_is_settled(s[i] as int),
                Numbers::U64(s) => lemma_integer_is_settled(s[i] as int),
                Numbers::I8(s) => lemma_integer_is_settled(s[i] as int),
                Numbers::I16(s) => lemma_integer_is_settled(s[i] as int),
                Numbers::I32(s) => lemma_integer_is_settled(s[i] as int),
                Numbers::I64(s) => lemma_integer_is_settled(s[i] as int),
                Numbers::F16(s) => {},
                Numbers::F32(s) => {},
                Numbers::F64(s) => lemma_narrow_is_settled(Binary64 { bits: s[i] }),
            }
        }
        assert(a =~= b);
    }
}

/// What an integer is converted to is a number.
proof fn lemma_integer_is_settled(n: int)
    ensures
        (Binary32 { bits: single_of(n) }).settled() == (Binary32 { bits: single_of(n) }),
{
    let f = Format::Single;
    let m = if n < 0 {
        (-n) as nat
    } else {
        n as nat
    };
    crate::round::lemma_rounded_is_nearest(f, m * pow2(f.scale()), 1);
}

/// Narrowing gives one pattern for every NaN, and NaN for nothing else.
proof fn lemma_narrow_is_settled(x: Binary64)
    ensures
        x.settled().spec_narrow() == x.spec_narrow(),
        x.spec_narrow().settled() == x.spec_narrow(),
{
    let f = Format::Double;
    vstd::arithmetic::power2::lemma_pow2_pos(925);
    crate::round::lemma_rounded_is_nearest(
        Format::Single,
        f.units(f.code(x.raw())),
        pow2(925),
    );
}

/// An integer type that samples come in.
pub trait Sample: Copy {
    spec fn number(self) -> int;

    /// The sign and the magnitude.
    fn parts(self) -> (r: (bool, u64))
        ensures
            self.number() == (if r.0 {
                -(r.1 as int)
            } else {
                r.1 as int
            }),
            r.0 ==> r.1 > 0,
    ;
}

impl Sample for u8 {
    open spec fn number(self) -> int {
        self as int
    }

    fn parts(self) -> (r: (bool, u64)) {
        (false, self as u64)
    }
}

impl Sample for u16 {
    open spec fn number(self) -> int {
        self as int
    }

    fn parts(self) -> (r: (bool, u64)) {
        (false, self as u64)
    }
}

impl Sample for u32 {
    open spec fn number(self) -> int {
        self as int
    }

    fn parts(self) -> (r: (bool, u64)) {
        (false, self as u64)
    }
}

impl Sample for u64 {
    open spec fn number(self) -> int {
        self as int
    }

    fn parts(self) -> (r: (bool, u64)) {
        (false, self)
    }
}

/// Sign and magnitude of a signed number.
fn signed_parts(x: i64) -> (r: (bool, u64))
    ensures
        x == (if r.0 {
            -(r.1 as int)
        } else {
            r.1 as int
        }),
        r.0 ==> r.1 > 0,
{
    if x < 0 {
        (true, (-(x + 1)) as u64 + 1)
    } else {
        (false, x as u64)
    }
}

impl Sample for i8 {
    open spec fn number(self) -> int {
        self as int
    }

    fn parts(self) -> (r: (bool, u64)) {
        signed_parts(self as i64)
    }
}

impl Sample for i16 {
    open spec fn number(self) -> int {
        self as int
    }

    fn parts(self) -> (r: (bool, u64)) {
        signed_parts(self as i64)
    }
}

impl Sample for i32 {
    open spec fn number(self) -> int {
        self as int
    }

    fn parts(self) -> (r: (bool, u64)) {
        signed_parts(self as i64)
    }
}

impl Sample for i64 {
    open spec fn number(self) -> int {
        self as int
    }

    fn parts(self) -> (r: (bool, u64)) {
        signed_parts(self)
    }
}

/// The bits of the binary32 number nearest to an integer.
pub fn to_single<T: Sample>(x: T) -> (r: u32)
    ensures
        r == single_of(x.number()),
{
    let (negative, magnitude): (bool, u64) = x.parts();
    let code: u64 = Format::Single.from_unsigned(magnitude as u128);
    if negative {
        Format::Single.negate(code) as u32
    } else {
        code as u32
    }
}

fn convert<T: Sample>(v: Vec<T>) -> (r: Vec<u32>)
    ensures
        r@ == v@.map_values(|x: T| single_of(x.number())),
{
    let mut r: Vec<u32> = Vec::with_capacity(v.len());
    let mut i: usize = 0;
    while i < v.len()
        invariant
            i <= v@.len(),
            r@ == v@.take(i as int).map_values(|x: T| single_of(x.number())),
        decreases v@.len() - i,
    {
        r.push(to_single(v[i]));
        i = i + 1;
    }
    proof {
        assert(v@.take(v@.len() as int) =~= v@);
    }
    r
}

fn narrow_all(v: Vec<u64>) -> (r: Vec<u32>)
    ensures
        r@ == v@.map_values(|x: u64| (Binary64 { bits: x }).spec_narrow().bits),
{
    let mut r: Vec<u32> = Vec::with_capacity(v.len());
    let mut i: usize = 0;
    while i < v.len()
        invariant
            i <= v@.len(),
            r@ == v@.take(i as int).map_values(
                |x: u64| (Binary64 { bits: x }).spec_narrow().bits,
            ),
        decreases v@.len() - i,
    {
        r.push((Binary64 { bits: v[i] }).narrow().bits);
        i = i + 1;
    }
    proof {
        assert(v@.take(v@.len() as int) =~= v@);
    }
    r
}

impl Samples {
    /// The samples as binary32 numbers, by their bits.
    pub fn into_singles(self) -> (r: Vec<u32>)
        ensures
            r@ == self@.singles(),
    {
        let ghost wanted = self@.singles();
        let r: Vec<u32> = match self {
            Samples::U8(v) => convert(v),
            Samples::U16(v) => convert(v),
            Samples::U32(v) => convert(v),
            Samples::U64(v) => convert(v),
            Samples::I8(v) => convert(v),
            Samples::I16(v) => convert(v),
            Samples::I32(v) => convert(v),
            Samples::I64(v) => convert(v),
            Samples::F16(v) => v,
            Samples::F32(v) => v,
            Samples::F64(v) => narrow_all(v),
        };
        proof {
            assert(r@ =~= wanted);
        }
        r
    }
}

// ----- laws --------------------------------------------------------------------------

/// The bits stand for the integer `n`, exactly.
pub open spec fn stands_for(bits: u32, n: int) -> bool {
    let f = Format::Single;
    &&& f.is_finite(bits as nat)
    &&& f.value(bits as nat) == n * pow2(149)
    &&& f.negative(bits as nat) <==> n < 0
}

/// How far the number of some bits lies from the integer `n`, in units of the
/// smallest positive number.
pub open spec fn error_of(bits: u32, n: int) -> int {
    let d = Format::Single.value(bits as nat) - n * pow2(149);
    if d < 0 {
        -d
    } else {
        d
    }
}

/// The bits are those of a number that no other number is nearer to `n` than.
pub open spec fn is_nearest(bits: u32, n: int) -> bool {
    &&& Format::Single.is_finite(bits as nat)
    &&& n >= 0 ==> !Format::Single.negative(bits as nat)
    &&& forall|other: u32|
        #![trigger error_of(other, n)]
        Format::Single.is_finite(other as nat) ==> error_of(bits, n) <= error_of(other, n)
}

/// What a sample of `n` should become: the number itself where binary32 holds
/// it, and the nearest number in any case.
pub open spec fn is_pixel_of(bits: u32, n: int) -> bool {
    &&& -0x100_0000 <= n <= 0x100_0000 ==> stands_for(bits, n)
    &&& is_nearest(bits, n)
}

/// No number lies nearer to a natural number than the one that it is rounded to.
proof fn lemma_nearest_code(m: nat, d: nat)
    requires
        m < 0x1_0000_0000_0000_0000,
    ensures
        ({
            let f = Format::Single;
            let (x, y) = (f.units(f.from_nat(m)) - m * pow2(149), f.units(d) - m * pow2(149));
            &&& f.from_nat(m) < f.infinity()
            &&& -y <= x <= y || -y >= x >= y
        }),
{
    let f = Format::Single;
    let n = m * pow2(149);
    let c = f.from_nat(m);
    crate::float::lemma_integer_bound(f, m);
    crate::round::lemma_rounded_is_nearest(f, n, 1);
    if d < c {
        if d < c - 1 {
            crate::round::lemma_units_increase(f, d, (c - 1) as nat);
        }
        crate::round::lemma_units_increase(f, d, c);
    } else if d > c {
        if d > c + 1 {
            crate::round::lemma_units_increase(f, c + 1, d);
        }
        crate::round::lemma_units_increase(f, c, d);
    }
}

/// An integer of at most 64 bits becomes the nearest number, which is the integer
/// itself where binary32 holds it.
pub proof fn law_integer_becomes_the_nearest_number(n: int)
    requires
        -0x1_0000_0000_0000_0000 < n < 0x1_0000_0000_0000_0000,
    ensures
        is_pixel_of(single_of(n), n),
{
    let f = Format::Single;
    let p = pow2(149);
    let m = if n < 0 {
        (-n) as nat
    } else {
        n as nat
    };
    lemma_nearest_code(m, 0);
    let bits = single_of(n);
    let c = f.from_nat(m);
    assert(f.code(bits as nat) == c);
    assert((-n) * p == -(n * p)) by (nonlinear_arith);
    if m <= 0x100_0000 {
        crate::float::lemma_exact_integer(f, m);
    }
    assert forall|other: u32|
        #![trigger error_of(other, n)]
        f.is_finite(other as nat) implies error_of(bits, n) <= error_of(other, n) by {
        let d = f.code(other as nat);
        lemma_nearest_code(m, d);
        lemma_nearest_code(m, 0);
        crate::round::lemma_units_of_zero(f);
        assert(m * p >= 0) by (nonlinear_arith)
            requires
                p >= 0,
        ;
    }
}

/// The pixel made of a sample has the value of the sample, whatever type the
/// samples come in: integers become the nearest binary32 number, which is the
/// integer itself up to `2^24`, and binary32 numbers stay as they are.
pub proof fn law_pixel_has_the_value_of_the_sample(s: Numbers, i: int)
    requires
        0 <= i < s.singles().len(),
    ensures
        match s {
            Numbers::U8(v) => v.len() == s.singles().len() && is_pixel_of(
                s.singles()[i],
                v[i] as int,
            ),
            Numbers::U16(v) => v.len() == s.singles().len() && is_pixel_of(
                s.singles()[i],
                v[i] as int,
            ),
            Numbers::U32(v) => v.len() == s.singles().len() && is_pixel_of(
                s.singles()[i],
                v[i] as int,
            ),
            Numbers::U64(v) => v.len() == s.singles().len() && is_pixel_of(
                s.singles()[i],
                v[i] as int,
            ),
            Numbers::I8(v) => v.len() == s.singles().len() && is_pixel_of(
                s.singles()[i],
                v[i] as int,
            ),
            Numbers::I16(v) => v.len() == s.singles().len() && is_pixel_of(
                s.singles()[i],
                v[i] as int,
            ),
            Numbers::I32(v) => v.len() == s.singles().len() && is_pixel_of(
                s.singles()[i],
                v[i] as int,
            ),
            Numbers::I64(v) => v.len() == s.singles().len() && is_pixel_of(
                s.singles()[i],
                v[i] as int,
            ),
            Numbers::F16(v) => v == s.singles(),
            Numbers::F32(v) => v == s.singles(),
            Numbers::F64(v) => v.len() == s.singles().len() && forall|w: Binary32|
                #![trigger w.spec_widen()]
                w.finite() && w.spec_widen().bits == v[i] ==> s.singles()[i] == w.bits,
        },
{
    match s {
        Numbers::U8(v) => law_integer_becomes_the_nearest_number(v[i] as int),
        Numbers::U16(v) => law_integer_becomes_the_nearest_number(v[i] as int),
        Numbers::U32(v) => law_integer_becomes_the_nearest_number(v[i] as int),
        Numbers::U64(v) => law_integer_becomes_the_nearest_number(v[i] as int),
        Numbers::I8(v) => law_integer_becomes_the_nearest_number(v[i] as int),
        Numbers::I16(v) => law_integer_becomes_the_nearest_number(v[i] as int),
        Numbers::I32(v) => law_integer_becomes_the_nearest_number(v[i] as int),
        Numbers::I64(v) => law_integer_becomes_the_nearest_number(v[i] as int),
        Numbers::F16(v) => {},
        Numbers::F32(v) => {},
        Numbers::F64(v) => {
            assert forall|w: Binary32|
                #![trigger w.spec_widen()]
                w.finite() && w.spec_widen().bits == v[i] implies s.singles()[i] == w.bits by {
                w.law_widening_is_undone_by_narrowing();
            }
        },
    }
}

/// A sample of any integer type is the number that it is: in particular, no two
/// samples of one type stand for the same number.
pub proof fn law_samples_are_numbers(
    a: u8,
    b: u16,
    c: u32,
    d: u64,
    e: i8,
    f: i16,
    g: i32,
    h: i64,
)
    ensures
        a.number() == a,
        b.number() == b,
        c.number() == c,
        d.number() == d,
        e.number() == e,
        f.number() == f,
        g.number() == g,
        h.number() == h,
{
}

/// Two different samples of 16 bits never give the same pixel, and the larger one
/// gives the larger pixel.
pub proof fn law_pixels_of_16_bits_differ(s: Seq<u16>, t: Seq<i16>, i: int, j: int)
    ensures
        0 <= i < s.len() && 0 <= j < s.len() && s[i] < s[j] ==> (Binary32 {
            bits: Numbers::U16(s).singles()[i],
        }).below(Binary32 { bits: Numbers::U16(s).singles()[j] }),
        0 <= i < t.len() && 0 <= j < t.len() && t[i] < t[j] ==> (Binary32 {
            bits: Numbers::I16(t).singles()[i],
        }).below(Binary32 { bits: Numbers::I16(t).singles()[j] }),
{
    if 0 <= i < s.len() && 0 <= j < s.len() && s[i] < s[j] {
        law_pixel_has_the_value_of_the_sample(Numbers::U16(s), i);
        law_pixel_has_the_value_of_the_sample(Numbers::U16(s), j);
        lemma_order_of_integers(
            Numbers::U16(s).singles()[i],
            s[i] as int,
            Numbers::U16(s).singles()[j],
            s[j] as int,
        );
    }
    if 0 <= i < t.len() && 0 <= j < t.len() && t[i] < t[j] {
        law_pixel_has_the_value_of_the_sample(Numbers::I16(t), i);
        law_pixel_has_the_value_of_the_sample(Numbers::I16(t), j);
        lemma_order_of_integers(
            Numbers::I16(t).singles()[i],
            t[i] as int,
            Numbers::I16(t).singles()[j],
            t[j] as int,
        );
    }
}

/// Numbers are ordered as the integers they stand for.
proof fn lemma_order_of_integers(a: u32, m: int, b: u32, n: int)
    requires
        stands_for(a, m),
        stands_for(b, n),
        m < n,
    ensures
        (Binary32 { bits: a }).below(Binary32 { bits: b }),
{
    let p = pow2(149);
    vstd::arithmetic::power2::lemma_pow2_pos(149);
    assert(m * p < n * p) by (nonlinear_arith)
        requires
            m < n,
            p > 0,
    ;
    crate::monotone::lemma_order_of_values(Format::Single, a as nat, b as nat);
}

} // verus!
