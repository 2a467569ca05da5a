//! What the viewer shows: display modes, value ranges and texts.
use crate::binary::{Binary32, Binary64};
use crate::float::{
    lemma_exact_integer, lemma_exact_integers_ordered, lemma_integer_bound,
    lemma_quotient_of_integers, lemma_quotient_shrinks, lemma_rounded_scaled,
};
use crate::round::Format;
use crate::text::{decimal, push_decimal};
use vstd::arithmetic::power2::{lemma_pow2_adds, lemma_pow2_pos, pow2};
use vstd::prelude::*;
use vstd::string::*;

verus! {

/// What the viewer shows: one of the whole-stack projections, or one image at
/// a time picked with the slider.
#[derive(Clone, Copy, PartialEq, Eq, Structural, Debug)]
pub enum DisplayMode {
    Integrated,
    Mean,
    Max,
    Min,
    Std,
    Single,
}

impl DisplayMode {
    pub const ALL: [DisplayMode; 6] = [
        DisplayMode::Integrated,
        DisplayMode::Mean,
        DisplayMode::Max,
        DisplayMode::Min,
        DisplayMode::Std,
        DisplayMode::Single,
    ];

    pub open spec fn name(self) -> Seq<char> {
        match self {
            DisplayMode::Integrated => "Integrated"@,
            DisplayMode::Mean => "Mean"@,
            DisplayMode::Max => "Max"@,
            DisplayMode::Min => "Min"@,
            DisplayMode::Std => "Std dev"@,
            DisplayMode::Single => "Single image"@,
        }
    }

    pub fn label(self) -> (r: &'static str)
        ensures
            r@ == self.name(),
    {
        match self {
            DisplayMode::Integrated => "Integrated",
            DisplayMode::Mean => "Mean",
            DisplayMode::Max => "Max",
            DisplayMode::Min => "Min",
            DisplayMode::Std => "Std dev",
            DisplayMode::Single => "Single image",
        }
    }

    pub open spec fn help(self) -> Seq<char> {
        match self {
            DisplayMode::Integrated => "Pixel-wise sum of every image"@,
            DisplayMode::Mean => "Pixel-wise average of every image"@,
            DisplayMode::Max =>
                "Brightest value each pixel ever takes — bright features from any image of the stack all show at once"@,
            DisplayMode::Min =>
                "Darkest value each pixel ever takes — for transmission images this is the union of the sample silhouettes over all images (e.g. a full CT rotation): if the dark envelope fits inside the crop, no image is cut"@,
            DisplayMode::Std =>
                "Standard deviation of each pixel across the images — moving edges and changing regions light up"@,
            DisplayMode::Single =>
                "One image at a time, picked with the slider below the image (▶ plays through the stack)"@,
        }
    }

    pub fn hover(self) -> (r: &'static str)
        ensures
            r@ == self.help(),
    {
        match self {
            DisplayMode::Integrated => "Pixel-wise sum of every image",
            DisplayMode::Mean => "Pixel-wise average of every image",
            DisplayMode::Max =>
                "Brightest value each pixel ever takes — bright features from any image of the stack all show at once",
            DisplayMode::Min =>
                "Darkest value each pixel ever takes — for transmission images this is the union of the sample silhouettes over all images (e.g. a full CT rotation): if the dark envelope fits inside the crop, no image is cut",
            DisplayMode::Std =>
                "Standard deviation of each pixel across the images — moving edges and changing regions light up",
            DisplayMode::Single =>
                "One image at a time, picked with the slider below the image (▶ plays through the stack)",
        }
    }

    /// What is said of a mode begins with what it shows.
    pub proof fn law_help_says_what_is_shown(self)
        ensures
            ({
                let begins = |s: Seq<char>| self.help().len() > s.len() && self.help().take(
                    s.len() as int,
                ) == s;
                match self {
                    DisplayMode::Integrated => begins("Pixel-wise sum"@),
                    DisplayMode::Mean => begins("Pixel-wise average"@),
                    DisplayMode::Max => begins("Brightest value"@),
                    DisplayMode::Min => begins("Darkest value"@),
                    DisplayMode::Std => begins("Standard deviation"@),
                    DisplayMode::Single => begins("One image at a time"@),
                }
            }),
    {
        match self {
            DisplayMode::Integrated => {
                reveal_strlit("Pixel-wise sum of every image");
                reveal_strlit("Pixel-wise sum");
                assert(self.help().take(14) =~= "Pixel-wise sum"@);
            },
            DisplayMode::Mean => {
                reveal_strlit("Pixel-wise average of every image");
                reveal_strlit("Pixel-wise average");
                assert(self.help().take(18) =~= "Pixel-wise average"@);
            },
            DisplayMode::Max => {
                reveal_strlit(
                    "Brightest value each pixel ever takes — bright features from any image of the stack all show at once",
                );
                reveal_strlit("Brightest value");
                assert(self.help().take(15) =~= "Brightest value"@);
            },
            DisplayMode::Min => {
                reveal_strlit(
                    "Darkest value each pixel ever takes — for transmission images this is the union of the sample silhouettes over all images (e.g. a full CT rotation): if the dark envelope fits inside the crop, no image is cut",
                );
                reveal_strlit("Darkest value");
                assert(self.help().take(13) =~= "Darkest value"@);
            },
            DisplayMode::Std => {
                reveal_strlit(
                    "Standard deviation of each pixel across the images — moving edges and changing regions light up",
                );
                reveal_strlit("Standard deviation");
                assert(self.help().take(18) =~= "Standard deviation"@);
            },
            DisplayMode::Single => {
                reveal_strlit(
                    "One image at a time, picked with the slider below the image (▶ plays through the stack)",
                );
                reveal_strlit("One image at a time");
                assert(self.help().take(19) =~= "One image at a time"@);
            },
        }
    }

    /// The place of the mode in the list of all modes.
    pub open spec fn place(self) -> int {
        match self {
            DisplayMode::Integrated => 0,
            DisplayMode::Mean => 1,
            DisplayMode::Max => 2,
            DisplayMode::Min => 3,
            DisplayMode::Std => 4,
            DisplayMode::Single => 5,
        }
    }

    pub fn index(self) -> (i: usize)
        ensures
            i == self.place(),
            i < 6,
    {
        match self {
            DisplayMode::Integrated => 0,
            DisplayMode::Mean => 1,
            DisplayMode::Max => 2,
            DisplayMode::Min => 3,
            DisplayMode::Std => 4,
            DisplayMode::Single => 5,
        }
    }

    /// Every mode stands in the list, at its index.
    pub proof fn law_all_lists_every_mode(self)
        ensures
            DisplayMode::ALL@.len() == 6,
            DisplayMode::ALL@[self.place()] == self,
    {
    }
}

// ----- ranges --------------------------------------------------------------------

/// A range of values, from the smallest to the largest.
#[derive(Clone, Copy, PartialEq, Eq, Structural, Debug)]
pub struct Span {
    pub lo: Binary32,
    pub hi: Binary32,
}

impl Span {
    /// The range of no value.
    pub open spec fn nothing() -> Span {
        Span { lo: Binary32::infinity(), hi: Binary32::minus_infinity() }
    }

    /// The range from zero to one.
    pub open spec fn unit() -> Span {
        Span { lo: Binary32::zero(), hi: Binary32::one() }
    }

    /// The range that reaches over both.
    pub open spec fn over(self, other: Span) -> Span {
        Span { lo: self.lo.spec_min(other.lo), hi: self.hi.spec_max(other.hi) }
    }

    /// The range itself, or the unit range when it is not finite.
    pub open spec fn normal(self) -> Span {
        if self.lo.finite() && self.hi.finite() {
            self
        } else {
            Span::unit()
        }
    }
}

/// Min/max of the finite values; `(inf, -inf)` when there are none.
pub open spec fn span_of(values: Seq<u32>) -> Span
    decreases values.len(),
{
    if values.len() == 0 {
        Span::nothing()
    } else {
        let s = span_of(values.drop_last());
        let v = Binary32 { bits: values.last() };
        if v.finite() {
            Span { lo: s.lo.spec_min(v), hi: s.hi.spec_max(v) }
        } else {
            s
        }
    }
}

/// Min/max of the finite values; `(inf, -inf)` when there are none.
pub fn raw_range(values: &[u32]) -> (r: Span)
    ensures
        r == span_of(values@),
{
    let mut r: Span = Span {
        lo: Binary32::infinity(),
        hi: Binary32::minus_infinity(),
    };
    let mut i: usize = 0;
    proof {
        assert(values@.take(0) =~= Seq::<u32>::empty());
    }
    while i < values.len()
        invariant
            i <= values@.len(),
            r == span_of(values@.take(i as int)),
        decreases values@.len() - i,
    {
        proof {
            assert(values@.take(i + 1).drop_last() =~= values@.take(i as int));
        }
        let v: Binary32 = Binary32 { bits: values[i] };
        if v.is_finite() {
            r = Span { lo: r.lo.min(v), hi: r.hi.max(v) };
        }
        i = i + 1;
    }
    proof {
        assert(values@.take(values@.len() as int) =~= values@);
    }
    r
}

pub fn normalize_range(s: Span) -> (r: Span)
    ensures
        r == s.normal(),
{
    if s.lo.is_finite() && s.hi.is_finite() {
        s
    } else {
        Span { lo: Binary32::zero(), hi: Binary32::one() }
    }
}

/// Every finite value lies in the range of the values, and both ends of a range
/// that is not empty are values.
pub proof fn law_range_holds_every_value(values: Seq<u32>, i: int)
    requires
        0 <= i < values.len(),
        (Binary32 { bits: values[i] }).finite(),
    ensures
        !(Binary32 { bits: values[i] }).below(span_of(values).lo),
        !span_of(values).hi.below(Binary32 { bits: values[i] }),
        span_of(values).lo.finite() && values.contains(span_of(values).lo.bits),
        span_of(values).hi.finite() && values.contains(span_of(values).hi.bits),
        span_of(values).normal() == span_of(values),
    decreases values.len(),
{
    let earlier = values.drop_last();
    let v = Binary32 { bits: values.last() };
    lemma_span_is_ordered(earlier);
    if i < earlier.len() {
        assert(earlier[i] == values[i]);
        law_range_holds_every_value(earlier, i);
        let s = span_of(earlier);
        let a = choose|k: int| 0 <= k < earlier.len() && earlier[k] == s.lo.bits;
        let b = choose|k: int| 0 <= k < earlier.len() && earlier[k] == s.hi.bits;
        assert(values[a] == s.lo.bits && values[b] == s.hi.bits);
        assert(values[values.len() - 1] == v.bits);
    } else {
        let s = span_of(earlier);
        assert(values[values.len() - 1] == v.bits);
        if s != Span::nothing() {
            let a = choose|k: int| 0 <= k < earlier.len() && earlier[k] == s.lo.bits;
            let b = choose|k: int| 0 <= k < earlier.len() && earlier[k] == s.hi.bits;
            assert(values[a] == s.lo.bits && values[b] == s.hi.bits);
        }
    }
}

/// The ends of a range are values, or there is none.
pub proof fn lemma_span_is_ordered(values: Seq<u32>)
    ensures
        span_of(values) == Span::nothing() || (span_of(values).lo.finite()
            && span_of(values).hi.finite() && values.contains(span_of(values).lo.bits)
            && values.contains(span_of(values).hi.bits)),
    decreases values.len(),
{
    if values.len() > 0 {
        let earlier = values.drop_last();
        let v = Binary32 { bits: values.last() };
        lemma_span_is_ordered(earlier);
        let s = span_of(earlier);
        assert(values[values.len() - 1] == v.bits);
        if s != Span::nothing() {
            let a = choose|k: int| 0 <= k < earlier.len() && earlier[k] == s.lo.bits;
            let b = choose|k: int| 0 <= k < earlier.len() && earlier[k] == s.hi.bits;
            assert(values[a] == s.lo.bits && values[b] == s.hi.bits);
        }
    }
}

// ----- texts ---------------------------------------------------------------------

/// A number of tenths, with one decimal.
pub open spec fn one_decimal(tenths: nat) -> Seq<char> {
    decimal(tenths / 10).push('.') + decimal(tenths % 10)
}

/// Appends a number below `2^64` that is not negative, with one decimal.
pub fn push_one_decimal(s: &mut String, v: Binary64)
    requires
        v.finite(),
        Format::Double.units(Format::Double.code(v.raw())) < pow2(1138),
    ensures
        final(s)@ == old(s)@ + one_decimal(Format::Double.multiple(v.raw(), 10)),
{
    let t: u128 = Format::Double.round_multiple(v.bits, 10);
    push_decimal(s, t / 10);
    s.push('.');
    push_decimal(s, t % 10);
    proof {
        assert(s@ =~= old(s)@ + one_decimal(t as nat));
    }
}

/// Divided by a thousand as long as it is at least a thousand, up to four
/// times: the number that is left and how often it was divided.
pub open spec fn in_thousands(v: Binary64, times: nat) -> (Binary64, nat)
    decreases 4 - times,
{
    if times < 4 && (Binary64::thousand().below(v) || Binary64::thousand().equals(v)) {
        in_thousands(v.spec_over(Binary64::thousand()), times + 1)
    } else {
        (v, times)
    }
}

pub open spec fn unit_name(times: nat) -> Seq<char> {
    if times == 0 {
        " B"@
    } else if times == 1 {
        " kB"@
    } else if times == 2 {
        " MB"@
    } else if times == 3 {
        " GB"@
    } else {
        " TB"@
    }
}

/// A number of bytes, as people write it.
pub open spec fn bytes_text(bytes: nat) -> Seq<char> {
    let (v, times) = in_thousands(Binary64::nearest_to(bytes), 0);
    one_decimal(Format::Double.multiple(v.raw(), 10)) + unit_name(times)
}

proof fn lemma_thousand()
    ensures
        Binary64::thousand() == Binary64::nearest_to(1000),
        Format::Double.units(Binary64::thousand().raw()) == 1000 * pow2(1074),
        Binary64::thousand().finite(),
{
    let f = Format::Double;
    lemma_exact_integer(f, 1000);
    assert(f.units(0x408f_4000_0000_0000) == 1000 * pow2(1074)) by {
        reveal(Format::units);
        assert(0x408f_4000_0000_0000nat / f.unit() == 1032);
        assert(0x408f_4000_0000_0000nat % f.unit() == 0xf_4000_0000_0000);
        lemma_pow2_adds(43, 1031);
        vstd::arithmetic::power2::lemma2_to64_rest();
        assert(pow2(1074) == pow2(43) * pow2(1031));
        assert(0x1f_4000_0000_0000nat == 1000 * pow2(43));
        assert((1000 * pow2(43)) * pow2(1031) == 1000 * (pow2(43) * pow2(1031))) by (nonlinear_arith);
    }
    if f.from_nat(1000) < 0x408f_4000_0000_0000 {
        crate::round::lemma_units_increase(f, f.from_nat(1000), 0x408f_4000_0000_0000);
    } else if f.from_nat(1000) > 0x408f_4000_0000_0000 {
        crate::round::lemma_units_increase(f, 0x408f_4000_0000_0000, f.from_nat(1000));
    }
}

/// A number of bytes, as people write it.
pub fn human_bytes(bytes: usize) -> (r: String)
    ensures
        r@ == bytes_text(bytes as nat),
{
    let f: Format = Format::Double;
    let mut v: Binary64 = Binary64::from_usize(bytes);
    let mut times: usize = 0;
    let limit: Binary64 = Binary64::thousand();
    proof {
        lemma_thousand();
        lemma_integer_bound(f, bytes as nat);
        lemma_pow2_pos(1074);
    }
    while times < 4 && (limit.is_below(v) || limit.is_equal(v))
        invariant
            times <= 4,
            f == Format::Double,
            limit == Binary64::thousand(),
            Binary64::thousand().finite(),
            f.units(Binary64::thousand().raw()) == 1000 * pow2(1074),
            pow2(1074) > 0,
            v.raw() < f.infinity(),
            f.units(v.raw()) <= pow2(1138),
            times > 0 ==> f.units(v.raw()) < pow2(1138),
            in_thousands(v, times as nat) == in_thousands(Binary64::nearest_to(bytes as nat), 0),
        decreases 4 - times,
    {
        proof {
            lemma_quotient_shrinks(f, v.raw(), Binary64::thousand().raw());
            crate::round::lemma_units_of_zero(f);
        }
        v = v.over(limit);
        times = times + 1;
    }
    proof {
        if times == 0 {
            // Less than a thousand.
            crate::round::lemma_units_increase(f, v.raw(), Binary64::thousand().raw());
            lemma_pow2_adds(1074, 64);
            vstd::arithmetic::power2::lemma2_to64_rest();
            assert(1000 * pow2(1074) < pow2(1074) * pow2(64)) by (nonlinear_arith)
                requires
                    pow2(64) > 1000,
                    pow2(1074) > 0,
            ;
        }
    }
    let mut r: String = String::new();
    push_one_decimal(&mut r, v);
    let unit: &str = if times == 0 {
        " B"
    } else if times == 1 {
        " kB"
    } else if times == 2 {
        " MB"
    } else if times == 3 {
        " GB"
    } else {
        " TB"
    };
    r.append(unit);
    proof {
        let (w, t) = in_thousands(Binary64::nearest_to(bytes as nat), 0);
        assert(w == v && t == times);
        assert(r@ =~= bytes_text(bytes as nat));
    }
    r
}

// ----- laws ------------------------------------------------------------------------

/// Whole multiples of a unit, fewer than a thousand of them, are written as the
/// number of units.
pub proof fn law_bytes_are_counted_in_thousands(m: nat)
    requires
        m < 1000,
    ensures
        bytes_text(m) == decimal(m) + ".0"@ + " B"@,
        m > 0 ==> bytes_text(1_000 * m) == decimal(m) + ".0"@ + " kB"@,
        m > 0 ==> bytes_text(1_000_000 * m) == decimal(m) + ".0"@ + " MB"@,
        m > 0 ==> bytes_text(1_000_000_000 * m) == decimal(m) + ".0"@ + " GB"@,
        m > 0 ==> bytes_text(1_000_000_000_000 * m) == decimal(m) + ".0"@ + " TB"@,
{
    let f = Format::Double;
    let v = Binary64::nearest_to(m);
    lemma_thousands_left(m);
    lemma_exact_integer(f, m);
    lemma_pow2_pos(1074);
    let p = pow2(1074);
    assert(f.multiple(v.raw(), 10) == 10 * m) by {
        assert((m * p) * 10 == (10 * m) * p + 0) by (nonlinear_arith);
        vstd::arithmetic::div_mod::lemma_fundamental_div_mod_converse(
            ((m * p) * 10) as int,
            p as int,
            10 * m as int,
            0,
        );
    }
    reveal_strlit(".0");
    assert(decimal(0) =~= seq!['0']);
    assert(one_decimal(10 * m) =~= decimal(m) + ".0"@);
    assert(in_thousands(v, 0) == (v, 0nat));
    if m > 0 {
        lemma_thousands_left(1_000 * m);
        lemma_thousands_left(1_000_000 * m);
        lemma_thousands_left(1_000_000_000 * m);
        lemma_thousands_left(1_000_000_000_000 * m);
        reveal_with_fuel(in_thousands, 6);
    }
}

/// What is left of a number of bytes in the next step.
proof fn lemma_thousands_left(n: nat)
    requires
        n < 1_000_000_000_000_000,
    ensures
        ({
            let v = Binary64::nearest_to(n);
            &&& (Binary64::thousand().below(v) || Binary64::thousand().equals(v)) == (n >= 1000)
            &&& n % 1000 == 0 ==> v.spec_over(Binary64::thousand()) == Binary64::nearest_to(
                n / 1000,
            )
        }),
{
    let f = Format::Double;
    lemma_thousand();
    lemma_exact_integer(f, n);
    lemma_exact_integer(f, 1000);
    if n < 1000 {
        lemma_exact_integers_ordered(f, n, 1000);
    } else if n > 1000 {
        lemma_exact_integers_ordered(f, 1000, n);
    }
    if n % 1000 == 0 {
        let p = pow2(1074);
        lemma_quotient_of_integers(f, n, 1000);
        assert(n * p == ((n / 1000) * p) * 1000) by (nonlinear_arith)
            requires
                n % 1000 == 0,
        ;
        lemma_rounded_scaled(f, (n / 1000) * p, 1, 1000);
    }
}

} // verus!
