//! Text as sequences of characters: decimal numbers, trimming, splitting and
//! searching.
use vstd::prelude::*;
use vstd::string::*;

verus! {

/// `String::push` appends one character.
pub assume_specification[ String::push ](s: &mut String, c: char)
    ensures
        final(s)@ == old(s)@.push(c),
;

/// A result whose message is taken by its characters.
pub open spec fn viewed<T>(r: Result<T, String>) -> Result<T, Seq<char>> {
    match r {
        Ok(v) => Ok(v),
        Err(e) => Err(e@),
    }
}

/// An optional text taken by its characters.
pub open spec fn viewed_option(r: Option<String>) -> Option<Seq<char>> {
    match r {
        Some(s) => Some(s@),
        None => None,
    }
}

/// The character of a decimal digit.
pub open spec fn digit(d: nat) -> char
    recommends
        d < 10,
{
    (48 + d) as char
}

pub open spec fn is_digit(c: char) -> bool {
    '0' <= c && c <= '9'
}

/// The decimal form of `n`, without leading zeros.
pub open spec fn decimal(n: nat) -> Seq<char>
    decreases n,
{
    if n < 10 {
        seq![digit(n)]
    } else {
        decimal(n / 10).push(digit(n % 10))
    }
}

/// The number that a sequence of digits writes.
pub open spec fn digits_value(s: Seq<char>) -> nat
    decreases s.len(),
{
    if s.len() == 0 {
        0
    } else {
        digits_value(s.drop_last()) * 10 + (s.last() as nat - 48) as nat
    }
}

/// Length of the leading run of digits.
pub open spec fn digit_run(s: Seq<char>) -> nat
    decreases s.len(),
{
    if s.len() > 0 && is_digit(s[0]) {
        1 + digit_run(s.skip(1))
    } else {
        0
    }
}

/// The characters of the Unicode property White_Space.
pub open spec fn is_space(c: char) -> bool {
    let n = c as u32;
    ||| 9 <= n <= 13
    ||| n == 0x20
    ||| n == 0x85
    ||| n == 0xa0
    ||| n == 0x1680
    ||| 0x2000 <= n <= 0x200a
    ||| n == 0x2028
    ||| n == 0x2029
    ||| n == 0x202f
    ||| n == 0x205f
    ||| n == 0x3000
}

/// Without the leading white space.
pub open spec fn trim_start(s: Seq<char>) -> Seq<char>
    decreases s.len(),
{
    if s.len() > 0 && is_space(s[0]) {
        trim_start(s.skip(1))
    } else {
        s
    }
}

/// Without the trailing white space.
pub open spec fn trim_end(s: Seq<char>) -> Seq<char>
    decreases s.len(),
{
    if s.len() > 0 && is_space(s.last()) {
        trim_end(s.drop_last())
    } else {
        s
    }
}

/// Without the white space at both ends.
pub open spec fn trim(s: Seq<char>) -> Seq<char> {
    trim_end(trim_start(s))
}

/// The pieces between the separators, in order; one more than there are
/// separators.
pub open spec fn split(s: Seq<char>, sep: char) -> Seq<Seq<char>>
    decreases s.len(),
{
    if s.len() == 0 {
        seq![Seq::<char>::empty()]
    } else {
        let head = split(s.drop_last(), sep);
        if s.last() == sep {
            head.push(Seq::<char>::empty())
        } else {
            head.drop_last().push(head.last().push(s.last()))
        }
    }
}

/// `needle` stands in `s` at position `at`.
pub open spec fn occurs_at(s: Seq<char>, needle: Seq<char>, at: int) -> bool {
    0 <= at && at + needle.len() <= s.len() && s.subrange(at, at + needle.len()) == needle
}

/// The first position of `needle` in `s`.
pub open spec fn is_first(s: Seq<char>, needle: Seq<char>, at: int) -> bool {
    occurs_at(s, needle, at) && forall|p: int| 0 <= p < at ==> !occurs_at(s, needle, p)
}

/// Why a text is not a number.
#[derive(Clone, Copy, PartialEq, Eq, Structural, Debug)]
pub enum NumberError {
    Empty,
    InvalidDigit,
    PosOverflow,
}

impl NumberError {
    pub open spec fn text(self) -> Seq<char> {
        match self {
            NumberError::Empty => "cannot parse integer from empty string"@,
            NumberError::InvalidDigit => "invalid digit found in string"@,
            NumberError::PosOverflow => "number too large to fit in target type"@,
        }
    }

    pub fn message(self) -> (r: &'static str)
        ensures
            r@ == self.text(),
    {
        match self {
            NumberError::Empty => "cannot parse integer from empty string",
            NumberError::InvalidDigit => "invalid digit found in string",
            NumberError::PosOverflow => "number too large to fit in target type",
        }
    }
}

/// An optional plus sign and digits, read from left to right: the first
/// character that is no digit, or the first digit that makes the number too
/// large, decides the error.
pub open spec fn number(s: Seq<char>) -> Result<usize, NumberError> {
    let body = if s.len() > 1 && s[0] == '+' {
        s.skip(1)
    } else {
        s
    };
    let run = digit_run(body);
    let value = digits_value(body.take(run as int));
    if s.len() == 0 {
        Err(NumberError::Empty)
    } else if value > usize::MAX {
        Err(NumberError::PosOverflow)
    } else if run < body.len() {
        Err(NumberError::InvalidDigit)
    } else {
        Ok(value as usize)
    }
}

// ----- facts -------------------------------------------------------------------

pub proof fn lemma_digit_run_bound(s: Seq<char>)
    ensures
        digit_run(s) <= s.len(),
        forall|i: int| 0 <= i < digit_run(s) ==> is_digit(#[trigger] s[i]),
        digit_run(s) < s.len() ==> !is_digit(s[digit_run(s) as int]),
    decreases s.len(),
{
    if s.len() > 0 && is_digit(s[0]) {
        lemma_digit_run_bound(s.skip(1));
        assert forall|i: int| 0 <= i < digit_run(s) implies is_digit(#[trigger] s[i]) by {
            if i > 0 {
                assert(s[i] == s.skip(1)[i - 1]);
            }
        }
        if digit_run(s) < s.len() {
            assert(s[digit_run(s) as int] == s.skip(1)[digit_run(s.skip(1)) as int]);
        }
    }
}

/// A run that is seen to end is the run.
pub proof fn lemma_digit_run_is(s: Seq<char>, n: int)
    requires
        0 <= n <= s.len(),
        forall|i: int| 0 <= i < n ==> is_digit(#[trigger] s[i]),
        n < s.len() ==> !is_digit(s[n]),
    ensures
        digit_run(s) == n,
    decreases s.len(),
{
    if n > 0 {
        assert forall|i: int| 0 <= i < n - 1 implies is_digit(#[trigger] s.skip(1)[i]) by {
            assert(s.skip(1)[i] == s[i + 1]);
        }
        assert(is_digit(s[0]));
        lemma_digit_run_is(s.skip(1), n - 1);
    }
}

/// Writing a number and reading its digits gives it back.
pub proof fn lemma_decimal(n: nat)
    ensures
        decimal(n).len() > 0,
        digits_value(decimal(n)) == n,
        forall|i: int| 0 <= i < decimal(n).len() ==> is_digit(#[trigger] decimal(n)[i]),
    decreases n,
{
    let s = decimal(n);
    if n < 10 {
        assert(s.drop_last() =~= Seq::<char>::empty());
        assert(digits_value(s.drop_last()) == 0);
        assert(s.last() == digit(n));
    } else {
        lemma_decimal(n / 10);
        assert(s.drop_last() =~= decimal(n / 10));
        assert(s.last() == digit(n % 10));
    }
}

// ----- code --------------------------------------------------------------------

/// The characters of a string.
pub fn chars_of(s: &str) -> (v: Vec<char>)
    ensures
        v@ == s@,
{
    let mut v: Vec<char> = Vec::new();
    for c in it: s.chars()
        invariant
            v@ == it.seq().take(it.index()),
            it.seq() == s@,
    {
        v.push(c);
    }
    v
}

/// The string of a range of characters.
pub fn string_of(v: &Vec<char>, from: usize, to: usize) -> (s: String)
    requires
        from <= to <= v@.len(),
    ensures
        s@ == v@.subrange(from as int, to as int),
{
    let mut s: String = String::new();
    let mut i: usize = from;
    while i < to
        invariant
            from <= i <= to <= v@.len(),
            s@ == v@.subrange(from as int, i as int),
        decreases to - i,
    {
        s.push(v[i]);
        i = i + 1;
    }
    s
}

/// Two strings after one another.
pub fn concat(a: &str, b: &str) -> (r: String)
    ensures
        r@ == a@ + b@,
{
    let mut r: String = a.to_owned();
    r.append(b);
    r
}

/// Appends the decimal form of `n`.
pub fn push_decimal(s: &mut String, n: u128)
    ensures
        final(s)@ == old(s)@ + decimal(n as nat),
    decreases n,
{
    if n >= 10 {
        push_decimal(s, n / 10);
    }
    let d: u8 = 48 + (n % 10) as u8;
    s.push(d as char);
    proof {
        assert(s@ =~= old(s)@ + decimal(n as nat));
    }
}

pub fn test_digit(c: char) -> (r: bool)
    ensures
        r == is_digit(c),
{
    '0' <= c && c <= '9'
}

pub fn test_space(c: char) -> (r: bool)
    ensures
        r == is_space(c),
{
    let n: u32 = c as u32;
    (9 <= n && n <= 13) || n == 0x20 || n == 0x85 || n == 0xa0 || n == 0x1680 || (0x2000 <= n && n
        <= 0x200a) || n == 0x2028 || n == 0x2029 || n == 0x202f || n == 0x205f || n == 0x3000
}

/// Where the text from `from` on starts after its leading white space.
pub fn skip_space(v: &Vec<char>, from: usize) -> (i: usize)
    requires
        from <= v@.len(),
    ensures
        from <= i <= v@.len(),
        v@.skip(i as int) == trim_start(v@.skip(from as int)),
{
    let mut i: usize = from;
    while i < v.len() && test_space(v[i])
        invariant
            from <= i <= v@.len(),
            trim_start(v@.skip(i as int)) == trim_start(v@.skip(from as int)),
        decreases v@.len() - i,
    {
        proof {
            assert(v@.skip(i as int).skip(1) =~= v@.skip(i + 1));
        }
        i = i + 1;
    }
    i
}

/// The range that is left of `[from, to)` without white space at both ends.
pub fn trim_range(v: &Vec<char>, from: usize, to: usize) -> (r: (usize, usize))
    requires
        from <= to <= v@.len(),
    ensures
        from <= r.0 <= r.1 <= to,
        v@.subrange(r.0 as int, r.1 as int) == trim(v@.subrange(from as int, to as int)),
{
    let mut i: usize = from;
    while i < to && test_space(v[i])
        invariant
            from <= i <= to <= v@.len(),
            trim_start(v@.subrange(i as int, to as int)) == trim_start(
                v@.subrange(from as int, to as int),
            ),
        decreases to - i,
    {
        proof {
            assert(v@.subrange(i as int, to as int).skip(1) =~= v@.subrange(i + 1, to as int));
        }
        i = i + 1;
    }
    let mut j: usize = to;
    while i < j && test_space(v[j - 1])
        invariant
            from <= i <= j <= to <= v@.len(),
            trim_end(v@.subrange(i as int, j as int)) == trim(
                v@.subrange(from as int, to as int),
            ),
        decreases j - i,
    {
        proof {
            assert(v@.subrange(i as int, j as int).drop_last() =~= v@.subrange(i as int, j - 1));
        }
        j = j - 1;
    }
    (i, j)
}

/// Reads the digits of `[from, to)`: how many there are at the start, and the
/// number they write, if it fits.
pub fn read_digits(v: &Vec<char>, from: usize, to: usize) -> (r: (usize, Option<usize>))
    requires
        from <= to <= v@.len(),
    ensures
        ({
            let s = v@.subrange(from as int, to as int);
            let n = digits_value(s.take(digit_run(s) as int));
            &&& r.1 == (if n <= usize::MAX {
                Some(n as usize)
            } else {
                None
            })
            &&& r.0 == digit_run(s)
        }),
{
    let ghost s = v@.subrange(from as int, to as int);
    let mut n: Option<usize> = Some(0);
    let mut i: usize = from;
    while i < to && test_digit(v[i])
        invariant
            from <= i <= to <= v@.len(),
            s == v@.subrange(from as int, to as int),
            forall|k: int| 0 <= k < i - from ==> is_digit(#[trigger] s[k]),
            n == (if digits_value(s.take(i - from)) <= usize::MAX {
                Some(digits_value(s.take(i - from)) as usize)
            } else {
                None
            }),
        decreases to - i,
    {
        let d: usize = (v[i] as u32 - 48) as usize;
        proof {
            assert(s[i - from] == v@[i as int]);
            assert(s.take(i - from + 1).drop_last() =~= s.take(i - from));
        }
        n = match n {
            Some(k) => match k.checked_mul(10) {
                Some(m) => m.checked_add(d),
                None => None,
            },
            None => None,
        };
        i = i + 1;
    }
    proof {
        lemma_digit_run_is(s, i - from);
    }
    (i - from, n)
}

/// Reads an unsigned number; see [`number`].
pub fn parse_number(v: &Vec<char>, from: usize, to: usize) -> (r: Result<usize, NumberError>)
    requires
        from <= to <= v@.len(),
    ensures
        r == number(v@.subrange(from as int, to as int)),
{
    let ghost s = v@.subrange(from as int, to as int);
    if from == to {
        return Err(NumberError::Empty);
    }
    let start: usize = if to - from > 1 && v[from] == '+' {
        from + 1
    } else {
        from
    };
    let (run, value): (usize, Option<usize>) = read_digits(v, start, to);
    proof {
        assert(s.skip(1) =~= v@.subrange(from + 1, to as int));
    }
    match value {
        None => Err(NumberError::PosOverflow),
        Some(n) => {
            if run < to - start {
                Err(NumberError::InvalidDigit)
            } else {
                Ok(n)
            }
        },
    }
}

/// The bounds of the pieces between the separators.
pub fn split_ranges(v: &Vec<char>, sep: char) -> (r: Vec<(usize, usize)>)
    ensures
        r@.len() == split(v@, sep).len(),
        forall|i: int|
            #![trigger r@[i]]
            0 <= i < r@.len() ==> r@[i].0 <= r@[i].1 <= v@.len() && v@.subrange(
                r@[i].0 as int,
                r@[i].1 as int,
            ) == split(v@, sep)[i],
{
    let mut r: Vec<(usize, usize)> = Vec::new();
    let mut start: usize = 0;
    let mut i: usize = 0;
    proof {
        assert(v@.take(0) =~= Seq::<char>::empty());
        assert(v@.subrange(0, 0) =~= Seq::<char>::empty());
    }
    while i < v.len()
        invariant
            start <= i <= v@.len(),
            split(v@.take(i as int), sep).len() == r@.len() + 1,
            split(v@.take(i as int), sep)[r@.len() as int] == v@.subrange(start as int, i as int),
            forall|k: int|
                #![trigger r@[k]]
                0 <= k < r@.len() ==> r@[k].0 <= r@[k].1 <= v@.len() && v@.subrange(
                    r@[k].0 as int,
                    r@[k].1 as int,
                ) == split(v@.take(i as int), sep)[k],
        decreases v@.len() - i,
    {
        let ghost before = split(v@.take(i as int), sep);
        proof {
            assert(v@.take(i + 1).drop_last() =~= v@.take(i as int));
            assert(v@.take(i + 1).last() == v@[i as int]);
        }
        if v[i] == sep {
            r.push((start, i));
            start = i + 1;
            proof {
                assert(v@.subrange(i + 1, i + 1) =~= Seq::<char>::empty());
            }
        } else {
            proof {
                assert(v@.subrange(start as int, i + 1) =~= v@.subrange(
                    start as int,
                    i as int,
                ).push(v@[i as int]));
            }
        }
        i = i + 1;
    }
    proof {
        assert(v@.take(v@.len() as int) =~= v@);
    }
    r.push((start, v.len()));
    r
}

/// Whether `needle` stands in `v` at `at`.
fn matches_at(v: &Vec<char>, needle: &Vec<char>, at: usize) -> (r: bool)
    requires
        at <= v@.len(),
    ensures
        r == occurs_at(v@, needle@, at as int),
{
    let len: usize = v.len();
    if needle.len() > len - at {
        return false;
    }
    let mut k: usize = 0;
    while k < needle.len()
        invariant
            k <= needle@.len(),
            at + needle@.len() <= v@.len(),
            len == v@.len(),
            forall|j: int| 0 <= j < k ==> v@[at + j] == needle@[j],
        decreases needle@.len() - k,
    {
        if v[at + k] != needle[k] {
            proof {
                assert(v@.subrange(at as int, at + needle@.len())[k as int] != needle@[k as int]);
            }
            return false;
        }
        k = k + 1;
    }
    proof {
        assert(v@.subrange(at as int, at + needle@.len()) =~= needle@);
    }
    true
}

/// The first position of `needle` in the text from `from` on, counted from
/// `from`.
pub fn find_from(v: &Vec<char>, needle: &Vec<char>, from: usize) -> (r: Option<usize>)
    requires
        from <= v@.len(),
        needle@.len() > 0,
    ensures
        match r {
            Some(at) => is_first(v@.skip(from as int), needle@, at as int),
            None => forall|p: int| !occurs_at(v@.skip(from as int), needle@, p),
        },
{
    let ghost s = v@.skip(from as int);
    let mut at: usize = from;
    while at < v.len()
        invariant
            from <= at <= v@.len(),
            s == v@.skip(from as int),
            needle@.len() > 0,
            forall|p: int| 0 <= p < at - from ==> !occurs_at(s, needle@, p),
        decreases v@.len() - at,
    {
        proof {
            if at + needle@.len() <= v@.len() {
                assert(s.subrange(at - from, at - from + needle@.len()) =~= v@.subrange(
                    at as int,
                    at + needle@.len(),
                ));
            }
        }
        if matches_at(v, needle, at) {
            return Some(at - from);
        }
        at = at + 1;
    }
    None
}

// ----- laws ------------------------------------------------------------------------

/// Trimming takes white space off both ends, all of it, and nothing else.
pub proof fn law_only_white_space_is_trimmed(s: Seq<char>)
    ensures
        trim(s).len() > 0 ==> !is_space(trim(s).first()) && !is_space(trim(s).last()),
        exists|i: int, j: int|
            {
                &&& 0 <= i <= j <= s.len()
                &&& trim(s) == #[trigger] s.subrange(i, j)
                &&& forall|k: int| 0 <= k < i || j <= k < s.len() ==> is_space(#[trigger] s[k])
            },
{
    lemma_trim_start(s);
    let front = trim_start(s);
    let i = s.len() - front.len();
    lemma_trim_end(front);
    let j = i + trim_end(front).len();
    assert(s.subrange(i, j) =~= trim(s));
    assert forall|k: int| 0 <= k < i || j <= k < s.len() implies is_space(#[trigger] s[k]) by {
        if j <= k {
            assert(front[k - i] == s[k]);
        }
    }
    if trim(s).len() > 0 {
        assert(trim(s)[0] == front[0]);
    }
}

proof fn lemma_trim_start(s: Seq<char>)
    ensures
        trim_start(s).len() <= s.len(),
        trim_start(s) == s.skip(s.len() - trim_start(s).len()),
        trim_start(s).len() > 0 ==> !is_space(trim_start(s)[0]),
        forall|k: int| 0 <= k < s.len() - trim_start(s).len() ==> is_space(#[trigger] s[k]),
    decreases s.len(),
{
    if s.len() > 0 && is_space(s[0]) {
        lemma_trim_start(s.skip(1));
        let n = trim_start(s).len();
        assert(s.skip(1).skip(s.len() - 1 - n) =~= s.skip(s.len() - n));
        assert forall|k: int| 0 <= k < s.len() - n implies is_space(#[trigger] s[k]) by {
            if k > 0 {
                assert(s.skip(1)[k - 1] == s[k]);
            }
        }
    } else {
        assert(s.skip(0) =~= s);
    }
}

proof fn lemma_trim_end(s: Seq<char>)
    ensures
        trim_end(s).len() <= s.len(),
        trim_end(s) == s.take(trim_end(s).len() as int),
        trim_end(s).len() > 0 ==> !is_space(trim_end(s).last()),
        forall|k: int| trim_end(s).len() <= k < s.len() ==> is_space(#[trigger] s[k]),
    decreases s.len(),
{
    if s.len() > 0 && is_space(s.last()) {
        lemma_trim_end(s.drop_last());
        let n = trim_end(s).len();
        assert(s.drop_last().take(n as int) =~= s.take(n as int));
        assert forall|k: int| n <= k < s.len() implies is_space(#[trigger] s[k]) by {
            if k < s.len() - 1 {
                assert(s.drop_last()[k] == s[k]);
            }
        }
    } else {
        assert(s.take(s.len() as int) =~= s);
    }
}

/// The pieces one after the other, with a separator between each two.
pub open spec fn joined(pieces: Seq<Seq<char>>, sep: char) -> Seq<char>
    decreases pieces.len(),
{
    if pieces.len() == 0 {
        Seq::empty()
    } else if pieces.len() == 1 {
        pieces[0]
    } else {
        joined(pieces.drop_last(), sep).push(sep) + pieces.last()
    }
}

/// The pieces of a text hold no separator, and make up the text again.
pub proof fn law_pieces_make_up_the_text(s: Seq<char>, sep: char)
    ensures
        split(s, sep).len() > 0,
        joined(split(s, sep), sep) == s,
        forall|i: int, k: int|
            0 <= i < split(s, sep).len() && 0 <= k < split(s, sep)[i].len() ==> #[trigger] split(
                s,
                sep,
            )[i][k] != sep,
    decreases s.len(),
{
    let pieces = split(s, sep);
    if s.len() == 0 {
        assert(joined(pieces, sep) =~= s);
    } else {
        let head = split(s.drop_last(), sep);
        law_pieces_make_up_the_text(s.drop_last(), sep);
        assert(s =~= s.drop_last().push(s.last()));
        if s.last() == sep {
            assert(pieces.drop_last() =~= head);
            assert(joined(pieces, sep) =~= s);
        } else {
            let grown = head.last().push(s.last());
            assert(pieces.drop_last() =~= head.drop_last());
            assert(pieces.last() == grown);
            if head.len() > 1 {
                let front = joined(head.drop_last(), sep).push(sep);
                assert(front + grown =~= (front + head.last()).push(s.last()));
            }
            assert(joined(pieces, sep) =~= s);
            assert forall|i: int, k: int|
                0 <= i < pieces.len() && 0 <= k < pieces[i].len() implies #[trigger] pieces[i][k]
                != sep by {
                if i < pieces.len() - 1 {
                    assert(pieces[i] == head[i]);
                    assert(head[i][k] != sep);
                } else if k < grown.len() - 1 {
                    assert(head[head.len() - 1][k] != sep);
                }
            }
        }
    }
}

/// A number is read digit by digit: a further digit counts ten times less than
/// what stands before it. The first character that is no digit, or the first
/// digit that is too much, decides whatever follows.
pub proof fn law_number_is_read_digit_by_digit(s: Seq<char>, c: char)
    ensures
        number(Seq::empty()) == Err::<usize, NumberError>(NumberError::Empty),
        is_digit(c) ==> number(seq![c]) == Ok::<usize, NumberError>((c as nat - '0' as nat) as usize),
        !is_digit(c) ==> number(seq![c]) == Err::<usize, NumberError>(NumberError::InvalidDigit),
        is_digit(c) ==> number(seq!['+', c]) == number(seq![c]),
        match number(s) {
            Ok(n) => number(s.push(c)) == (if !is_digit(c) {
                Err(NumberError::InvalidDigit)
            } else if n * 10 + (c as nat - '0' as nat) > usize::MAX {
                Err(NumberError::PosOverflow)
            } else {
                Ok((n * 10 + (c as nat - '0' as nat)) as usize)
            }),
            Err(NumberError::Empty) => s.len() == 0,
            Err(e) => s != seq!['+'] ==> number(s.push(c)) == Err::<usize, NumberError>(e),
        },
{
    assert(Seq::<char>::empty().take(0) =~= Seq::<char>::empty());
    lemma_one_digit(c);
    assert(seq!['+', c].skip(1) =~= seq![c]);
    if s.len() > 0 && s != seq!['+'] {
        let signed = s.len() > 1 && s[0] == '+';
        let body = if signed {
            s.skip(1)
        } else {
            s
        };
        if s.len() == 1 && s[0] == '+' {
            assert(s =~= seq!['+']);
        }
        assert(s.push(c).skip(1) =~= s.skip(1).push(c));
        lemma_further_digit(body, c);
    } else if s.len() > 0 {
        assert(s.take(0) =~= Seq::<char>::empty());
        lemma_one_digit('+');
    }
}

proof fn lemma_one_digit(c: char)
    ensures
        digit_run(seq![c]) == (if is_digit(c) {
            1nat
        } else {
            0
        }),
        digits_value(seq![c].take(digit_run(seq![c]) as int)) == (if is_digit(c) {
            (c as nat - 48) as nat
        } else {
            0
        }),
{
    let s = seq![c];
    lemma_digit_run_is(
        s,
        if is_digit(c) {
            1
        } else {
            0
        },
    );
    assert(s.take(1) =~= s);
    assert(s.drop_last() =~= Seq::<char>::empty());
    assert(s.take(0) =~= Seq::<char>::empty());
    assert(digits_value(s.drop_last()) == 0);
}

proof fn lemma_further_digit(s: Seq<char>, c: char)
    ensures
        ({
            let run = digit_run(s);
            let further = digit_run(s.push(c));
            let value = digits_value(s.take(run as int));
            let next = digits_value(s.push(c).take(further as int));
            &&& run <= s.len()
            &&& if run == s.len() && is_digit(c) {
                further == run + 1 && next == value * 10 + (c as nat - 48) as nat
            } else {
                further == run && next == value
            }
        }),
{
    let run = digit_run(s);
    let t = s.push(c);
    lemma_digit_run_bound(s);
    assert forall|i: int| 0 <= i < run implies is_digit(#[trigger] t[i]) by {
        assert(t[i] == s[i]);
    }
    if run == s.len() && is_digit(c) {
        lemma_digit_run_is(t, run as int + 1);
        assert(t.take(run as int + 1) =~= t);
        assert(t.drop_last() =~= s.take(run as int));
    } else {
        lemma_digit_run_is(t, run as int);
        assert(t.take(run as int) =~= s.take(run as int));
    }
}

} // verus!
