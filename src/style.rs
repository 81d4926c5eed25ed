//! The colour layer specification `fg,bg` that follows an opening brace.

use vstd::prelude::*;

verus! {

/// The colours of one layer: a foreground and a background of the 256-colour palette.
#[derive(Copy, Clone, PartialEq, Eq, Structural, Debug)]
pub struct Style {
    pub fg: u8,
    pub bg: u8,
}

/// Why a field does not read as an unsigned 8-bit integer.
#[derive(Copy, Clone, PartialEq, Eq, Structural, Debug)]
pub enum IntError {
    /// The field is empty.
    Empty,
    /// The field holds a character that is not a decimal digit.
    InvalidDigit,
    /// The number is larger than 255.
    PosOverflow,
}

/// Why a layer specification was refused.
#[derive(Copy, Clone, PartialEq, Eq, Structural, Debug)]
pub enum StyleError {
    /// The specification does not hold exactly one comma.
    Shape,
    /// The foreground field is not a number in `0..=255`.
    Foreground(IntError),
    /// The background field is not a number in `0..=255`.
    Background(IntError),
}

/// Unicode's `White_Space` property.
pub open spec fn is_space(c: char) -> bool {
    let u = c as u32;
    ||| u == 0x20
    ||| 0x09 <= u <= 0x0d
    ||| u == 0x85
    ||| u == 0xa0
    ||| u == 0x1680
    ||| 0x2000 <= u <= 0x200a
    ||| u == 0x2028
    ||| u == 0x2029
    ||| u == 0x202f
    ||| u == 0x205f
    ||| u == 0x3000
}

/// `s` without its leading white space.
pub open spec fn trim_start(s: Seq<char>) -> Seq<char>
    decreases s.len(),
{
    if s.len() > 0 && is_space(s[0]) {
        trim_start(s.drop_first())
    } else {
        s
    }
}

/// `s` without its trailing white space.
pub open spec fn trim_end(s: Seq<char>) -> Seq<char>
    decreases s.len(),
{
    if s.len() > 0 && is_space(s.last()) {
        trim_end(s.drop_last())
    } else {
        s
    }
}

/// `s` without white space at either end.
pub open spec fn trimmed(s: Seq<char>) -> Seq<char> {
    trim_end(trim_start(s))
}

pub open spec fn is_digit(c: char) -> bool {
    0x30 <= c as u32 <= 0x39
}

pub open spec fn digit_value(c: char) -> nat {
    (c as u32 - 0x30) as nat
}

/// Reads the digits of `s` onto the value `acc` read so far, stopping at the
/// first character that is no digit or that makes the value exceed 255.
pub open spec fn read_digits(s: Seq<char>, acc: nat) -> Result<u8, IntError>
    decreases s.len(),
{
    if s.len() == 0 {
        Ok(acc as u8)
    } else if !is_digit(s[0]) {
        Err(IntError::InvalidDigit)
    } else if acc * 10 + digit_value(s[0]) > 255 {
        Err(IntError::PosOverflow)
    } else {
        read_digits(s.drop_first(), acc * 10 + digit_value(s[0]))
    }
}

/// `s` read as an unsigned 8-bit integer: an optional `+` and decimal digits.
pub open spec fn parse_u8(s: Seq<char>) -> Result<u8, IntError> {
    if s.len() == 0 {
        Err(IntError::Empty)
    } else if s[0] == '+' {
        if s.len() == 1 {
            Err(IntError::InvalidDigit)
        } else {
            read_digits(s.drop_first(), 0)
        }
    } else {
        read_digits(s, 0)
    }
}

/// How many times `c` occurs in `s`.
pub open spec fn count_char(s: Seq<char>, c: char) -> nat
    decreases s.len(),
{
    if s.len() == 0 {
        0
    } else {
        (if s[0] == c { 1nat } else { 0nat }) + count_char(s.drop_first(), c)
    }
}

/// The index of the first `c` in `s`, or its length where there is none.
pub open spec fn first_index(s: Seq<char>, c: char) -> nat
    decreases s.len(),
{
    if s.len() == 0 || s[0] == c {
        0
    } else {
        1 + first_index(s.drop_first(), c)
    }
}

/// The layer that the specification `meta` describes: two fields parted by
/// the one comma, each read as a number once white space is trimmed.
pub open spec fn style_of(meta: Seq<char>) -> Result<Style, StyleError> {
    if count_char(meta, ',') != 1 {
        Err(StyleError::Shape)
    } else {
        let k = first_index(meta, ',') as int;
        match parse_u8(trimmed(meta.take(k))) {
            Err(e) => Err(StyleError::Foreground(e)),
            Ok(fg) => match parse_u8(trimmed(meta.skip(k + 1))) {
                Err(e) => Err(StyleError::Background(e)),
                Ok(bg) => Ok(Style { fg, bg }),
            },
        }
    }
}

fn is_space_char(c: char) -> (r: bool)
    ensures
        r == is_space(c),
{
    let u = c as u32;
    u == 0x20 || (0x09 <= u && u <= 0x0d) || u == 0x85 || u == 0xa0 || u == 0x1680 || (0x2000 <= u
        && u <= 0x200a) || u == 0x2028 || u == 0x2029 || u == 0x202f || u == 0x205f || u == 0x3000
}

/// The bounds of `t[lo..hi]` once white space is trimmed from both ends.
pub fn trim_range(t: &Vec<char>, lo: usize, hi: usize) -> (r: (usize, usize))
    requires
        lo <= hi <= t.len(),
    ensures
        lo <= r.0 <= r.1 <= hi,
        t@.subrange(r.0 as int, r.1 as int) == trimmed(t@.subrange(lo as int, hi as int)),
{
    let mut a = lo;
    while a < hi && is_space_char(t[a])
        invariant
            lo <= a <= hi <= t.len(),
            trim_start(t@.subrange(lo as int, hi as int)) == trim_start(
                t@.subrange(a as int, hi as int),
            ),
        decreases hi - a,
    {
        assert(t@.subrange(a as int, hi as int).drop_first() =~= t@.subrange(a + 1, hi as int));
        a = a + 1;
    }
    let mut b = hi;
    while b > a && is_space_char(t[b - 1])
        invariant
            lo <= a <= b <= hi <= t.len(),
            trim_end(t@.subrange(a as int, hi as int)) == trim_end(t@.subrange(a as int, b as int)),
        decreases b - a,
    {
        assert(t@.subrange(a as int, b as int).drop_last() =~= t@.subrange(a as int, b - 1));
        b = b - 1;
    }
    (a, b)
}

/// Reads `t[lo..hi]` as an unsigned 8-bit integer.
pub fn parse_u8_range(t: &Vec<char>, lo: usize, hi: usize) -> (r: Result<u8, IntError>)
    requires
        lo <= hi <= t.len(),
    ensures
        r == parse_u8(t@.subrange(lo as int, hi as int)),
{
    let ghost s = t@.subrange(lo as int, hi as int);
    if lo == hi {
        return Err(IntError::Empty);
    }
    let mut p = lo;
    if t[lo] == '+' {
        if lo + 1 == hi {
            return Err(IntError::InvalidDigit);
        }
        assert(s.drop_first() =~= t@.subrange(lo + 1, hi as int));
        p = lo + 1;
    }
    let mut acc: u32 = 0;
    while p < hi
        invariant
            lo <= p <= hi <= t.len(),
            acc <= 255,
            s == t@.subrange(lo as int, hi as int),
            parse_u8(s) == read_digits(t@.subrange(p as int, hi as int), acc as nat),
        decreases hi - p,
    {
        let ghost rest = t@.subrange(p as int, hi as int);
        assert(rest[0] == t@[p as int]);
        let u = t[p] as u32;
        if u < 0x30 || u > 0x39 {
            assert(!is_digit(rest[0]));
            return Err(IntError::InvalidDigit);
        }
        let v = acc * 10 + (u - 0x30);
        assert(v == acc * 10 + digit_value(rest[0]));
        if v > 255 {
            return Err(IntError::PosOverflow);
        }
        assert(rest.drop_first() =~= t@.subrange(p + 1, hi as int));
        acc = v;
        p = p + 1;
    }
    Ok(acc as u8)
}

/// How many characters from `i` on come before the next `:` or the end of `t`.
pub open spec fn meta_len(t: Seq<char>, i: int) -> nat
    decreases t.len() - i,
{
    if i >= t.len() || t[i] == ':' {
        0
    } else {
        1 + meta_len(t, i + 1)
    }
}

/// The index of the first `:` in `t` at or after `i`, or the length of `t`.
pub open spec fn colon_at(t: Seq<char>, i: int) -> int {
    i + meta_len(t, i)
}

/// Where scanning goes on once the specification that starts at `i` is read:
/// past its `:`, or at the end of `t` where no `:` follows.
pub open spec fn style_end(t: Seq<char>, i: int) -> int {
    if colon_at(t, i) < t.len() {
        colon_at(t, i) + 1
    } else {
        t.len() as int
    }
}

/// The layer specification that starts at `i`: everything up to the next `:`.
pub open spec fn style_at(t: Seq<char>, i: int) -> Result<Style, StyleError> {
    style_of(t.subrange(i, colon_at(t, i)))
}

proof fn lemma_colon_at_bounds(t: Seq<char>, i: int)
    requires
        0 <= i <= t.len(),
    ensures
        i <= colon_at(t, i) <= t.len(),
        colon_at(t, i) < t.len() ==> t[colon_at(t, i)] == ':',
    decreases t.len() - i,
{
    if i < t.len() && t[i] != ':' {
        lemma_colon_at_bounds(t, i + 1);
    }
    assert(colon_at(t, i) <= t.len());
}

/// Reads the layer specification of `t` that starts at `i`, just after an
/// opening brace, and returns it with the index where scanning goes on.
pub fn parse_style(t: &Vec<char>, i: usize) -> (r: Result<(Style, usize), StyleError>)
    requires
        i <= t.len(),
    ensures
        match r {
            Ok((style, next)) => style_at(t@, i as int) == Ok::<Style, StyleError>(style) && next
                == style_end(t@, i as int),
            Err(e) => style_at(t@, i as int) == Err::<Style, StyleError>(e),
        },
{
    let ghost c = colon_at(t@, i as int);
    proof {
        lemma_colon_at_bounds(t@, i as int);
    }
    let mut j = i;
    while j < t.len() && t[j] != ':'
        invariant
            i <= j <= t.len(),
            c == colon_at(t@, i as int),
            colon_at(t@, j as int) == c,
        decreases t.len() - j,
    {
        j = j + 1;
    }
    let ghost meta = t@.subrange(i as int, j as int);
    let next = if j < t.len() {
        j + 1
    } else {
        j
    };
    // the first comma
    let mut k = i;
    while k < j && t[k] != ','
        invariant
            i <= k <= j <= t.len(),
            meta == t@.subrange(i as int, j as int),
            first_index(meta, ',') == (k - i) + first_index(t@.subrange(k as int, j as int), ','),
            count_char(meta, ',') == count_char(t@.subrange(k as int, j as int), ','),
        decreases j - k,
    {
        assert(t@.subrange(k as int, j as int).drop_first() =~= t@.subrange(k + 1, j as int));
        k = k + 1;
    }
    if k == j {
        return Err(StyleError::Shape);
    }
    assert(t@.subrange(k as int, j as int).drop_first() =~= t@.subrange(k + 1, j as int));
    // any comma after it
    let mut q = k + 1;
    while q < j && t[q] != ','
        invariant
            k < q <= j <= t.len(),
            meta == t@.subrange(i as int, j as int),
            first_index(meta, ',') == k - i,
            count_char(meta, ',') == 1 + count_char(t@.subrange(q as int, j as int), ','),
        decreases j - q,
    {
        assert(t@.subrange(q as int, j as int).drop_first() =~= t@.subrange(q + 1, j as int));
        q = q + 1;
    }
    if q < j {
        assert(t@.subrange(q as int, j as int).drop_first() =~= t@.subrange(q + 1, j as int));
        return Err(StyleError::Shape);
    }
    assert(meta.take(k - i) =~= t@.subrange(i as int, k as int));
    assert(meta.skip(k - i + 1) =~= t@.subrange(k + 1, j as int));
    let (a, b) = trim_range(t, i, k);
    let fg = match parse_u8_range(t, a, b) {
        Ok(v) => v,
        Err(e) => return Err(StyleError::Foreground(e)),
    };
    let (a, b) = trim_range(t, k + 1, j);
    let bg = match parse_u8_range(t, a, b) {
        Ok(v) => v,
        Err(e) => return Err(StyleError::Background(e)),
    };
    Ok((Style { fg, bg }, next))
}

} // verus!
