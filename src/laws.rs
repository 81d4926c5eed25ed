//! Properties of template expansion that hold for all inputs of a shape.

use vstd::prelude::*;
use crate::escape::{decimal, digit_char, escape_code, Escape, Shell};
use crate::style::{
    count_char, digit_value, first_index, is_digit, is_space, meta_len, parse_u8, read_digits,
    style_at, style_end, style_of, trim_end, trim_start, trimmed, IntError, Style, StyleError,
};
use crate::template::{
    brace_text, close_edge, expansion, open_edge, scan, top, TemplateError, CLOSE_BRACE,
    CLOSE_GLYPH, OPEN_BRACE, OPEN_GLYPH,
};

verus! {

/// `s` holds no brace.
pub open spec fn plain(s: Seq<char>) -> bool {
    forall|k: int| 0 <= k < s.len() ==> s[k] != OPEN_BRACE && s[k] != CLOSE_BRACE
}

/// The specification `fg,bg` with both numbers in decimal.
pub open spec fn layer_spec(fg: nat, bg: nat) -> Seq<char> {
    decimal(fg) + seq![','] + decimal(bg)
}

/// The template `{fg,bg:text}`.
pub open spec fn layer(fg: u8, bg: u8, text: Seq<char>) -> Seq<char> {
    seq![OPEN_BRACE] + layer_spec(fg as nat, bg as nat) + seq![':'] + text + seq![CLOSE_BRACE]
}

proof fn lemma_digit_char(d: int)
    requires
        0 <= d < 10,
    ensures
        is_digit(digit_char(d)),
        digit_value(digit_char(d)) == d,
        d > 0 ==> digit_char(d) != '0',
{
}

proof fn lemma_decimal_digits(n: nat)
    ensures
        decimal(n).len() >= 1,
        forall|k: int| 0 <= k < decimal(n).len() ==> is_digit(#[trigger] decimal(n)[k]),
        n > 0 ==> decimal(n)[0] != '0',
    decreases n,
{
    if n < 10 {
        lemma_digit_char(n as int);
    } else {
        lemma_decimal_digits(n / 10);
        lemma_digit_char((n % 10) as int);
        assert forall|k: int| 0 <= k < decimal(n).len() implies is_digit(#[trigger] decimal(n)[k]) by {
            if k < decimal(n / 10).len() {
                assert(decimal(n)[k] == decimal(n / 10)[k]);
            }
        }
    }
}

proof fn lemma_read_digits_push(s: Seq<char>, c: char, acc: nat)
    requires
        is_digit(c),
        acc <= 255,
    ensures
        read_digits(s.push(c), acc) == match read_digits(s, acc) {
            Ok(v) => if v * 10 + digit_value(c) > 255 {
                Err(IntError::PosOverflow)
            } else {
                Ok((v * 10 + digit_value(c)) as u8)
            },
            Err(e) => Err::<u8, IntError>(e),
        },
    decreases s.len(),
{
    if s.len() == 0 {
        assert(s.push(c).drop_first() =~= Seq::<char>::empty());
        assert(read_digits(s, acc) == Ok::<u8, IntError>(acc as u8));
        let v = acc * 10 + digit_value(c);
        if v <= 255 {
            assert(read_digits(Seq::<char>::empty(), v) == Ok::<u8, IntError>(v as u8));
        }
    } else {
        assert(s.push(c).drop_first() =~= s.drop_first().push(c));
        assert(s.push(c)[0] == s[0]);
        if is_digit(s[0]) && acc * 10 + digit_value(s[0]) <= 255 {
            lemma_read_digits_push(s.drop_first(), c, acc * 10 + digit_value(s[0]));
        }
    }
}

proof fn lemma_read_decimal(n: nat)
    ensures
        read_digits(decimal(n), 0) == if n <= 255 {
            Ok::<u8, IntError>(n as u8)
        } else {
            Err(IntError::PosOverflow)
        },
    decreases n,
{
    if n < 10 {
        lemma_digit_char(n as int);
        let s = decimal(n);
        assert(s.drop_first() =~= Seq::<char>::empty());
        assert(s[0] == digit_char(n as int));
        assert(read_digits(Seq::<char>::empty(), n) == Ok::<u8, IntError>(n as u8));
    } else {
        lemma_read_decimal(n / 10);
        lemma_digit_char((n % 10) as int);
        lemma_read_digits_push(decimal(n / 10), digit_char((n % 10) as int), 0);
        assert(n / 10 * 10 + n % 10 == n);
    }
}

proof fn lemma_digits_untrimmed(s: Seq<char>)
    requires
        s.len() >= 1,
        forall|k: int| 0 <= k < s.len() ==> is_digit(#[trigger] s[k]),
    ensures
        trimmed(s) == s,
{
    assert(!is_space(s[0]));
    assert(!is_space(s.last()));
}

/// Reading a number back from its decimal form gives the number when it is
/// at most 255, and an overflow otherwise; the decimal form holds digits
/// alone, without a sign, and starts with `0` only for zero itself.
pub proof fn lemma_decimal_round_trip(n: nat)
    ensures
        parse_u8(trimmed(decimal(n))) == if n <= 255 {
            Ok::<u8, IntError>(n as u8)
        } else {
            Err(IntError::PosOverflow)
        },
        forall|k: int| 0 <= k < decimal(n).len() ==> is_digit(#[trigger] decimal(n)[k]),
        n > 0 ==> decimal(n)[0] != '0',
        n < 10 ==> decimal(n).len() == 1,
{
    lemma_decimal_digits(n);
    lemma_digits_untrimmed(decimal(n));
    lemma_read_decimal(n);
    assert(is_digit(decimal(n)[0]));
}

proof fn lemma_count_concat(a: Seq<char>, b: Seq<char>, c: char)
    ensures
        count_char(a + b, c) == count_char(a, c) + count_char(b, c),
    decreases a.len(),
{
    if a.len() == 0 {
        assert(a + b =~= b);
    } else {
        assert((a + b).drop_first() =~= a.drop_first() + b);
        lemma_count_concat(a.drop_first(), b, c);
    }
}

proof fn lemma_count_none(s: Seq<char>, c: char)
    requires
        forall|k: int| 0 <= k < s.len() ==> s[k] != c,
    ensures
        count_char(s, c) == 0,
        first_index(s, c) == s.len(),
    decreases s.len(),
{
    if s.len() > 0 {
        lemma_count_none(s.drop_first(), c);
    }
}

proof fn lemma_first_index_concat(a: Seq<char>, b: Seq<char>, c: char)
    requires
        forall|k: int| 0 <= k < a.len() ==> a[k] != c,
    ensures
        first_index(a + b, c) == a.len() + first_index(b, c),
    decreases a.len(),
{
    if a.len() == 0 {
        assert(a + b =~= b);
    } else {
        assert((a + b).drop_first() =~= a.drop_first() + b);
        lemma_first_index_concat(a.drop_first(), b, c);
    }
}

/// A specification made of two comma-free fields parted by a comma is read
/// field by field: the foreground first, then the background.
pub proof fn lemma_style_of_fields(a: Seq<char>, b: Seq<char>)
    requires
        forall|k: int| 0 <= k < a.len() ==> a[k] != ',',
        forall|k: int| 0 <= k < b.len() ==> b[k] != ',',
    ensures
        style_of(a + seq![','] + b) == match parse_u8(trimmed(a)) {
            Err(e) => Err(StyleError::Foreground(e)),
            Ok(fg) => match parse_u8(trimmed(b)) {
                Err(e) => Err(StyleError::Background(e)),
                Ok(bg) => Ok(Style { fg, bg }),
            },
        },
{
    let m = a + seq![','] + b;
    lemma_count_none(a, ',');
    lemma_count_none(b, ',');
    lemma_count_concat(a + seq![','], b, ',');
    lemma_count_concat(a, seq![','], ',');
    let one = seq![','];
    assert(one[0] == ',');
    assert(one.drop_first() =~= Seq::<char>::empty());
    assert(count_char(Seq::<char>::empty(), ',') == 0);
    assert(count_char(one, ',') == 1);
    assert(m =~= a + (seq![','] + b));
    lemma_first_index_concat(a, seq![','] + b, ',');
    assert(first_index(m, ',') == a.len());
    assert(m.take(a.len() as int) =~= a);
    assert(m.skip(a.len() as int + 1) =~= b);
}

proof fn lemma_decimal_no_mark(n: nat)
    ensures
        forall|k: int|
            0 <= k < decimal(n).len() ==> #[trigger] decimal(n)[k] != ',' && decimal(n)[k] != ':'
                && decimal(n)[k] != OPEN_BRACE && decimal(n)[k] != CLOSE_BRACE,
{
    lemma_decimal_digits(n);
}

/// The specification `fg,bg` written in decimal gives the layer with those
/// colours where both are at most 255, and otherwise the error of the first
/// field that is too large.
pub proof fn lemma_style_of_layer_spec(fg: nat, bg: nat)
    ensures
        style_of(layer_spec(fg, bg)) == if fg > 255 {
            Err(StyleError::Foreground(IntError::PosOverflow))
        } else if bg > 255 {
            Err(StyleError::Background(IntError::PosOverflow))
        } else {
            Ok::<Style, StyleError>(Style { fg: fg as u8, bg: bg as u8 })
        },
{
    lemma_decimal_no_mark(fg);
    lemma_decimal_no_mark(bg);
    lemma_decimal_round_trip(fg);
    lemma_decimal_round_trip(bg);
    lemma_style_of_fields(decimal(fg), decimal(bg));
}

proof fn lemma_meta_len(t: Seq<char>, i: int, j: int)
    requires
        0 <= i <= j <= t.len(),
        forall|k: int| i <= k < j ==> t[k] != ':',
        j == t.len() || t[j] == ':',
    ensures
        meta_len(t, i) == j - i,
    decreases j - i,
{
    if i < j {
        lemma_meta_len(t, i + 1, j);
    }
}

/// Scanning characters that hold no brace, with no brace pending, copies them.
proof fn lemma_literal(
    t: Seq<char>,
    i: int,
    j: int,
    stack: Seq<Style>,
    active: Option<Style>,
    out: Seq<char>,
    shell: Shell,
)
    requires
        0 <= i <= j <= t.len(),
        plain(t.subrange(i, j)),
    ensures
        scan(t, i, stack, active, None, out, shell) == scan(
            t,
            j,
            stack,
            active,
            None,
            out + t.subrange(i, j),
            shell,
        ),
    decreases j - i,
{
    if i == j {
        assert(out + t.subrange(i, j) =~= out);
    } else {
        assert(t.subrange(i, j)[0] == t[i]);
        assert(t.subrange(i + 1, j) =~= t.subrange(i, j).drop_first());
        assert(plain(t.subrange(i + 1, j)));
        lemma_literal(t, i + 1, j, stack, active, out.push(t[i]), shell);
        assert(out.push(t[i]) + t.subrange(i + 1, j) =~= out + t.subrange(i, j));
    }
}

/// What is written before the character at hand when a brace is pending and
/// that character differs from it.
pub open spec fn flushed(
    pending: Option<char>,
    active: Option<Style>,
    stack: Seq<Style>,
    out: Seq<char>,
    shell: Shell,
) -> Seq<char> {
    match pending {
        Some(b) => out + brace_text(b, active, top(stack), shell),
        None => out,
    }
}

/// The layer in effect once a pending brace has been written.
pub open spec fn settled(pending: Option<char>, active: Option<Style>, stack: Seq<Style>) -> Option<
    Style,
> {
    match pending {
        Some(b) => top(stack),
        None => active,
    }
}

/// Scanning a non-empty run of characters that hold no brace first writes
/// the pending brace, then copies them.
proof fn lemma_text(
    t: Seq<char>,
    i: int,
    j: int,
    stack: Seq<Style>,
    active: Option<Style>,
    pending: Option<char>,
    out: Seq<char>,
    shell: Shell,
)
    requires
        0 <= i < j <= t.len(),
        plain(t.subrange(i, j)),
        pending is Some ==> pending->0 == OPEN_BRACE || pending->0 == CLOSE_BRACE,
    ensures
        scan(t, i, stack, active, pending, out, shell) == scan(
            t,
            j,
            stack,
            settled(pending, active, stack),
            None,
            flushed(pending, active, stack, out, shell) + t.subrange(i, j),
            shell,
        ),
{
    assert(t.subrange(i, j)[0] == t[i]);
    assert(t.subrange(i + 1, j) =~= t.subrange(i, j).drop_first());
    let out1 = flushed(pending, active, stack, out, shell);
    let active1 = settled(pending, active, stack);
    assert(plain(t.subrange(i + 1, j)));
    lemma_literal(t, i + 1, j, stack, active1, out1.push(t[i]), shell);
    assert(out1.push(t[i]) + t.subrange(i + 1, j) =~= out1 + t.subrange(i, j));
}

/// Scanning an opening brace followed by the specification `m` and a colon.
proof fn lemma_open(
    t: Seq<char>,
    i: int,
    m: Seq<char>,
    stack: Seq<Style>,
    active: Option<Style>,
    pending: Option<char>,
    out: Seq<char>,
    shell: Shell,
)
    requires
        0 <= i,
        i + m.len() + 2 <= t.len(),
        t[i] == OPEN_BRACE,
        t.subrange(i + 1, i + 1 + m.len()) == m,
        t[i + 1 + m.len()] == ':',
        forall|k: int| 0 <= k < m.len() ==> m[k] != ':',
        pending != Some(OPEN_BRACE),
    ensures
        scan(t, i, stack, active, pending, out, shell) == match style_of(m) {
            Err(e) => Err(TemplateError::Style(e)),
            Ok(s) => scan(
                t,
                i + m.len() + 2,
                stack.push(s),
                settled(pending, active, stack),
                Some(OPEN_BRACE),
                flushed(pending, active, stack, out, shell),
                shell,
            ),
        },
{
    let c = i + 1 + m.len();
    assert forall|k: int| i + 1 <= k < c implies t[k] != ':' by {
        assert(t[k] == m[k - i - 1]);
    }
    lemma_meta_len(t, i + 1, c);
    assert(t.subrange(i + 1, c) == m);
    assert(style_at(t, i + 1) == style_of(m));
    assert(style_end(t, i + 1) == c + 1);
}

/// Scanning one whole layer `{fg,bg:x}` whose text holds no brace, when no
/// opening brace is pending: the pending brace, the layer's leading edge and
/// its text are written, and its trailing edge is left pending.
proof fn lemma_layer(
    t: Seq<char>,
    i: int,
    fg: u8,
    bg: u8,
    x: Seq<char>,
    stack: Seq<Style>,
    active: Option<Style>,
    pending: Option<char>,
    out: Seq<char>,
    shell: Shell,
)
    requires
        0 <= i,
        i + layer(fg, bg, x).len() <= t.len(),
        t.subrange(i, i + layer(fg, bg, x).len()) == layer(fg, bg, x),
        plain(x),
        pending is None || pending == Some(CLOSE_BRACE),
    ensures
        scan(t, i, stack, active, pending, out, shell) == scan(
            t,
            i + layer(fg, bg, x).len(),
            stack,
            Some(Style { fg, bg }),
            Some(CLOSE_BRACE),
            flushed(pending, active, stack, out, shell) + open_edge(Style { fg, bg }, shell) + x,
            shell,
        ),
{
    let l = layer(fg, bg, x);
    let m = layer_spec(fg as nat, bg as nat);
    let ml = m.len() as int;
    let s = Style { fg, bg };
    let st = stack.push(s);
    let active1 = settled(pending, active, stack);
    let out1 = flushed(pending, active, stack, out, shell);
    let p = i + m.len() + 2;
    let q = p + x.len();
    lemma_decimal_no_mark(fg as nat);
    lemma_decimal_no_mark(bg as nat);
    assert forall|k: int| 0 <= k < m.len() implies m[k] != ':' by {
        if k < decimal(fg as nat).len() {
            assert(m[k] == decimal(fg as nat)[k]);
        } else if k > decimal(fg as nat).len() {
            assert(m[k] == decimal(bg as nat)[k - decimal(fg as nat).len() - 1]);
        }
    }
    assert(t[i] == l[0]);
    assert(t.subrange(i + 1, i + 1 + ml) =~= l.subrange(1, 1 + ml));
    assert(l.subrange(1, 1 + ml) =~= m);
    assert(t[i + 1 + m.len()] == l[1 + ml]);
    lemma_style_of_layer_spec(fg as nat, bg as nat);
    lemma_open(t, i, m, stack, active, pending, out, shell);
    assert(t[q] == l[l.len() - 1]);
    assert(st.drop_last() =~= stack);
    assert(top(st) == Some(s));
    if x.len() > 0 {
        assert(t.subrange(p, q) =~= x) by {
            assert forall|k: int| 0 <= k < x.len() implies t.subrange(p, q)[k] == x[k] by {
                assert(t[p + k] == l[m.len() + 2 + k]);
            }
        }
        lemma_text(t, p, q, st, active1, Some(OPEN_BRACE), out1, shell);
    } else {
        assert(out1 + open_edge(s, shell) + x =~= out1 + open_edge(s, shell));
    }
}

/// The text that the single layer `s` around `text` expands to.
pub open spec fn layer_output(s: Style, text: Seq<char>, shell: Shell) -> Seq<char> {
    open_edge(s, shell) + text + close_edge(Some(s), None, shell)
}

/// A single layer `{fg,bg:text}` whose text holds no brace expands to its
/// leading edge (the background as foreground, the opening glyph, the
/// foreground, the background), the text, and its trailing edge (a reset,
/// the background as foreground, the closing glyph, a reset).
pub proof fn lemma_single_layer(fg: u8, bg: u8, text: Seq<char>, shell: Shell)
    requires
        plain(text),
    ensures
        expansion(layer(fg, bg, text), shell) == Ok::<Seq<char>, TemplateError>(
            escape_code(Escape::Foreground(bg), shell) + seq![OPEN_GLYPH] + escape_code(
                Escape::Foreground(fg),
                shell,
            ) + escape_code(Escape::Background(bg), shell) + text + escape_code(Escape::Reset, shell)
                + escape_code(Escape::Foreground(bg), shell) + seq![CLOSE_GLYPH] + escape_code(
                Escape::Reset,
                shell,
            ),
        ),
        expansion(layer(fg, bg, text), shell) == Ok::<Seq<char>, TemplateError>(
            layer_output(Style { fg, bg }, text, shell),
        ),
{
    let t = layer(fg, bg, text);
    assert(t.subrange(0, t.len() as int) =~= t);
    lemma_layer(t, 0, fg, bg, text, Seq::empty(), None, None, Seq::empty(), shell);
    let s = Style { fg, bg };
    assert(Seq::<char>::empty() + open_edge(s, shell) + text + brace_text(CLOSE_BRACE, Some(s), None, shell)
        =~= layer_output(s, text, shell));
    assert(layer_output(s, text, shell) =~= escape_code(Escape::Foreground(bg), shell) + seq![OPEN_GLYPH]
        + escape_code(Escape::Foreground(fg), shell) + escape_code(Escape::Background(bg), shell)
        + text + escape_code(Escape::Reset, shell) + escape_code(Escape::Foreground(bg), shell)
        + seq![CLOSE_GLYPH] + escape_code(Escape::Reset, shell));
}

proof fn lemma_two_layers_scan(
    a: u8,
    b: u8,
    x: Seq<char>,
    m: Seq<char>,
    c: u8,
    d: u8,
    y: Seq<char>,
    shell: Shell,
)
    requires
        plain(x),
        plain(m),
        plain(y),
    ensures
        expansion(layer(a, b, x) + m + layer(c, d, y), shell) == Ok::<Seq<char>, TemplateError>(
            layer_output(Style { fg: a, bg: b }, x, shell) + m + layer_output(Style { fg: c, bg: d }, y, shell),
        ),
{
    let l1 = layer(a, b, x);
    let l2 = layer(c, d, y);
    let t = l1 + m + l2;
    let s1 = Style { fg: a, bg: b };
    let s2 = Style { fg: c, bg: d };
    let n1 = l1.len() as int;
    let n2 = n1 + m.len();
    let e: Seq<Style> = Seq::empty();
    assert(t.subrange(0, n1) =~= l1);
    assert(t.subrange(n2, t.len() as int) =~= l2);
    lemma_layer(t, 0, a, b, x, e, None, None, Seq::empty(), shell);
    let o1 = Seq::<char>::empty() + open_edge(s1, shell) + x;
    assert(expansion(t, shell) == scan(t, n1, e, Some(s1), Some(CLOSE_BRACE), o1, shell));
    let o2 = o1 + close_edge(Some(s1), None, shell) + m;
    assert(t.subrange(n1, n2) =~= m);
    assert(t[n2] == l2[0]);
    lemma_between_layers(t, n1, n2, s1, o1, shell);
    assert(scan(t, n1, e, Some(s1), Some(CLOSE_BRACE), o1, shell) == scan(t, n2, e, None, None, o2, shell));
    lemma_layer(t, n2, c, d, y, e, None, None, o2, shell);
    let o3 = o2 + open_edge(s2, shell) + y;
    assert(expansion(t, shell) == scan(t, t.len() as int, e, Some(s2), Some(CLOSE_BRACE), o3, shell));
    assert(o3 + brace_text(CLOSE_BRACE, Some(s2), None, shell) =~= layer_output(s1, x, shell) + m
        + layer_output(s2, y, shell));
}

/// Between two layers at the outermost level, the first one's trailing
/// edge is written before the text that separates them, or before the
/// second layer's opening brace where there is none.
proof fn lemma_between_layers(
    t: Seq<char>,
    n1: int,
    n2: int,
    s1: Style,
    out: Seq<char>,
    shell: Shell,
)
    requires
        0 <= n1 <= n2 < t.len(),
        plain(t.subrange(n1, n2)),
        t[n2] == OPEN_BRACE,
    ensures
        scan(t, n1, Seq::empty(), Some(s1), Some(CLOSE_BRACE), out, shell) == scan(
            t,
            n2,
            Seq::empty(),
            None,
            None,
            out + close_edge(Some(s1), None, shell) + t.subrange(n1, n2),
            shell,
        ),
{
    if n1 < n2 {
        lemma_text(t, n1, n2, Seq::empty(), Some(s1), Some(CLOSE_BRACE), out, shell);
    } else {
        assert(out + close_edge(Some(s1), None, shell) + t.subrange(n1, n2) =~= out + close_edge(
            Some(s1),
            None,
            shell,
        ));
        assert(brace_text(CLOSE_BRACE, Some(s1), top(Seq::<Style>::empty()), shell) == close_edge(Some(s1), None, shell));
    }
}

/// Two layers side by side, with text between them that holds no brace,
/// expand to what each expands to alone, with that text in between.
pub proof fn lemma_adjacent_layers(
    a: u8,
    b: u8,
    x: Seq<char>,
    m: Seq<char>,
    c: u8,
    d: u8,
    y: Seq<char>,
    shell: Shell,
)
    requires
        plain(x),
        plain(m),
        plain(y),
    ensures
        expansion(layer(a, b, x) + m + layer(c, d, y), shell) == Ok::<Seq<char>, TemplateError>(
            expansion(layer(a, b, x), shell)->Ok_0 + m + expansion(layer(c, d, y), shell)->Ok_0,
        ),
        expansion(layer(a, b, x), shell) is Ok,
        expansion(layer(c, d, y), shell) is Ok,
{
    lemma_single_layer(a, b, x, shell);
    lemma_single_layer(c, d, y, shell);
    lemma_two_layers_scan(a, b, x, m, c, d, y, shell);
}

/// A layer that opens after some text of its parent and closes right where
/// the parent closes: no trailing edge of the parent is written before the
/// child's leading edge, and at the end only the child's trailing edge is
/// written, which resets all colours.
pub proof fn lemma_closing_together(
    a: u8,
    b: u8,
    x: Seq<char>,
    c: u8,
    d: u8,
    y: Seq<char>,
    shell: Shell,
)
    requires
        plain(x),
        x.len() > 0,
        plain(y),
    ensures
        expansion(
            seq![OPEN_BRACE] + layer_spec(a as nat, b as nat) + seq![':'] + x + layer(c, d, y)
                + seq![CLOSE_BRACE],
            shell,
        ) == Ok::<Seq<char>, TemplateError>(
            open_edge(Style { fg: a, bg: b }, shell) + x + open_edge(Style { fg: c, bg: d }, shell)
                + y + close_edge(Some(Style { fg: c, bg: d }), None, shell),
        ),
{
    let m = layer_spec(a as nat, b as nat);
    let l2 = layer(c, d, y);
    let t = seq![OPEN_BRACE] + m + seq![':'] + x + l2 + seq![CLOSE_BRACE];
    let s1 = Style { fg: a, bg: b };
    let s2 = Style { fg: c, bg: d };
    let e: Seq<Style> = Seq::empty();
    let p = m.len() + 2int;
    let q = p + x.len();
    let z = q + l2.len();
    lemma_decimal_no_mark(a as nat);
    lemma_decimal_no_mark(b as nat);
    assert forall|k: int| 0 <= k < m.len() implies m[k] != ':' by {
        if k < decimal(a as nat).len() {
            assert(m[k] == decimal(a as nat)[k]);
        } else if k > decimal(a as nat).len() {
            assert(m[k] == decimal(b as nat)[k - decimal(a as nat).len() - 1]);
        }
    }
    assert(t.subrange(1, 1 + m.len() as int) =~= m);
    lemma_style_of_layer_spec(a as nat, b as nat);
    lemma_open(t, 0, m, e, None, None, Seq::empty(), shell);
    let st = e.push(s1);
    assert(expansion(t, shell) == scan(t, p, st, None, Some(OPEN_BRACE), Seq::empty(), shell));
    assert(t.subrange(p, q) =~= x);
    lemma_text(t, p, q, st, None, Some(OPEN_BRACE), Seq::empty(), shell);
    assert(top(st) == Some(s1));
    let o1 = Seq::<char>::empty() + brace_text(OPEN_BRACE, None, top(st), shell) + x;
    assert(expansion(t, shell) == scan(t, q, st, Some(s1), None, o1, shell));
    assert(t.subrange(q, z) =~= l2);
    lemma_layer(t, q, c, d, y, st, Some(s1), None, o1, shell);
    let o2 = o1 + open_edge(s2, shell) + y;
    assert(expansion(t, shell) == scan(t, z, st, Some(s2), Some(CLOSE_BRACE), o2, shell));
    assert(t[z] == CLOSE_BRACE);
    assert(t.len() == z + 1);
    assert(st.drop_last() =~= e);
    assert(scan(t, z, st, Some(s2), Some(CLOSE_BRACE), o2, shell) == scan(t, z + 1, e, Some(s2), Some(CLOSE_BRACE), o2, shell));
    assert(o2 + brace_text(CLOSE_BRACE, Some(s2), top(e), shell) =~= open_edge(s1, shell)
        + x + open_edge(s2, shell) + y + close_edge(Some(s2), None, shell));
}

/// A specification field that cannot start a number: not empty, and its
/// first character is neither white space, a digit nor `+`.
pub open spec fn not_a_number(f: Seq<char>) -> bool {
    f.len() > 0 && !is_space(f[0]) && !is_digit(f[0]) && f[0] != '+'
}

/// The field holds neither a comma nor a colon.
pub open spec fn bare_field(f: Seq<char>) -> bool {
    forall|k: int| 0 <= k < f.len() ==> f[k] != ',' && f[k] != ':'
}

proof fn lemma_trim_end_keeps_first(s: Seq<char>)
    requires
        s.len() > 0,
        !is_space(s[0]),
    ensures
        trim_end(s).len() > 0,
        trim_end(s)[0] == s[0],
    decreases s.len(),
{
    if is_space(s.last()) {
        lemma_trim_end_keeps_first(s.drop_last());
    }
}

proof fn lemma_not_a_number(f: Seq<char>)
    requires
        not_a_number(f),
    ensures
        parse_u8(trimmed(f)) == Err::<u8, IntError>(IntError::InvalidDigit),
{
    assert(trim_start(f) == f);
    lemma_trim_end_keeps_first(f);
}

proof fn lemma_bad_fields(a: Seq<char>, b: Seq<char>, rest: Seq<char>, shell: Shell)
    requires
        bare_field(a),
        bare_field(b),
    ensures
        expansion(seq![OPEN_BRACE] + a + seq![','] + b + seq![':'] + rest, shell) == match style_of(
            a + seq![','] + b,
        ) {
            Err(e) => Err(TemplateError::Style(e)),
            Ok(s) => scan(
                seq![OPEN_BRACE] + a + seq![','] + b + seq![':'] + rest,
                a.len() + b.len() + 3int,
                seq![s],
                None,
                Some(OPEN_BRACE),
                Seq::empty(),
                shell,
            ),
        },
        style_of(a + seq![','] + b) == match parse_u8(trimmed(a)) {
            Err(e) => Err(StyleError::Foreground(e)),
            Ok(fg) => match parse_u8(trimmed(b)) {
                Err(e) => Err(StyleError::Background(e)),
                Ok(bg) => Ok(Style { fg, bg }),
            },
        },
{
    let m = a + seq![','] + b;
    let t = seq![OPEN_BRACE] + m + seq![':'] + rest;
    assert(t =~= seq![OPEN_BRACE] + a + seq![','] + b + seq![':'] + rest);
    assert forall|k: int| 0 <= k < m.len() implies m[k] != ':' by {
        if k < a.len() {
            assert(m[k] == a[k]);
        } else if k > a.len() {
            assert(m[k] == b[k - a.len() - 1]);
        }
    }
    assert(t.subrange(1, 1 + m.len() as int) =~= m);
    lemma_open(t, 0, m, Seq::empty(), None, None, Seq::empty(), shell);
    assert forall|s: Style| Seq::<Style>::empty().push(s) == seq![s] by {
        assert(Seq::<Style>::empty().push(s) =~= seq![s]);
    }
    lemma_style_of_fields(a, b);
}

/// A colour written in decimal that exceeds 255 makes the template fail
/// with an overflow of that field; the foreground is read first.
pub proof fn lemma_colour_out_of_range(fg: nat, bg: nat, rest: Seq<char>, shell: Shell)
    requires
        fg > 255 || bg > 255,
    ensures
        expansion(seq![OPEN_BRACE] + layer_spec(fg, bg) + seq![':'] + rest, shell) == Err::<
            Seq<char>,
            TemplateError,
        >(
            TemplateError::Style(
                if fg > 255 {
                    StyleError::Foreground(IntError::PosOverflow)
                } else {
                    StyleError::Background(IntError::PosOverflow)
                },
            ),
        ),
{
    lemma_decimal_no_mark(fg);
    lemma_decimal_no_mark(bg);
    lemma_bad_fields(decimal(fg), decimal(bg), rest, shell);
    lemma_style_of_layer_spec(fg, bg);
    assert(seq![OPEN_BRACE] + layer_spec(fg, bg) + seq![':'] + rest =~= seq![OPEN_BRACE] + decimal(fg)
        + seq![','] + decimal(bg) + seq![':'] + rest);
}

/// A foreground field that cannot start a number makes the template fail
/// with an invalid digit in the foreground, whatever the background holds.
pub proof fn lemma_foreground_not_a_number(a: Seq<char>, b: Seq<char>, rest: Seq<char>, shell: Shell)
    requires
        not_a_number(a),
        bare_field(a),
        bare_field(b),
    ensures
        expansion(seq![OPEN_BRACE] + a + seq![','] + b + seq![':'] + rest, shell) == Err::<
            Seq<char>,
            TemplateError,
        >(TemplateError::Style(StyleError::Foreground(IntError::InvalidDigit))),
{
    lemma_not_a_number(a);
    lemma_bad_fields(a, b, rest, shell);
}

/// A valid foreground followed by a background field that cannot start a
/// number makes the template fail with an invalid digit in the background.
pub proof fn lemma_background_not_a_number(fg: u8, b: Seq<char>, rest: Seq<char>, shell: Shell)
    requires
        not_a_number(b),
        bare_field(b),
    ensures
        expansion(seq![OPEN_BRACE] + decimal(fg as nat) + seq![','] + b + seq![':'] + rest, shell)
            == Err::<Seq<char>, TemplateError>(
            TemplateError::Style(StyleError::Background(IntError::InvalidDigit)),
        ),
{
    lemma_decimal_no_mark(fg as nat);
    lemma_decimal_round_trip(fg as nat);
    lemma_not_a_number(b);
    lemma_bad_fields(decimal(fg as nat), b, rest, shell);
}

/// A layer specification without exactly one comma makes the template fail
/// with the shape error, after any text that holds no brace.
pub proof fn lemma_missing_field(p: Seq<char>, m: Seq<char>, rest: Seq<char>, shell: Shell)
    requires
        plain(p),
        forall|k: int| 0 <= k < m.len() ==> m[k] != ':',
        count_char(m, ',') != 1,
    ensures
        expansion(p + seq![OPEN_BRACE] + m + seq![':'] + rest, shell) == Err::<
            Seq<char>,
            TemplateError,
        >(TemplateError::Style(StyleError::Shape)),
{
    let t = p + seq![OPEN_BRACE] + m + seq![':'] + rest;
    let n = p.len() as int;
    assert(t.subrange(0, n) =~= p);
    lemma_literal(t, 0, n, Seq::empty(), None, Seq::empty(), shell);
    assert(t.subrange(n + 1, n + 1 + m.len()) =~= m);
    lemma_open(t, n, m, Seq::empty(), None, None, Seq::empty() + p, shell);
}

/// Every escape code is wrapped whole: in `%{ %}` for zsh, in `\[ \]` for
/// bash, and in nothing without a shell.
pub proof fn lemma_shell_markers(e: Escape)
    ensures
        escape_code(e, Shell::Plain) == crate::escape::sgr(e),
        escape_code(e, Shell::Zsh) == seq!['%', '{'] + escape_code(e, Shell::Plain) + seq!['%', '}'],
        escape_code(e, Shell::Bash) == seq!['\\', '['] + escape_code(e, Shell::Plain) + seq![
            '\\',
            ']',
        ],
{
    assert(escape_code(e, Shell::Plain) =~= crate::escape::sgr(e));
    assert(escape_code(e, Shell::Zsh) =~= seq!['%', '{'] + escape_code(e, Shell::Plain) + seq!['%', '}']);
    assert(escape_code(e, Shell::Bash) =~= seq!['\\', '['] + escape_code(e, Shell::Plain) + seq!['\\', ']']);
}

} // verus!
