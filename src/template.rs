//! The template scanner: a single pass over the template that keeps a stack
//! of colour layers and writes escape codes where a layer begins or ends.

use vstd::prelude::*;
use crate::escape::{escape_code, push_escape_code, Escape, Shell};
use crate::style::{parse_style, style_at, style_end, IntError, Style, StyleError};
use crate::text::{chars_of, push_str, string_from};

verus! {

pub const OPEN_BRACE: char = '{';

pub const CLOSE_BRACE: char = '}';

/// The glyph that rounds off the leading edge of a layer.
pub const OPEN_GLYPH: char = '\u{e0b6}';

/// The glyph that rounds off the trailing edge of a layer.
pub const CLOSE_GLYPH: char = '\u{e0b4}';

/// Why a template was refused.
#[derive(Copy, Clone, PartialEq, Eq, Structural, Debug)]
pub enum TemplateError {
    /// A layer specification is malformed.
    Style(StyleError),
    /// Some layer is still open at the end of the template. (A closing brace
    /// with no layer open is not an error: it closes nothing.)
    Unbalanced,
}

/// The innermost layer of `stack`, if any.
pub open spec fn top(stack: Seq<Style>) -> Option<Style> {
    if stack.len() == 0 {
        None
    } else {
        Some(stack.last())
    }
}

/// `stack` without its innermost layer; an empty stack stays empty.
pub open spec fn pop(stack: Seq<Style>) -> Seq<Style> {
    if stack.len() == 0 {
        stack
    } else {
        stack.drop_last()
    }
}

/// The leading edge of layer `s`.
pub open spec fn open_edge(s: Style, shell: Shell) -> Seq<char> {
    escape_code(Escape::Foreground(s.bg), shell) + seq![OPEN_GLYPH] + escape_code(
        Escape::Foreground(s.fg),
        shell,
    ) + escape_code(Escape::Background(s.bg), shell)
}

/// The trailing edge of the layer `active` that was closed, followed by the
/// colours of the layer `next` that it leaves in effect.
pub open spec fn close_edge(active: Option<Style>, next: Option<Style>, shell: Shell) -> Seq<
    char,
> {
    escape_code(
        match next {
            Some(n) => Escape::Background(n.bg),
            None => Escape::Reset,
        },
        shell,
    ) + match active {
        Some(a) => escape_code(Escape::Foreground(a.bg), shell) + seq![CLOSE_GLYPH],
        None => Seq::empty(),
    } + escape_code(
        match next {
            Some(n) => Escape::Foreground(n.fg),
            None => Escape::Reset,
        },
        shell,
    )
}

/// What a run of `brace` characters writes when it ends, going from the
/// layer `active` to the layer `next`.
pub open spec fn brace_text(brace: char, active: Option<Style>, next: Option<Style>, shell: Shell) -> Seq<
    char,
> {
    if brace == OPEN_BRACE {
        match next {
            Some(n) => open_edge(n, shell),
            None => Seq::empty(),
        }
    } else if brace == CLOSE_BRACE {
        close_edge(active, next, shell)
    } else {
        Seq::empty()
    }
}

/// The scan of `t` from index `i` on, with the layers `stack` open, the
/// colours of `active` in effect, a run of `pending` braces not yet written,
/// and `out` written so far.
pub open spec fn scan(
    t: Seq<char>,
    i: int,
    stack: Seq<Style>,
    active: Option<Style>,
    pending: Option<char>,
    out: Seq<char>,
    shell: Shell,
) -> Result<Seq<char>, TemplateError>
    decreases t.len() - i,
{
    if i >= t.len() {
        if stack.len() > 0 {
            Err(TemplateError::Unbalanced)
        } else {
            match pending {
                Some(b) => Ok(out + brace_text(b, active, None, shell)),
                None => Ok(out),
            }
        }
    } else {
        let c = t[i];
        let flush = pending is Some && pending->0 != c;
        let out1 = if flush {
            out + brace_text(pending->0, active, top(stack), shell)
        } else {
            out
        };
        let active1 = if flush {
            top(stack)
        } else {
            active
        };
        if c == OPEN_BRACE {
            match style_at(t, i + 1) {
                Err(e) => Err(TemplateError::Style(e)),
                Ok(s) => scan(t, style_end(t, i + 1), stack.push(s), active1, Some(OPEN_BRACE), out1, shell),
            }
        } else if c == CLOSE_BRACE {
            scan(t, i + 1, pop(stack), active1, Some(CLOSE_BRACE), out1, shell)
        } else {
            scan(t, i + 1, stack, active1, None, out1.push(c), shell)
        }
    }
}

/// The text that template `t` expands to for `shell`, or why it is refused.
pub open spec fn expansion(t: Seq<char>, shell: Shell) -> Result<Seq<char>, TemplateError> {
    scan(t, 0, Seq::empty(), None, None, Seq::empty(), shell)
}

/// The message of a numeric error.
pub open spec fn int_error_text(e: IntError) -> Seq<char> {
    match e {
        IntError::Empty => "cannot parse integer from empty string"@,
        IntError::InvalidDigit => "invalid digit found in string"@,
        IntError::PosOverflow => "number too large to fit in target type"@,
    }
}

/// The message that reports `e`.
pub open spec fn error_text(e: TemplateError) -> Seq<char> {
    match e {
        TemplateError::Style(StyleError::Shape) => "Error: invalid style, should be 'fg,bg'."@,
        TemplateError::Style(StyleError::Foreground(k)) => "Error: invalid fg, "@ + int_error_text(k)
            + "."@,
        TemplateError::Style(StyleError::Background(k)) => "Error: invalid bg, "@ + int_error_text(k)
            + "."@,
        TemplateError::Unbalanced => "Error: unbalanced braces."@,
    }
}

/// Writes what a run of `brace` characters ends with.
fn push_brace(
    buffer: &mut Vec<char>,
    brace: char,
    style: Option<Style>,
    next_style: Option<Style>,
    shell: Shell,
)
    ensures
        final(buffer)@ == old(buffer)@ + brace_text(brace, style, next_style, shell),
{
    let ghost start = buffer@;
    if brace == OPEN_BRACE {
        if let Some(next_style) = next_style {
            push_escape_code(buffer, Escape::Foreground(next_style.bg), shell);
            buffer.push(OPEN_GLYPH);
            push_escape_code(buffer, Escape::Foreground(next_style.fg), shell);
            push_escape_code(buffer, Escape::Background(next_style.bg), shell);
        }
        assert(buffer@ =~= start + brace_text(brace, style, next_style, shell));
    } else if brace == CLOSE_BRACE {
        let escape = match next_style {
            Some(next_style) => Escape::Background(next_style.bg),
            None => Escape::Reset,
        };
        push_escape_code(buffer, escape, shell);
        let ghost mid = buffer@;
        if let Some(style) = style {
            push_escape_code(buffer, Escape::Foreground(style.bg), shell);
            buffer.push(CLOSE_GLYPH);
        }
        let ghost mid2 = buffer@;
        let escape = match next_style {
            Some(next_style) => Escape::Foreground(next_style.fg),
            None => Escape::Reset,
        };
        push_escape_code(buffer, escape, shell);
        assert(mid2 =~= mid + match style {
            Some(a) => escape_code(Escape::Foreground(a.bg), shell) + seq![CLOSE_GLYPH],
            None => Seq::empty(),
        });
        assert(buffer@ =~= start + brace_text(brace, style, next_style, shell));
    } else {
        assert(buffer@ =~= start + brace_text(brace, style, next_style, shell));
    }
}

fn last_style(styles: &Vec<Style>) -> (r: Option<Style>)
    ensures
        r == top(styles@),
{
    if styles.len() == 0 {
        None
    } else {
        Some(styles[styles.len() - 1])
    }
}

/// Expands the characters of a template.
pub fn expand(t: &Vec<char>, shell: Shell) -> (r: Result<Vec<char>, TemplateError>)
    ensures
        match r {
            Ok(out) => expansion(t@, shell) == Ok::<Seq<char>, TemplateError>(out@),
            Err(e) => expansion(t@, shell) == Err::<Seq<char>, TemplateError>(e),
        },
{
    let mut buffer: Vec<char> = Vec::new();
    let mut styles: Vec<Style> = Vec::new();
    let mut active_style: Option<Style> = None;
    let mut last_brace: Option<char> = None;
    let mut i: usize = 0;
    while i < t.len()
        invariant
            i <= t.len(),
            expansion(t@, shell) == scan(t@, i as int, styles@, active_style, last_brace, buffer@, shell),
        decreases t.len() - i,
    {
        let next = t[i];
        match last_brace {
            Some(brace) => {
                if brace != next {
                    push_brace(&mut buffer, brace, active_style, last_style(&styles), shell);
                    active_style = last_style(&styles);
                }
            },
            None => {},
        }
        if next == OPEN_BRACE {
            match parse_style(t, i + 1) {
                Ok((style, after)) => {
                    styles.push(style);
                    last_brace = Some(OPEN_BRACE);
                    i = after;
                },
                Err(e) => {
                    return Err(TemplateError::Style(e));
                },
            }
        } else if next == CLOSE_BRACE {
            styles.pop();
            last_brace = Some(CLOSE_BRACE);
            i = i + 1;
        } else {
            buffer.push(next);
            last_brace = None;
            i = i + 1;
        }
    }
    if styles.len() > 0 {
        return Err(TemplateError::Unbalanced);
    }
    if let Some(brace) = last_brace {
        push_brace(&mut buffer, brace, active_style, None, shell);
    }
    Ok(buffer)
}

/// Writes the message that reports `e`.
pub fn error_message(e: TemplateError) -> (r: String)
    ensures
        r@ == error_text(e),
{
    let mut m: Vec<char> = Vec::new();
    match e {
        TemplateError::Style(StyleError::Shape) => push_str(&mut m, "Error: invalid style, should be 'fg,bg'."),
        TemplateError::Style(StyleError::Foreground(k)) => {
            push_str(&mut m, "Error: invalid fg, ");
            push_int_error(&mut m, k);
            push_str(&mut m, ".");
        },
        TemplateError::Style(StyleError::Background(k)) => {
            push_str(&mut m, "Error: invalid bg, ");
            push_int_error(&mut m, k);
            push_str(&mut m, ".");
        },
        TemplateError::Unbalanced => push_str(&mut m, "Error: unbalanced braces."),
    }
    assert(m@ =~= error_text(e));
    string_from(m)
}

fn push_int_error(m: &mut Vec<char>, e: IntError)
    ensures
        final(m)@ == old(m)@ + int_error_text(e),
{
    match e {
        IntError::Empty => push_str(m, "cannot parse integer from empty string"),
        IntError::InvalidDigit => push_str(m, "invalid digit found in string"),
        IntError::PosOverflow => push_str(m, "number too large to fit in target type"),
    }
}

/// Expands `template` into text with 256-colour escape codes, each wrapped
/// in the markers of `shell`; a refused template gives the message that
/// says why.
pub fn generate(template: &str, shell: Shell) -> (r: Result<String, String>)
    ensures
        match r {
            Ok(s) => expansion(template@, shell) == Ok::<Seq<char>, TemplateError>(s@),
            Err(m) => expansion(template@, shell) is Err && m@ == error_text(
                expansion(template@, shell)->Err_0,
            ),
        },
{
    let t = chars_of(template);
    match expand(&t, shell) {
        Ok(out) => Ok(string_from(out)),
        Err(e) => Err(error_message(e)),
    }
}

} // verus!
