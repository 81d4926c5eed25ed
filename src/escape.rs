//! Terminal escape codes and the markers that shells put around them.

use vstd::prelude::*;

verus! {

/// The shell whose line editor must be told that an escape code prints nothing.
#[derive(Copy, Clone, PartialEq, Eq, Structural, Debug)]
pub enum Shell {
    /// No marker around escape codes.
    Plain,
    /// Each code stands between `%{` and `%}`.
    Zsh,
    /// Each code stands between `\[` and `\]`.
    Bash,
}

/// One of the three effects an escape code can have.
#[derive(Copy, Clone, PartialEq, Eq, Structural, Debug)]
pub enum Escape {
    /// Set the foreground to a colour of the 256-colour palette.
    Foreground(u8),
    /// Set the background to a colour of the 256-colour palette.
    Background(u8),
    /// Reset every attribute.
    Reset,
}

/// The decimal digit `d` as a character.
pub open spec fn digit_char(d: int) -> char {
    if d == 0 {
        '0'
    } else if d == 1 {
        '1'
    } else if d == 2 {
        '2'
    } else if d == 3 {
        '3'
    } else if d == 4 {
        '4'
    } else if d == 5 {
        '5'
    } else if d == 6 {
        '6'
    } else if d == 7 {
        '7'
    } else if d == 8 {
        '8'
    } else {
        '9'
    }
}

/// `n` written in decimal, without sign or leading zeros.
pub open spec fn decimal(n: nat) -> Seq<char>
    decreases n,
{
    if n < 10 {
        seq![digit_char(n as int)]
    } else {
        decimal(n / 10).push(digit_char((n % 10) as int))
    }
}

/// What the shell writes before an escape code.
pub open spec fn shell_prefix(shell: Shell) -> Seq<char> {
    match shell {
        Shell::Plain => Seq::empty(),
        Shell::Zsh => seq!['%', '{'],
        Shell::Bash => seq!['\\', '['],
    }
}

/// What the shell writes after an escape code.
pub open spec fn shell_suffix(shell: Shell) -> Seq<char> {
    match shell {
        Shell::Plain => Seq::empty(),
        Shell::Zsh => seq!['%', '}'],
        Shell::Bash => seq!['\\', ']'],
    }
}

/// The parameters of the SGR sequence for `e`.
pub open spec fn sgr_params(e: Escape) -> Seq<char> {
    match e {
        Escape::Foreground(c) => seq!['3', '8', ';', '5', ';'] + decimal(c as nat),
        Escape::Background(c) => seq!['4', '8', ';', '5', ';'] + decimal(c as nat),
        Escape::Reset => seq!['0'],
    }
}

/// The bare sequence `ESC [ params m` for `e`.
pub open spec fn sgr(e: Escape) -> Seq<char> {
    seq!['\x1b', '['] + sgr_params(e) + seq!['m']
}

/// The escape code for `e` as it is written for `shell`.
pub open spec fn escape_code(e: Escape, shell: Shell) -> Seq<char> {
    shell_prefix(shell) + sgr(e) + shell_suffix(shell)
}

fn push_digit(buf: &mut Vec<char>, d: u8)
    requires
        d < 10,
    ensures
        final(buf)@ == old(buf)@.push(digit_char(d as int)),
{
    let c = match d {
        0 => '0',
        1 => '1',
        2 => '2',
        3 => '3',
        4 => '4',
        5 => '5',
        6 => '6',
        7 => '7',
        8 => '8',
        _ => '9',
    };
    buf.push(c);
}

/// Appends `n` in decimal.
pub fn push_decimal(buf: &mut Vec<char>, n: u8)
    ensures
        final(buf)@ == old(buf)@ + decimal(n as nat),
{
    let ghost start = buf@;
    if n >= 100 {
        push_digit(buf, n / 100);
        push_digit(buf, n / 10 % 10);
        push_digit(buf, n % 10);
        assert(decimal(n as nat) =~= seq![
            digit_char((n / 100) as int),
            digit_char((n / 10 % 10) as int),
            digit_char((n % 10) as int),
        ]) by {
            reveal_with_fuel(decimal, 3);
        }
    } else if n >= 10 {
        push_digit(buf, n / 10);
        push_digit(buf, n % 10);
        assert(decimal(n as nat) =~= seq![digit_char((n / 10) as int), digit_char((n % 10) as int)])
            by {
            reveal_with_fuel(decimal, 2);
        }
    } else {
        push_digit(buf, n);
        assert(decimal(n as nat) =~= seq![digit_char(n as int)]);
    }
    assert(buf@ =~= start + decimal(n as nat));
}

fn push_marker(buf: &mut Vec<char>, a: char, b: char)
    ensures
        final(buf)@ == old(buf)@ + seq![a, b],
{
    buf.push(a);
    buf.push(b);
    assert(buf@ =~= old(buf)@ + seq![a, b]);
}

/// Appends the escape code for `escape`, wrapped in the markers of `shell`.
pub fn push_escape_code(buf: &mut Vec<char>, escape: Escape, shell: Shell)
    ensures
        final(buf)@ == old(buf)@ + escape_code(escape, shell),
{
    let ghost start = buf@;
    match shell {
        Shell::Zsh => push_marker(buf, '%', '{'),
        Shell::Bash => push_marker(buf, '\\', '['),
        Shell::Plain => {},
    }
    let ghost after_prefix = buf@;
    push_marker(buf, '\x1b', '[');
    let ghost after_csi = buf@;
    match escape {
        Escape::Foreground(color) => {
            push_marker(buf, '3', '8');
            push_marker(buf, ';', '5');
            buf.push(';');
            push_decimal(buf, color);
        },
        Escape::Background(color) => {
            push_marker(buf, '4', '8');
            push_marker(buf, ';', '5');
            buf.push(';');
            push_decimal(buf, color);
        },
        Escape::Reset => buf.push('0'),
    }
    assert(buf@ =~= after_csi + sgr_params(escape));
    buf.push('m');
    let ghost after_sgr = buf@;
    match shell {
        Shell::Zsh => push_marker(buf, '%', '}'),
        Shell::Bash => push_marker(buf, '\\', ']'),
        Shell::Plain => {},
    }
    assert(after_prefix =~= start + shell_prefix(shell));
    assert(after_sgr =~= after_prefix + sgr(escape));
    assert(buf@ =~= start + escape_code(escape, shell));
}

} // verus!
