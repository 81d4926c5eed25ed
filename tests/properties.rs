use bubbleprompt::{generate, Shell};

const OPEN: char = '\u{e0b6}';
const CLOSE: char = '\u{e0b4}';

fn fg(n: u8) -> String {
    format!("\x1b[38;5;{}m", n)
}

fn bg(n: u8) -> String {
    format!("\x1b[48;5;{}m", n)
}

fn reset() -> String {
    "\x1b[0m".to_string()
}

fn single(f: u8, b: u8, text: &str) -> String {
    format!(
        "{}{}{}{}{}{}{}{}{}",
        fg(b),
        OPEN,
        fg(f),
        bg(b),
        text,
        reset(),
        fg(b),
        CLOSE,
        reset()
    )
}

#[test]
fn single_layer_keeps_colons_and_commas_in_text() {
    assert_eq!(generate("{12,34:a:b,c}", Shell::Plain), Ok(single(12, 34, "a:b,c")));
}

#[test]
fn single_layer_with_empty_text() {
    assert_eq!(generate("{5,6:}", Shell::Plain), Ok(single(5, 6, "")));
}

#[test]
fn colours_are_written_back_without_leading_zeros_or_sign() {
    assert_eq!(generate("{007,+9:x}", Shell::Plain), Ok(single(7, 9, "x")));
}

#[test]
fn largest_and_smallest_colours() {
    assert_eq!(generate("{255,0:z}", Shell::Plain), Ok(single(255, 0, "z")));
}

#[test]
fn white_space_around_fields_is_trimmed() {
    assert_eq!(generate("{ 3 ,\t4 :x}", Shell::Plain), Ok(single(3, 4, "x")));
}

#[test]
fn background_out_of_range() {
    assert_eq!(
        generate("{1,256:x}", Shell::Plain),
        Err("Error: invalid bg, number too large to fit in target type.".to_string())
    );
}

#[test]
fn foreground_out_of_range_is_reported_before_background() {
    assert_eq!(
        generate("{300,abc:x}", Shell::Plain),
        Err("Error: invalid fg, number too large to fit in target type.".to_string())
    );
}

#[test]
fn empty_foreground() {
    assert_eq!(
        generate("{,1:x}", Shell::Plain),
        Err("Error: invalid fg, cannot parse integer from empty string.".to_string())
    );
}

#[test]
fn foreground_not_a_number() {
    assert_eq!(
        generate("{a,1:x}", Shell::Plain),
        Err("Error: invalid fg, invalid digit found in string.".to_string())
    );
}

#[test]
fn lone_plus_sign() {
    assert_eq!(
        generate("{+,1:x}", Shell::Plain),
        Err("Error: invalid fg, invalid digit found in string.".to_string())
    );
}

#[test]
fn first_offending_character_decides_the_error() {
    assert_eq!(
        generate("{999x,1:x}", Shell::Plain),
        Err("Error: invalid fg, number too large to fit in target type.".to_string())
    );
    assert_eq!(
        generate("{25x,1:x}", Shell::Plain),
        Err("Error: invalid fg, invalid digit found in string.".to_string())
    );
}

#[test]
fn too_many_fields_after_text() {
    assert_eq!(
        generate("ab {1,2,3:x}", Shell::Plain),
        Err("Error: invalid style, should be 'fg,bg'.".to_string())
    );
}

#[test]
fn unclosed_layer() {
    assert_eq!(generate("{0,1:x", Shell::Plain), Err("Error: unbalanced braces.".to_string()));
}

#[test]
fn specification_without_colon() {
    assert_eq!(generate("{0,1", Shell::Plain), Err("Error: unbalanced braces.".to_string()));
}

#[test]
fn stray_closing_brace_resets() {
    assert_eq!(generate("a}b", Shell::Plain), Ok(format!("a{}{}b", reset(), reset())));
}

#[test]
fn text_without_layers_is_copied() {
    assert_eq!(generate("hello, world: ok", Shell::Zsh), Ok("hello, world: ok".to_string()));
    assert_eq!(generate("", Shell::Bash), Ok(String::new()));
}

#[test]
fn adjacent_layers_without_gap() {
    assert_eq!(
        generate("{0,1:x}{2,3:y}", Shell::Plain),
        Ok(format!("{}{}", single(0, 1, "x"), single(2, 3, "y")))
    );
}

#[test]
fn adjacent_layers_with_gap() {
    assert_eq!(
        generate("{0,1:x} - {2,3:y}", Shell::Plain),
        Ok(format!("{} - {}", single(0, 1, "x"), single(2, 3, "y")))
    );
}

#[test]
fn child_closing_with_parent() {
    let expected = format!(
        "{}{}{}{}x {}{}{}{}y{}{}{}{}",
        fg(1),
        OPEN,
        fg(0),
        bg(1),
        fg(3),
        OPEN,
        fg(2),
        bg(3),
        reset(),
        fg(3),
        CLOSE,
        reset()
    );
    assert_eq!(generate("{0,1:x {2,3:y}}", Shell::Plain), Ok(expected));
}

#[test]
fn every_code_is_wrapped_for_zsh() {
    let out = generate("{4,5:t}", Shell::Zsh).unwrap();
    let plain = generate("{4,5:t}", Shell::Plain).unwrap();
    assert_eq!(out.matches("%{\x1b[").count(), 6);
    assert_eq!(out.matches("m%}").count(), 6);
    assert_eq!(out.replace("%{", "").replace("%}", ""), plain);
    assert!(!plain.contains("%{"));
    assert!(!plain.contains("\\["));
}

#[test]
fn every_code_is_wrapped_for_bash() {
    let out = generate("{4,5:t}", Shell::Bash).unwrap();
    let plain = generate("{4,5:t}", Shell::Plain).unwrap();
    assert_eq!(out.matches("\\[\x1b[").count(), 6);
    assert_eq!(out.matches("m\\]").count(), 6);
    assert_eq!(out.replace("\\[", "").replace("\\]", ""), plain);
}
