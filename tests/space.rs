use clausewitz_parser::classify::take_simd_space;
use clausewitz_parser::parser::{opt_space, req_space};

fn split(text: &str, end: usize) -> (&str, &str) {
    (&text[end..], &text[..end])
}

#[test]
fn opt_space__empty_string__accepted() {
    let text = "";

    let (remainder, parse_output) = split(text, opt_space(text.as_bytes(), 0));
    assert_eq!(remainder, "");
    assert_eq!(parse_output, "");
}

#[test]
fn opt_space__all_space_chars__accepted() {
    let text = " \t\n\r";

    let (remainder, parse_output) = split(text, opt_space(text.as_bytes(), 0));
    assert_eq!(remainder, "");
    assert_eq!(parse_output, " \t\n\r");
}

#[test]
fn req_space__empty_string__rejected() {
    let text = "";
    assert!(req_space(text.as_bytes(), 0).is_none())
}

#[test]
fn req_space__all_space_chars__accepted() {
    let text = " \t\n\r";

    let (remainder, parse_output) = split(text, req_space(text.as_bytes(), 0).unwrap());
    assert_eq!(remainder, "");
    assert_eq!(parse_output, " \t\n\r");
}

#[test]
fn take_while_simd__string_with_leading_whitespace__whitespace_collected_remainder_returned() {
    let text = " \t\n\r|Stop this is a big long string";
    let (remainder, parsed) = split(text, take_simd_space(text.as_bytes(), 0));
    assert_eq!(remainder, "|Stop this is a big long string");
    assert_eq!(parsed, " \t\n\r");
}

#[test]
fn take_while_simd__16_character_string__whitespace_collected_remainder_returned() {
    let text = "1111111111111111";
    let (remainder, parsed) = split(text, take_simd_space(text.as_bytes(), 0));
    assert_eq!(remainder, "1111111111111111");
    assert_eq!(parsed, "");
}

#[test]
fn take_while_simd__16_newlines_1_1__whitespace_collected_remainder_returned() {
    let text = "\n\n\n\n\n\n\n\n\n\n\n\n\n\n\n\n\n1";
    let (remainder, parsed) = split(text, take_simd_space(text.as_bytes(), 0));
    assert_eq!(remainder, "1");
    assert_eq!(parsed, "\n\n\n\n\n\n\n\n\n\n\n\n\n\n\n\n\n");
}

#[test]
fn take_while_simd__17_newlines_1_1__whitespace_collected_remainder_returned() {
    let text = "\n\n\n\n\n\n\n\n\n\n\n\n\n\n\n\n\n\n1";
    let (remainder, parsed) = split(text, take_simd_space(text.as_bytes(), 0));
    assert_eq!(remainder, "1");
    assert_eq!(parsed, "\n\n\n\n\n\n\n\n\n\n\n\n\n\n\n\n\n\n");
}

#[test]
fn take_while_simd__string_with_many_leading_whitespace__whitespace_collected_remainder_returned(
) {
    let text = "\t\t\t\t\t\t\t\t\t\t\t\t\t\t\t\t\t\t\t\t|Stop this is a big long string";
    let (remainder, parsed) = split(text, take_simd_space(text.as_bytes(), 0));
    assert_eq!(remainder, "|Stop this is a big long string");
    assert_eq!(parsed, "\t\t\t\t\t\t\t\t\t\t\t\t\t\t\t\t\t\t\t\t");
}

#[test]
fn take_while_simd__short_string__whitespace_collected_remainder_returned() {
    let text = "\t\t\ts";
    let (remainder, parsed) = split(text, take_simd_space(text.as_bytes(), 0));
    assert_eq!(remainder, "s");
    assert_eq!(parsed, "\t\t\t");
}

#[test]
fn take_while_simd__all_white_space__whitespace_collected_remainder_returned() {
    let text = " \t\n\r";
    let (remainder, parsed) = split(text, take_simd_space(text.as_bytes(), 0));
    assert_eq!(remainder, "");
    assert_eq!(parsed, " \t\n\r");
}

#[test]
fn space_class_covers_control_bytes_and_ff_but_not_nul() {
    let text = [0x01u8, 0x0b, 0x0c, 0x1f, 0x20, 0xff, 0x00, 0x20];
    assert_eq!(take_simd_space(&text, 0), 6);
}
