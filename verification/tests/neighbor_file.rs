use surface_probe::{read_nn, try_read_nn};
use surface_probe::parse_nn_line;
use surface_probe::text::{is_white_char, parse_u32_chars, text_chars};

#[test]
fn full_line() {
    let line = "5 1 2 3 4 6 7 8 9 10 11 12 13";
    assert_eq!(parse_nn_line(line), Some((5, [1, 2, 3, 4, 6, 7, 8, 9, 10, 11, 12, 13])));
}

#[test]
fn short_line_is_padded_with_zero() {
    assert_eq!(parse_nn_line("  7\t8  9 "), Some((7, [8, 9, 0, 0, 0, 0, 0, 0, 0, 0, 0, 0])));
    assert_eq!(parse_nn_line("42"), Some((42, [0; 12])));
}

#[test]
fn plus_sign_and_leading_zeros() {
    assert_eq!(parse_nn_line("+3 007"), Some((3, [7, 0, 0, 0, 0, 0, 0, 0, 0, 0, 0, 0])));
}

#[test]
fn unicode_whitespace_separates() {
    assert_eq!(parse_nn_line("1\u{3000}2\u{a0}3"), Some((1, [2, 3, 0, 0, 0, 0, 0, 0, 0, 0, 0, 0])));
}

#[test]
fn malformed_lines() {
    assert_eq!(parse_nn_line(""), None);
    assert_eq!(parse_nn_line("   "), None);
    assert_eq!(parse_nn_line("1 2 x"), None);
    assert_eq!(parse_nn_line("1 -2"), None);
    assert_eq!(parse_nn_line("+"), None);
    assert_eq!(parse_nn_line("4294967296 1"), None);
    assert_eq!(parse_nn_line("0 1 2 3 4 5 6 7 8 9 10 11 12 13"), None);
}

#[test]
fn largest_u32_reads() {
    assert_eq!(parse_nn_line("4294967295"), Some((4294967295, [0; 12])));
}

#[test]
fn later_line_for_a_site_wins() {
    let lines = vec!["1 2 3".to_string(), "2 1".to_string(), "1 4".to_string()];
    let nn = read_nn(&lines);
    assert_eq!(try_read_nn(&lines), Some(nn.clone()));
    assert_eq!(nn.len(), 2);
    assert_eq!(nn[&1], [4, 0, 0, 0, 0, 0, 0, 0, 0, 0, 0, 0]);
    assert_eq!(nn[&2], [1, 0, 0, 0, 0, 0, 0, 0, 0, 0, 0, 0]);
}

#[test]
fn bad_line_fails_the_file() {
    let lines = vec!["1 2 3".to_string(), "".to_string()];
    assert!(try_read_nn(&lines).is_none());
    assert!(read_nn(&Vec::new()).is_empty());
}

#[test]
fn number_parsing() {
    let cs = text_chars("ab12345cd");
    assert_eq!(cs.len(), 9);
    assert_eq!(parse_u32_chars(&cs, 2, 7), Some(12345));
    assert_eq!(parse_u32_chars(&cs, 1, 7), None);
    assert_eq!(parse_u32_chars(&cs, 3, 3), None);
}

#[test]
fn whitespace_characters() {
    assert!(is_white_char(' '));
    assert!(is_white_char('\n'));
    assert!(is_white_char('\u{85}'));
    assert!(is_white_char('\u{2009}'));
    assert!(!is_white_char('a'));
    assert!(!is_white_char('\u{200b}'));
}
