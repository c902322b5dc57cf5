use sed_bot::command::{get_boundaries, get_pattern_and_replacement, split_text, unescape_segment, PsuedoVec};
use sed_bot::error::ErrorKind;

fn parts(text: &str) -> (String, String) {
    get_pattern_and_replacement(text).expect("command should parse")
}

#[test]
fn parse_pattern_and_replacement() {
    assert_eq!(parts("s/foo/bar/"), ("foo".to_string(), "bar".to_string()));
}

#[test]
fn parse_slash_prefixed_form() {
    assert_eq!(parts("/s/foo/bar/"), ("foo".to_string(), "bar".to_string()));
}

#[test]
fn parse_without_closing_delimiter_drops_replacement() {
    assert_eq!(parts("s/foo/bar"), ("foo".to_string(), String::new()));
}

#[test]
fn parse_pattern_only() {
    assert_eq!(parts("s/foo/"), ("foo".to_string(), String::new()));
}

#[test]
fn parse_single_delimiter_fails() {
    assert!(matches!(get_pattern_and_replacement("s/foo"), Err(ErrorKind::InvalidDelimiterCount)));
}

#[test]
fn parse_extra_segment_fails() {
    assert!(matches!(get_pattern_and_replacement("s/a/b/c/"), Err(ErrorKind::InvalidDelimiterCount)));
    assert!(matches!(get_pattern_and_replacement("s/a/b/c"), Err(ErrorKind::InvalidDelimiterCount)));
}

#[test]
fn parse_empty_text_fails() {
    assert!(matches!(get_pattern_and_replacement(""), Err(ErrorKind::InvalidDelimiterCount)));
}

#[test]
fn parse_escaped_delimiter() {
    assert_eq!(parts("s/a\\/b/c\\/d/"), ("a/b".to_string(), "c/d".to_string()));
}

#[test]
fn parse_escaped_backslash_before_delimiter() {
    assert_eq!(parts("s/a\\\\/b/"), ("a\\".to_string(), "b".to_string()));
}

#[test]
fn parse_two_pass_unescape() {
    // `\\\/` scans as one segment; the first pass gives `\\/`, the second `\/`.
    assert_eq!(parts("s/\\\\\\//x/"), ("\\/".to_string(), "x".to_string()));
}

#[test]
fn parse_keeps_regex_escapes() {
    assert_eq!(parts("s/(\\w+)/[\\1]/"), ("(\\w+)".to_string(), "[\\1]".to_string()));
}

#[test]
fn parse_non_ascii_segments() {
    assert_eq!(parts("s/café/thé/"), ("café".to_string(), "thé".to_string()));
}

#[test]
fn boundaries_of_command() {
    let b = get_boundaries("s/a/b/");
    assert_eq!(b.len(), 3);
    assert_eq!((b.index(0), b.index(1), b.index(2)), (1, 3, 5));
}

#[test]
fn boundaries_stop_at_four_then_mark_the_end() {
    let b = get_boundaries("s/a/b/c/d/e/");
    assert_eq!(b.len(), 5);
    assert_eq!((b.index(3), b.index(4)), (7, 12));
}

#[test]
fn boundaries_add_zero_width_after_pattern() {
    let b = get_boundaries("s/foo/");
    assert_eq!(b.len(), 3);
    assert_eq!((b.index(0), b.index(1), b.index(2)), (1, 5, 6));
}

#[test]
fn boundaries_add_end_of_text() {
    let b = get_boundaries("s/foo/bar");
    assert_eq!(b.len(), 3);
    assert_eq!((b.index(0), b.index(1), b.index(2)), (1, 5, 9));
}

#[test]
fn boundaries_of_unclosed_pattern() {
    let b = get_boundaries("s/foo");
    assert_eq!(b.len(), 3);
    assert_eq!((b.index(0), b.index(1), b.index(2)), (1, 5, 6));
}

#[test]
fn boundaries_of_slash_form() {
    let b = get_boundaries("/s/a/b/");
    assert_eq!(b.len(), 3);
    assert_eq!((b.index(0), b.index(1), b.index(2)), (2, 4, 6));
}

#[test]
fn split_gives_raw_segments() {
    assert_eq!(split_text("s/a\\/b/c/"), Some(("a\\/b", "c")));
    assert_eq!(split_text("s/a"), None);
}

#[test]
fn unescape_is_two_passes() {
    assert_eq!(unescape_segment("x\\/y\\\\z"), "x/y\\z");
    assert_eq!(unescape_segment("\\\\/"), "\\/");
}

#[test]
fn psuedo_vec_push_and_index() {
    let mut v = PsuedoVec::new(7u32);
    assert_eq!(v.len(), 0);
    v.push(3);
    v.push(5);
    assert_eq!(v.len(), 2);
    assert_eq!(v.index(0), 3);
    assert_eq!(v.index(1), 5);
    assert_eq!(v.index(2), 7);
    assert_eq!(v.index(31), 7);
}

#[test]
fn psuedo_vec_is_copy_and_comparable() {
    let mut v = PsuedoVec::new(0u8);
    v.push(1);
    let w = v;
    assert_eq!(v, w);
    v.push(2);
    assert_ne!(v, w);
}

#[test]
fn error_messages() {
    assert_eq!(ErrorKind::InvalidDelimiterCount.message(), "Invalid number of delimiters!");
    assert_eq!(ErrorKind::EmptyResult.message(), "`java.lang.NullPointerException: Empty Message`");
    assert_eq!(ErrorKind::PatternSyntax("bad".to_string()).message(), "bad");
}
