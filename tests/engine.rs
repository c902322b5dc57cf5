use sed_bot::command::get_pattern_and_replacement;
use sed_bot::engine::{replace, replace_all, substitute, MatchSpans};
use sed_bot::error::ErrorKind;
use sed_bot::scan::{normalize_groups, MatchScan};

fn spans(groups: &[(usize, usize)]) -> MatchSpans {
    MatchSpans { groups: groups.iter().map(|&g| Some(g)).collect() }
}

#[test]
fn backreferences_swap_groups() {
    let ms = vec![spans(&[(0, 2), (0, 1), (1, 2)])];
    assert_eq!(substitute("ab", "\\2\\1", &ms).unwrap(), "ba");
}

#[test]
fn command_rewrites_reply_target() {
    let (pattern, to) = get_pattern_and_replacement("s/cat/dog/").unwrap();
    assert_eq!(pattern, "cat");
    let ms = vec![spans(&[(9, 12)])];
    assert_eq!(substitute("I have a cat", &to, &ms).unwrap(), "I have a dog");
}

#[test]
fn empty_subject_is_an_error() {
    let (_, to) = get_pattern_and_replacement("s/x/y/").unwrap();
    let mut scan = MatchScan::new("");
    assert_eq!(scan.next_offset(), Some(0));
    scan.record(None);
    assert_eq!(scan.next_offset(), None);
    assert!(matches!(substitute("", &to, &scan.found), Err(ErrorKind::EmptyResult)));
}

#[test]
fn word_groups_are_bracketed() {
    let ms = vec![spans(&[(0, 5), (0, 5)]), spans(&[(6, 11), (6, 11)])];
    assert_eq!(substitute("hello world", "[\\1]", &ms).unwrap(), "[hello] [world]");
}

#[test]
fn no_match_keeps_subject() {
    assert_eq!(substitute("keep calm", "x", &Vec::new()).unwrap(), "keep calm");
    assert_eq!(replace_all("keep calm", "x", &Vec::new()), b"keep calm".to_vec());
}

#[test]
fn unset_group_is_empty() {
    let ms = vec![MatchSpans { groups: vec![Some((0, 1)), None] }];
    assert_eq!(substitute("b", "<\\1>", &ms).unwrap(), "<>");
}

#[test]
fn unknown_group_stays_literal() {
    let ms = vec![spans(&[(0, 1), (0, 1)])];
    assert_eq!(substitute("a", "\\5\\0\\1", &ms).unwrap(), "\\5aa");
}

#[test]
fn group_zero_is_whole_match() {
    let ms = vec![spans(&[(2, 5)])];
    assert_eq!(substitute("a bcd e", "(\\0)", &ms).unwrap(), "a (bcd) e");
}

#[test]
fn replacing_everything_with_nothing_is_an_error() {
    let ms = vec![spans(&[(0, 3)])];
    assert!(matches!(substitute("abc", "", &ms), Err(ErrorKind::EmptyResult)));
}

#[test]
fn split_character_is_an_error() {
    let ms = vec![spans(&[(0, 1)])];
    assert!(matches!(substitute("é", "x", &ms), Err(ErrorKind::BrokenCharacter)));
}

#[test]
fn replace_fills_one_match() {
    let m = spans(&[(0, 3), (1, 2)]);
    assert_eq!(replace(&m, "<\\1|\\0>", "xyz"), b"<y|xyz>".to_vec());
}

#[test]
fn scan_steps_over_empty_matches() {
    let mut scan = MatchScan::new("aé");
    scan.record(Some((1, vec![(0, 0)])));
    assert_eq!(scan.next_offset(), Some(1));
    scan.record(Some((1, vec![(1, 1)])));
    assert_eq!(scan.next_offset(), Some(3));
    scan.record(Some((1, vec![(3, 3)])));
    assert_eq!(scan.next_offset(), None);
    assert_eq!(scan.found.len(), 3);
    assert_eq!(substitute("aé", "-", &scan.found).unwrap(), "-a-é-");
}

#[test]
fn scan_continues_after_match_end() {
    let mut scan = MatchScan::new("cat cat");
    scan.record(Some((1, vec![(0, 3)])));
    assert_eq!(scan.next_offset(), Some(3));
    scan.record(Some((1, vec![(4, 7)])));
    assert_eq!(scan.next_offset(), Some(7));
    scan.record(None);
    assert_eq!(scan.next_offset(), None);
    assert_eq!(substitute("cat cat", "dog", &scan.found).unwrap(), "dog dog");
}

#[test]
fn scan_stops_on_match_before_offset() {
    let mut scan = MatchScan::new("abc");
    scan.record(Some((1, vec![(1, 2)])));
    scan.record(Some((1, vec![(0, 1)])));
    assert_eq!(scan.next_offset(), None);
    assert_eq!(scan.found.len(), 1);
}

#[test]
fn normalize_marks_unset_groups() {
    let g = normalize_groups(2, &vec![(0, 1), (usize::MAX, usize::MAX), (0, 1)], 3);
    assert_eq!(g, vec![Some((0, 1)), None, None]);
}
