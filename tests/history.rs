use sed_bot::engine::{substitute, MatchSpans};
use sed_bot::history::{resolve_target, History, HISTORY_CAPACITY};

#[test]
fn history_starts_full_of_empty_entries() {
    let h = History::new();
    assert_eq!(h.len(), HISTORY_CAPACITY);
    assert_eq!(h.entry(0).text, "");
    assert_eq!(h.entry(0).id, 0);
}

#[test]
fn history_drops_oldest() {
    let mut h = History::new();
    for i in 0..12 {
        h.record(format!("m{}", i), i);
    }
    assert_eq!(h.len(), HISTORY_CAPACITY);
    assert_eq!(h.entry(0).text, "m11");
    assert_eq!(h.entry(9).text, "m2");
}

#[test]
fn resolver_skips_command_empty_and_unmatched() {
    let mut h = History::new();
    h.record("cat stuff".to_string(), 1);
    h.record("keep calm".to_string(), 2);
    h.record(String::new(), 3);
    h.record("s/cat/dog/".to_string(), 4);
    let mut matched = vec![false; h.len()];
    matched[0] = true;
    matched[3] = true;
    let k = resolve_target(&h, &matched).unwrap();
    assert_eq!(k, 3);
    assert_eq!(h.entry(k).id, 1);
    let ms = vec![MatchSpans { groups: vec![Some((0, 3))] }];
    assert_eq!(substitute(&h.entry(k).text, "dog", &ms).unwrap(), "dog stuff");
}

#[test]
fn resolver_finds_nothing() {
    let mut h = History::new();
    h.record("s/x/y/".to_string(), 1);
    let mut matched = vec![false; h.len()];
    matched[0] = true;
    matched[1] = true;
    assert_eq!(resolve_target(&h, &matched), None);
}
