use rgathing::find::{
    find_ranges_ci, find_ranges_cs, is_word_boundary, is_word_char, map_ci_offsets, memchr_find, FindState,
};
use rgathing::types::SearchMatch;

fn cs(hay: &str, needle: &str, whole: bool) -> Vec<(usize, usize, usize)> {
    let mut out = vec![];
    find_ranges_cs(hay.as_bytes(), needle.as_bytes(), whole, 7, hay, &mut out);
    out
}

fn ci(hay: &str, needle: &str, whole: bool) -> Vec<(usize, usize, usize)> {
    let mut out = vec![];
    find_ranges_ci(hay, &needle.to_lowercase(), whole, 2, &mut out);
    out
}

fn line(text: &str) -> SearchMatch {
    SearchMatch {
        path: "/f".to_string(),
        line_number: Some(1),
        line_text: text.to_string(),
        submatches: vec![],
        is_context: false,
    }
}

#[test]
fn memchr_find_positions() {
    assert_eq!(memchr_find(b"abcabc", b"bc", 0), Some(1));
    assert_eq!(memchr_find(b"abcabc", b"bc", 2), Some(4));
    assert_eq!(memchr_find(b"abcabc", b"bc", 5), None);
    assert_eq!(memchr_find(b"abc", b"c", 7), None);
    assert_eq!(memchr_find(b"abc", b"abcd", 0), None);
}

#[test]
fn case_sensitive_matches_do_not_overlap() {
    assert_eq!(cs("aaaa", "aa", false), vec![(7, 0, 2), (7, 2, 4)]);
    assert_eq!(cs("Foo foo", "foo", false), vec![(7, 4, 7)]);
    assert_eq!(cs("abc", "", false), vec![]);
    assert_eq!(cs("ab", "abc", false), vec![]);
}

#[test]
fn whole_words_skip_glued_matches() {
    assert_eq!(cs("cat concat cat_x cat.", "cat", true), vec![(7, 0, 3), (7, 17, 20)]);
    assert_eq!(cs("élan lan", "lan", true), vec![(7, 6, 9)]);
}

#[test]
fn case_insensitive_lowercases_both_sides() {
    assert_eq!(ci("Hello HELLO hello", "HeLLo", false), vec![(2, 0, 5), (2, 6, 11), (2, 12, 17)]);
    assert_eq!(ci("ÉCOLE école", "école", false), vec![(2, 0, 6), (2, 7, 13)]);
    assert_eq!(ci("Word sword", "WORD", true), vec![(2, 0, 4)]);
    assert_eq!(ci("abc", "", false), vec![]);
}

#[test]
fn ci_offsets_map_back_by_characters() {
    assert_eq!(map_ci_offsets("ÀB", "àb", 0, 2), (0, 2));
    assert_eq!(map_ci_offsets("abc", "abc", 1, 9), (1, 3));
    assert_eq!(map_ci_offsets("añb", "añb", 2, 3), (1, 3));
    // "İx" lowercases to "i\u{307}x": the 'x' at bytes 3..4 is the 'x' at 2..3
    assert_eq!(map_ci_offsets("İx", "i\u{307}x", 3, 4), (2, 3));
    assert_eq!(map_ci_offsets("İx", "i\u{307}x", 0, 1), (0, 2));
}

#[test]
fn word_boundaries() {
    assert!(is_word_boundary("a cat b", 2, 5));
    assert!(!is_word_boundary("acat b", 1, 4));
    assert!(!is_word_boundary("a catb", 2, 5));
    assert!(is_word_boundary("cat", 0, 3));
    assert!(is_word_char('é'));
    assert!(is_word_char('_'));
    assert!(is_word_char('7'));
    assert!(!is_word_char('-'));
}

#[test]
fn update_finds_in_all_rows() {
    let results = vec![line("foo bar"), line("no"), line("Foo foo")];
    let mut f = FindState::new();
    f.text = "foo".to_string();
    f.match_case = true;
    f.update_find_matches(&results, 1);
    assert_eq!(f.matches, vec![(0, 0, 3), (2, 4, 7)]);
    assert_eq!(f.cache_key, 1);
    f.match_case = false;
    f.update_find_matches(&results, 2);
    assert_eq!(f.matches, vec![(0, 0, 3), (2, 0, 3), (2, 4, 7)]);
}

#[test]
fn update_skips_on_same_key() {
    let results = vec![line("foo")];
    let mut f = FindState::new();
    f.text = "foo".to_string();
    f.update_find_matches(&results, 5);
    assert_eq!(f.matches.len(), 1);
    f.text = "zzz".to_string();
    f.update_find_matches(&results, 5);
    assert_eq!(f.matches.len(), 1);
    f.update_find_matches(&results, 6);
    assert!(f.matches.is_empty());
}

#[test]
fn update_resets_out_of_range_current() {
    let results = vec![line("x x x")];
    let mut f = FindState::new();
    f.text = "x".to_string();
    f.current = 5;
    f.update_find_matches(&results, 1);
    assert_eq!(f.current, 0);
    assert!(f.need_scroll);
    f.text = String::new();
    f.current = 2;
    f.update_find_matches(&results, 2);
    assert!(f.matches.is_empty());
    assert_eq!(f.current, 2);
}

#[test]
fn find_keys_cycle_through_matches() {
    let results = vec![line("a a a")];
    let mut f = FindState::new();
    f.text = "a".to_string();
    f.update_find_matches(&results, 1);
    assert!(f.on_find_keys(true, false, false, false));
    assert!(f.show_bar);
    assert_eq!(f.current, 0);
    assert!(!f.on_find_keys(false, false, true, false));
    assert_eq!(f.current, 1);
    f.on_find_keys(false, false, false, true);
    f.on_find_keys(false, false, false, true);
    assert_eq!(f.current, 2);
    f.on_find_keys(false, false, true, false);
    assert_eq!(f.current, 0);
    assert_eq!(f.counter(), (1, 3));
    f.on_find_keys(false, true, false, false);
    assert!(!f.show_bar);
}

#[test]
fn counter_without_matches() {
    let f = FindState::new();
    assert_eq!(f.counter(), (0, 0));
}

#[test]
fn ci_spans_follow_character_positions() {
    // lowercasing 'İ' gives two characters; the match still covers the 'x'
    assert_eq!(ci("İx", "x", false), vec![(2, 2, 3)]);
    assert_eq!(ci("aİb", "İ", false), vec![(2, 1, 3)]);
    assert_eq!(ci("İİx", "i", false), vec![(2, 0, 2), (2, 2, 4)]);
}

#[test]
fn whole_words_scan_goes_on_inside_skipped_match() {
    assert_eq!(cs("xaa aa", "aa", true), vec![(7, 4, 6)]);
    assert_eq!(ci("xaa aa", "aa", true), vec![(2, 4, 6)]);
}

#[test]
fn find_keys_overflow_guard() {
    let mut f = FindState::new();
    f.matches = vec![(0, 0, 1), (0, 2, 3)];
    f.current = usize::MAX;
    assert!(!f.can_take_find_keys(false, true, false));
    assert!(f.can_take_find_keys(true, true, false));
    assert!(!f.can_take_find_keys(false, false, true));
    f.current = 1;
    assert!(f.can_take_find_keys(false, true, true));
}

#[test]
fn next_then_previous_comes_back() {
    let results = vec![line("b b b b")];
    let mut f = FindState::new();
    f.text = "b".to_string();
    f.update_find_matches(&results, 1);
    for start in 0..4 {
        f.current = start;
        f.on_find_keys(false, false, true, false);
        f.on_find_keys(false, false, false, true);
        assert_eq!(f.current, start);
    }
}
