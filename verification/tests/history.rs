use rgathing::history::{navigate_history, record_search, MAX_HISTORY};

#[test]
fn records_trimmed_pattern_once() {
    let mut h: Vec<String> = vec![];
    record_search(&mut h, "  foo ");
    record_search(&mut h, "foo");
    record_search(&mut h, "   ");
    record_search(&mut h, "bar");
    record_search(&mut h, "foo");
    assert_eq!(h, vec!["foo", "bar", "foo"]);
}

#[test]
fn history_keeps_latest_entries() {
    let mut h: Vec<String> = vec![];
    for i in 0..60 {
        record_search(&mut h, &format!("p{i}"));
    }
    assert_eq!(h.len(), MAX_HISTORY);
    assert_eq!(h[0], "p10");
    assert_eq!(h[49], "p59");
}

#[test]
fn navigation_up_and_down() {
    let h: Vec<String> = vec!["a".to_string(), "b".to_string(), "c".to_string()];
    let mut pattern = "typed".to_string();
    let i = navigate_history(&h, None, true, &mut pattern);
    assert_eq!((i, pattern.as_str()), (Some(2), "c"));
    let i = navigate_history(&h, i, true, &mut pattern);
    assert_eq!((i, pattern.as_str()), (Some(1), "b"));
    let i = navigate_history(&h, i, false, &mut pattern);
    assert_eq!((i, pattern.as_str()), (Some(2), "c"));
    let i = navigate_history(&h, i, false, &mut pattern);
    assert_eq!((i, pattern.as_str()), (None, ""));
    let i = navigate_history(&h, Some(0), true, &mut pattern);
    assert_eq!(i, None);
    let i = navigate_history(&h, None, false, &mut pattern);
    assert_eq!(i, None);
}

#[test]
fn navigation_in_empty_history_changes_nothing() {
    let h: Vec<String> = vec![];
    let mut pattern = "keep".to_string();
    assert_eq!(navigate_history(&h, None, true, &mut pattern), None);
    assert_eq!(pattern, "keep");
}
