use rgathing::search::{
    can_convert_event, can_truncate_line, collect_step, match_from_event, plan_search, reader_step,
    collect_results, truncate_line, ReaderAction, Received, RgaEvent, RgaMatchData,
};
use rgathing::types::{DirTree, SearchDir, SearchMatch, SearchOptions, SearchStatus, SubMatch};

fn opts() -> SearchOptions {
    SearchOptions {
        case_insensitive: false,
        show_hidden: false,
        respect_gitignore: true,
        glob_filter: String::new(),
        exact_match: false,
        context_lines: 0,
    }
}

fn tree() -> DirTree {
    DirTree {
        free: vec![
            SearchDir { id: 0, path: "/docs".to_string(), enabled: true },
            SearchDir { id: 1, path: "/off".to_string(), enabled: false },
        ],
        groups: vec![],
        next_id: 2,
    }
}

fn data(lines: &str) -> RgaMatchData {
    RgaMatchData {
        path: "/docs/a.txt".to_string(),
        lines: lines.to_string(),
        line_number: Some(3),
        submatches: vec![SubMatch { text: "foo".to_string(), start: 4, end: 7 }],
    }
}

fn sm(line: &str) -> SearchMatch {
    SearchMatch {
        path: "/p".to_string(),
        line_number: None,
        line_text: line.to_string(),
        submatches: vec![],
        is_context: false,
    }
}

#[test]
fn short_lines_stay_whole() {
    assert_eq!(truncate_line("hello".to_string()), "hello");
    let exact = "x".repeat(2000);
    assert_eq!(truncate_line(exact.clone()), exact);
}

#[test]
fn long_lines_are_cut_with_ellipsis() {
    let long = "y".repeat(2500);
    let cut = truncate_line(long);
    assert_eq!(cut.len(), 2000 + '…'.len_utf8());
    assert!(cut.ends_with('…'));
    assert!(cut.starts_with(&"y".repeat(2000)));
}

#[test]
fn cut_inside_a_character_is_refused() {
    let s = format!("{}é{}", "a".repeat(1999), "b".repeat(10));
    assert!(!can_truncate_line(&s));
    assert!(can_truncate_line(&"a".repeat(3000)));
    assert!(can_truncate_line("é"));
}

#[test]
fn plan_refuses_without_enabled_dirs() {
    let t = DirTree { free: vec![], groups: vec![], next_id: 0 };
    assert_eq!(plan_search(&t, "foo", &opts()), Err("No directories enabled for search.".to_string()));
}

#[test]
fn plan_refuses_blank_pattern() {
    assert_eq!(plan_search(&tree(), " \t\n", &opts()), Err("Enter a search pattern.".to_string()));
}

#[test]
fn plan_plain_arguments() {
    let args = plan_search(&tree(), "foo", &opts()).unwrap();
    assert_eq!(args, vec!["--json", "foo", "/docs"]);
}

#[test]
fn plan_all_flags() {
    let o = SearchOptions {
        case_insensitive: true,
        show_hidden: true,
        respect_gitignore: false,
        glob_filter: "*.pdf".to_string(),
        exact_match: true,
        context_lines: 12,
    };
    let args = plan_search(&tree(), " a b ", &o).unwrap();
    assert_eq!(
        args,
        vec!["--json", "-i", "-F", "--hidden", "--no-ignore", "-g", "*.pdf", "-C", "12", " a b ", "/docs"]
    );
}

#[test]
fn match_event_becomes_result() {
    let m = match_from_event(RgaEvent::Match { data: data("the foo line") }).unwrap();
    assert_eq!(m.path, "/docs/a.txt");
    assert_eq!(m.line_number, Some(3));
    assert_eq!(m.line_text, "the foo line");
    assert_eq!(m.submatches.len(), 1);
    assert_eq!(m.submatches[0].start, 4);
    assert!(!m.is_context);
}

#[test]
fn context_event_has_no_submatches() {
    let m = match_from_event(RgaEvent::Context { data: data("around") }).unwrap();
    assert!(m.is_context);
    assert!(m.submatches.is_empty());
    assert_eq!(m.line_text, "around");
}

#[test]
fn other_events_yield_nothing() {
    assert!(match_from_event(RgaEvent::Begin { path: "/x".to_string() }).is_none());
    assert!(match_from_event(RgaEvent::End { path: "/x".to_string() }).is_none());
    assert!(match_from_event(RgaEvent::Summary).is_none());
    assert!(can_convert_event(&RgaEvent::Summary));
}

#[test]
fn reader_decisions() {
    assert!(matches!(reader_step(true, true, None), ReaderAction::Kill));
    assert!(matches!(reader_step(false, false, None), ReaderAction::Finish));
    assert!(matches!(reader_step(false, true, None), ReaderAction::Skip));
    assert!(matches!(reader_step(false, true, Some(RgaEvent::Summary)), ReaderAction::Skip));
    match reader_step(false, true, Some(RgaEvent::Match { data: data("foo") })) {
        ReaderAction::Send(m) => assert_eq!(m.line_text, "foo"),
        _ => panic!("expected a result"),
    }
}

#[test]
fn collect_steps() {
    let mut results = vec![];
    assert_eq!(collect_step(&mut results, Received::Item(sm("a"))), None);
    assert_eq!(collect_step(&mut results, Received::Empty), Some(SearchStatus::Searching));
    assert_eq!(collect_step(&mut results, Received::Disconnected), Some(SearchStatus::Done));
    assert_eq!(results.len(), 1);
}

#[test]
fn collect_from_channel() {
    let (tx, rx) = std::sync::mpsc::channel();
    let mut rx = Some(rx);
    let mut cancel = None;
    let mut results = vec![sm("kept")];
    tx.send(sm("one")).unwrap();
    tx.send(sm("two")).unwrap();
    assert_eq!(collect_results(&mut rx, &mut results, &mut cancel), SearchStatus::Searching);
    assert_eq!(results.len(), 3);
    assert_eq!(results[0].line_text, "kept");
    assert_eq!(results[1].line_text, "one");
    assert_eq!(results[2].line_text, "two");
    tx.send(sm("three")).unwrap();
    drop(tx);
    assert_eq!(collect_results(&mut rx, &mut results, &mut cancel), SearchStatus::Done);
    assert_eq!(results.len(), 4);
    let mut none = None;
    assert_eq!(collect_results(&mut none, &mut results, &mut cancel), SearchStatus::Idle);
    assert_eq!(results.len(), 4);
}

#[test]
fn cut_lines_stay_short() {
    let s = format!("{}{}", "é".repeat(1000), "z".repeat(50));
    assert!(can_truncate_line(&s));
    let cut = truncate_line(s);
    assert!(cut.len() <= 2003);
    assert_eq!(cut.chars().count(), 1001);
}
