use rgathing::highlight::{highlight_segments, Segment, SpanKind};
use rgathing::paths::file_name;
use rgathing::types::{SearchMatch, SearchStatus, SubMatch};
use rgathing::view::{
    collapse_all_target, count_files, result_files, entry_starts, file_glob, find_buckets, format_line_number, overflow_notice, page_number, shown_line,
    shown_rows, status_text, RowCursor, RowStart,
};

fn m(path: &str, text: &str, is_context: bool) -> SearchMatch {
    SearchMatch {
        path: path.to_string(),
        line_number: None,
        line_text: text.to_string(),
        submatches: vec![],
        is_context,
    }
}

fn seg(start: usize, end: usize, kind: Option<SpanKind>) -> Segment {
    Segment { start, end, kind }
}

#[test]
fn page_numbers() {
    assert_eq!(page_number("Page 12: intro"), Some(12));
    assert_eq!(page_number("   Page 3 text"), Some(3));
    assert_eq!(page_number("Page 7"), Some(7));
    assert_eq!(page_number("Page +7\nmore"), Some(7));
    assert_eq!(page_number("Page x: y"), None);
    assert_eq!(page_number("page 4: y"), None);
    assert_eq!(page_number("Page :"), None);
    assert_eq!(page_number("Page 99999999999999999999: y"), None);
    assert_eq!(page_number("Page 18446744073709551615"), Some(u64::MAX));
    assert_eq!(page_number("no page"), None);
}

#[test]
fn entry_starts_follow_page_changes() {
    let rs = vec![
        m("/a", "Page 1: x", false),
        m("/a", "more", false),
        m("/a", "Page 1: y", false),
        m("/a", "Page 2: z", false),
        m("/a", "tail", false),
    ];
    assert_eq!(entry_starts(&rs, 5), vec![true, false, false, true, false]);
    assert_eq!(entry_starts(&rs, 2), vec![true, false]);
    let plain = vec![m("/a", "x", false), m("/a", "y", false)];
    assert_eq!(entry_starts(&plain, 2), vec![false, false]);
}

#[test]
fn page_before_first_numbered_row() {
    let rs = vec![m("/a", "intro", false), m("/a", "Page 1: a", false), m("/a", "Page 2: b", false)];
    assert_eq!(entry_starts(&rs, 3), vec![true, false, true]);
}

#[test]
fn buckets_per_row() {
    let b = find_buckets(3, &vec![(0, 1, 2), (2, 0, 1), (0, 4, 5), (9, 0, 1)]);
    assert_eq!(b, vec![vec![(1, 2), (4, 5)], vec![], vec![(0, 1)]]);
}

#[test]
fn row_cursor_groups_and_skips() {
    let mut c = RowCursor::new();
    assert_eq!(c.enter_row("/a"), RowStart::NewFile);
    assert_eq!(c.enter_row("/a"), RowStart::SameFile);
    assert_eq!(c.enter_row("/b"), RowStart::NewFile);
    c.collapse_file("/b");
    assert_eq!(c.enter_row("/b"), RowStart::Skip);
    assert_eq!(c.enter_row("/b/"), RowStart::Skip);
    assert_eq!(c.enter_row("/c"), RowStart::NewFile);
    assert_eq!(c.enter_row("/c"), RowStart::SameFile);
}

#[test]
fn line_number_gutter() {
    assert_eq!(format_line_number(Some(42)), "   42 │ ");
    assert_eq!(format_line_number(Some(0)), "    0 │ ");
    assert_eq!(format_line_number(Some(123456)), "123456 │ ");
    assert_eq!(format_line_number(None), "");
}

#[test]
fn empty_context_lines_are_marked() {
    assert_eq!(shown_line(&m("/a", "  ", true)), "(empty)");
    assert_eq!(shown_line(&m("/a", "  ", false)), "  ");
    assert_eq!(shown_line(&m("/a", "x", true)), "x");
}

#[test]
fn status_texts() {
    assert_eq!(status_text(SearchStatus::Idle, 3, 1), "Ready — type a pattern and press Search");
    assert_eq!(status_text(SearchStatus::Searching, 7, 1), "Searching… 7 matches so far");
    assert_eq!(status_text(SearchStatus::Done, 1, 1), "Done — 1 match in 1 file");
    assert_eq!(status_text(SearchStatus::Done, 0, 0), "Done — 0 matches in 0 files");
    assert_eq!(status_text(SearchStatus::Done, 25, 3), "Done — 25 matches in 3 files");
}

#[test]
fn overflow_notice_past_limit() {
    assert_eq!(overflow_notice(20000), None);
    assert_eq!(
        overflow_notice(20005),
        Some("… and 5 more (limit reached to keep UI responsive)".to_string())
    );
    assert_eq!(shown_rows(5), 5);
    assert_eq!(shown_rows(30000), 20000);
}

#[test]
fn file_names() {
    assert_eq!(file_name("/a/b/c.txt"), "c.txt");
    assert_eq!(file_name("/a/b/"), "b");
    assert_eq!(file_name("/"), "???");
    assert_eq!(file_name("a/.."), "???");
    assert_eq!(file_glob("c.txt"), "**/c.txt");
}

#[test]
fn highlight_without_spans_is_one_piece() {
    assert_eq!(highlight_segments("hello", &vec![], &vec![], None), vec![seg(0, 5, None)]);
    assert_eq!(highlight_segments("", &vec![], &vec![], None), vec![]);
}

#[test]
fn highlight_layers_by_strength() {
    let subs = vec![SubMatch { text: "bcde".to_string(), start: 1, end: 5 }];
    let finds = vec![(2, 4), (6, 9)];
    let segs = highlight_segments("abcdefg", &subs, &finds, Some((3, 4)));
    assert_eq!(
        segs,
        vec![
            seg(0, 1, None),
            seg(1, 2, Some(SpanKind::Rga)),
            seg(2, 3, Some(SpanKind::Find)),
            seg(3, 4, Some(SpanKind::CurFind)),
            seg(4, 5, Some(SpanKind::Rga)),
            seg(5, 6, None),
            seg(6, 7, Some(SpanKind::Find)),
        ]
    );
}

#[test]
fn highlight_widens_to_characters() {
    // "é" takes bytes 0..2; a span ending inside it covers the whole character
    let subs = vec![SubMatch { text: String::new(), start: 0, end: 1 }];
    let segs = highlight_segments("éa", &subs, &vec![], None);
    assert_eq!(segs, vec![seg(0, 2, Some(SpanKind::Rga)), seg(0, 3, None)]);
}

#[test]
fn result_files_each_once_in_first_order() {
    let rs = vec![m("/b", "x", false), m("/a", "y", false), m("/b", "z", true), m("/c", "w", false), m("/a", "v", false)];
    assert_eq!(result_files(&rs), vec!["/b".to_string(), "/a".to_string(), "/c".to_string()]);
    assert_eq!(result_files(&vec![]), Vec::<String>::new());
}

#[test]
fn collapse_all_flips_only_when_all_collapsed() {
    assert!(collapse_all_target(&vec![]) == false);
    assert!(collapse_all_target(&vec![true, true]) == false);
    assert!(collapse_all_target(&vec![true, false, true]));
    assert!(collapse_all_target(&vec![false]));
}

#[test]
fn files_counted_as_paths() {
    let rs = vec![m("/a/b", "x", false), m("/a/b/", "y", false), m("/a//b", "z", false), m("/c", "w", false), m("/a/b", "v", false)];
    assert_eq!(count_files(&rs), 2);
    assert_eq!(result_files(&rs).len(), 4);
    assert_eq!(count_files(&vec![]), 0);
    assert_eq!(count_files(&vec![m("x", "1", false), m("./x", "2", false)]), 2);
}
