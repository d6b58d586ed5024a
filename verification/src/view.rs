use vstd::prelude::*;

use crate::paths::{same_path, same_path_spec};
use crate::text::{
    decimal, decimal_string, parse_u64, parse_u64_spec, push_char, trim, trim_chars, trim_start,
    trim_start_chars,
};
use crate::types::{SearchMatch, SearchStatus};
use vstd::hash_set::StringHashSet;

verus! {

/// The most result rows the list shows.
pub const MAX_SHOWN_ROWS: usize = 20000;

// ── Page numbers ──────────────────────────────────────────────────────────

/// The characters that end a page number.
pub open spec fn page_number_end(c: char) -> bool {
    c == ':' || c == ' ' || c == '\n'
}

/// `s` up to its first page-number end.
pub open spec fn first_piece(s: Seq<char>) -> Seq<char>
    decreases s.len(),
{
    if s.len() == 0 || page_number_end(s[0]) {
        Seq::empty()
    } else {
        seq![s[0]] + first_piece(s.drop_first())
    }
}

/// The page number that text extracted from a PDF starts with, as in
/// `Page 12: ...`: after leading white space, `Page `, then a number ended
/// by `:`, a space, a line break or the end of the text.
pub open spec fn page_number_spec(text: Seq<char>) -> Option<u64> {
    let t = trim_start_chars(text);
    if t.len() >= 5 && t.take(5) == seq!['P', 'a', 'g', 'e', ' '] {
        parse_u64_spec(first_piece(t.skip(5)))
    } else {
        None
    }
}

/// The page number a result line starts with, if any.
pub fn page_number(text: &str) -> (r: Option<u64>)
    ensures
        r == page_number_spec(text@),
{
    let t = trim_start(text);
    let n = t.unicode_len();
    if n < 5 || t.get_char(0) != 'P' || t.get_char(1) != 'a' || t.get_char(2) != 'g' || t.get_char(3)
        != 'e' || t.get_char(4) != ' ' {
        proof {
            if n >= 5 {
                assert(t@.take(5)[0] == t@[0]);
                assert(t@.take(5)[1] == t@[1]);
                assert(t@.take(5)[2] == t@[2]);
                assert(t@.take(5)[3] == t@[3]);
                assert(t@.take(5)[4] == t@[4]);
            }
        }
        return None;
    }
    assert(t@.take(5) =~= seq!['P', 'a', 'g', 'e', ' ']);
    let mut e: usize = 5;
    while e < n && !(t.get_char(e) == ':' || t.get_char(e) == ' ' || t.get_char(e) == '\n')
        invariant
            n == t@.len(),
            5 <= e <= n,
            first_piece(t@.skip(5)) == t@.subrange(5, e as int) + first_piece(t@.skip(e as int)),
        decreases n - e,
    {
        assert(t@.skip(e as int)[0] == t@[e as int]);
        assert(t@.skip(e as int).drop_first() == t@.skip(e + 1));
        assert(t@.subrange(5, e + 1) == t@.subrange(5, e as int) + seq![t@[e as int]]);
        e += 1;
    }
    if e < n {
        assert(t@.skip(e as int)[0] == t@[e as int]);
    }
    assert(first_piece(t@.skip(e as int)) =~= Seq::empty());
    assert(first_piece(t@.skip(5)) =~= t@.subrange(5, e as int));
    parse_u64(t.substring_char(5, e))
}

/// Which of the first `count` result rows begin a new page: where some
/// line carries a page number, the first row does, and so does each row
/// whose page number differs from the last one seen before it.
pub open spec fn page_starts_spec(pages: Seq<Option<u64>>, count: int) -> Seq<bool> {
    let has_pages = exists|i: int| 0 <= i < pages.len() && pages[i] is Some;
    Seq::new(
        count as nat,
        |i: int|
            has_pages && (i == 0 || (pages[i] is Some && page_before(pages, i) is Some && pages[i]
                != page_before(pages, i))),
    )
}

/// The page in effect before row `i > 0`: the nearest page number among
/// rows 1 to `i - 1`, else the page of row 0 (which may be none).
pub open spec fn page_before(pages: Seq<Option<u64>>, i: int) -> Option<u64>
    decreases i,
{
    if i <= 1 {
        pages[0]
    } else if pages[i - 1] is Some {
        pages[i - 1]
    } else {
        page_before(pages, i - 1)
    }
}

/// The page in effect before row `i` is the page number of the nearest
/// earlier row that has one; rows without a page number in between do not
/// change it.
proof fn lemma_page_before_nearest(pages: Seq<Option<u64>>, i: int, j: int)
    requires
        0 <= j < i <= pages.len(),
        pages[j] is Some,
        forall|k: int| j < k < i ==> pages[k] is None,
    ensures
        page_before(pages, i) == pages[j],
    decreases i,
{
    if i > 1 && j < i - 1 {
        lemma_page_before_nearest(pages, i - 1, j);
    }
}

/// Before the first row that has a page number, no page is in effect.
proof fn lemma_page_before_none(pages: Seq<Option<u64>>, i: int)
    requires
        0 < i <= pages.len(),
        forall|k: int| 0 <= k < i ==> pages[k] is None,
    ensures
        page_before(pages, i) is None,
    decreases i,
{
    if i > 1 {
        lemma_page_before_none(pages, i - 1);
    }
}

/// A row with a page number begins a new page exactly when the nearest
/// earlier row with a page number has another one; rows without a page
/// number in between are passed over. A row with a page number and no
/// such earlier row, other than the first, begins none; nor does a row
/// without a page number, other than the first; the first row begins one
/// as soon as any row has a page number.
pub proof fn lemma_separator_where_page_changes(pages: Seq<Option<u64>>, count: int, i: int)
    requires
        0 <= i < count <= pages.len(),
    ensures
        i == 0 ==> page_starts_spec(pages, count)[i] == exists|k: int| 0 <= k < pages.len() && pages[k] is Some,
        i > 0 && pages[i] is None ==> !page_starts_spec(pages, count)[i],
        forall|j: int|
            0 <= j < i && pages[j] is Some && (forall|k: int| j < k < i ==> pages[k] is None) && pages[i] is Some
                ==> page_starts_spec(pages, count)[i] == (pages[i] != pages[j]),
        i > 0 && (forall|k: int| 0 <= k < i ==> pages[k] is None) ==> !page_starts_spec(pages, count)[i],
{
    assert forall|j: int|
        0 <= j < i && pages[j] is Some && (forall|k: int| j < k < i ==> pages[k] is None) && pages[i] is Some
            implies page_starts_spec(pages, count)[i] == (pages[i] != pages[j]) by {
        lemma_page_before_nearest(pages, i, j);
        if i > 0 {
            assert(page_starts_spec(pages, count)[i] == (pages[i] != page_before(pages, i)));
        }
    }
    if i > 0 && (forall|k: int| 0 <= k < i ==> pages[k] is None) {
        lemma_page_before_none(pages, i);
    }
}

/// The page number of each result line.
pub open spec fn line_pages(results: Seq<SearchMatch>) -> Seq<Option<u64>> {
    results.map_values(|m: SearchMatch| page_number_spec(m.line_text@))
}

/// Marks the first `count` result rows that begin a new page of a PDF, to
/// draw a separator above them.
pub fn entry_starts(results: &Vec<SearchMatch>, count: usize) -> (starts: Vec<bool>)
    requires
        count <= results@.len(),
    ensures
        starts@ == page_starts_spec(line_pages(results@), count as int),
{
    let ghost pages = line_pages(results@);
    let mut page_of: Vec<Option<u64>> = Vec::new();
    let mut has_pages = false;
    let mut k: usize = 0;
    while k < results.len()
        invariant
            k <= results@.len(),
            pages == line_pages(results@),
            page_of@ == pages.take(k as int),
            has_pages == exists|i: int| 0 <= i < k && pages[i] is Some,
        decreases results@.len() - k,
    {
        let p = page_number(results[k].line_text.as_str());
        assert(pages[k as int] == p);
        page_of.push(p);
        if p.is_some() {
            has_pages = true;
        }
        k += 1;
        assert(page_of@ =~= pages.take(k as int));
    }
    assert(page_of@ =~= pages);
    let mut starts: Vec<bool> = Vec::new();
    let mut i: usize = 0;
    let mut prev: Option<u64> = None;
    while i < count
        invariant
            count <= pages.len(),
            page_of@ == pages,
            i <= count,
            has_pages == exists|j: int| 0 <= j < pages.len() && pages[j] is Some,
            i > 0 ==> prev == (if i == 1 { pages[0] } else if pages[i - 1] is Some { pages[i - 1] } else { page_before(pages, i - 1) }),
            starts@ == page_starts_spec(pages, count as int).take(i as int),
        decreases count - i,
    {
        let cur = page_of[i];
        let s = if !has_pages {
            false
        } else if i == 0 {
            true
        } else {
            cur.is_some() && prev.is_some() && cur != prev
        };
        if i == 0 {
            prev = cur;
        } else if cur.is_some() {
            prev = cur;
        }
        starts.push(s);
        i += 1;
        assert(starts@ =~= page_starts_spec(pages, count as int).take(i as int));
    }
    assert(starts@ =~= page_starts_spec(pages, count as int));
    starts
}

// ── Find highlights per row ───────────────────────────────────────────────

/// The byte spans of the find matches that lie in row `row`, in order.
pub open spec fn row_spans(matches: Seq<(usize, usize, usize)>, row: usize) -> Seq<(usize, usize)>
    decreases matches.len(),
{
    if matches.len() == 0 {
        Seq::empty()
    } else {
        row_spans(matches.drop_last(), row) + (if matches.last().0 == row {
            seq![(matches.last().1, matches.last().2)]
        } else {
            Seq::empty()
        })
    }
}

/// The find spans of each of the first `rows` rows.
pub fn find_buckets(rows: usize, matches: &Vec<(usize, usize, usize)>) -> (buckets: Vec<Vec<(usize, usize)>>)
    ensures
        buckets@.len() == rows,
        forall|r: int| 0 <= r < rows ==> #[trigger] buckets@[r]@ == row_spans(matches@, r as usize),
{
    let mut buckets: Vec<Vec<(usize, usize)>> = Vec::new();
    let mut r: usize = 0;
    while r < rows
        invariant
            r <= rows,
            buckets@.len() == r,
            forall|q: int| 0 <= q < r ==> #[trigger] buckets@[q]@.len() == 0,
        decreases rows - r,
    {
        buckets.push(Vec::new());
        r += 1;
    }
    let mut k: usize = 0;
    while k < matches.len()
        invariant
            k <= matches@.len(),
            buckets@.len() == rows,
            forall|q: int| 0 <= q < rows ==> #[trigger] buckets@[q]@ == row_spans(matches@.take(k as int), q as usize),
        decreases matches@.len() - k,
    {
        let (ri, s, e) = matches[k];
        assert(matches@.take(k + 1).drop_last() == matches@.take(k as int));
        if ri < buckets.len() {
            let ghost old_buckets = buckets@;
            buckets[ri].push((s, e));
            assert forall|q: int| 0 <= q < rows implies #[trigger] buckets@[q]@ == row_spans(matches@.take(k + 1), q as usize) by {
                if q != ri {
                    assert(buckets@[q] == old_buckets[q]);
                }
            }
        }
        k += 1;
    }
    assert(matches@.take(k as int) == matches@);
    buckets
}

// ── Rows of the result list ───────────────────────────────────────────────

/// How a result row starts.
#[derive(Debug, PartialEq, Eq, Structural)]
pub enum RowStart {
    /// Its file is collapsed: the row is not shown.
    Skip,
    /// It is the first row of a file: a file header comes first.
    NewFile,
    /// It continues the file of the row before.
    SameFile,
}

/// Walks the result rows in order, tracking the file shown last and the
/// collapsed file whose rows are being passed over.
#[derive(Debug)]
pub struct RowCursor {
    pub current: Option<String>,
    pub skipping: Option<String>,
}

impl RowCursor {
    /// A walk that has shown nothing yet.
    pub fn new() -> (c: RowCursor)
        ensures
            c.current is None,
            c.skipping is None,
    {
        RowCursor { current: None, skipping: None }
    }

    /// Enters the row of the file at `path`. A row of the collapsed file
    /// being passed over is skipped; any other row ends the passing over. A
    /// row whose file differs from the last one shown starts a new file.
    pub fn enter_row(&mut self, path: &str) -> (r: RowStart)
        ensures
            (match old(self).skipping {
                Some(sp) => same_path_spec(path@, sp@),
                None => false,
            }) ==> r == RowStart::Skip && *final(self) == *old(self),
            !(match old(self).skipping {
                Some(sp) => same_path_spec(path@, sp@),
                None => false,
            }) ==> {
                &&& final(self).skipping is None
                &&& (match old(self).current {
                    Some(c) => same_path_spec(c@, path@),
                    None => false,
                }) ==> r == RowStart::SameFile && final(self).current == old(self).current
                &&& !(match old(self).current {
                    Some(c) => same_path_spec(c@, path@),
                    None => false,
                }) ==> (r == RowStart::NewFile && (final(self).current matches Some(c) && c@ == path@))
            },
    {
        let skip_now = match &self.skipping {
            Some(sp) => same_path(path, sp.as_str()),
            None => false,
        };
        if skip_now {
            return RowStart::Skip;
        }
        self.skipping = None;
        let same = match &self.current {
            Some(c) => same_path(c.as_str(), path),
            None => false,
        };
        if same {
            RowStart::SameFile
        } else {
            self.current = Some(path.to_owned());
            RowStart::NewFile
        }
    }

    /// The file at `path`, just entered, is collapsed: its rows are passed
    /// over until another file comes.
    pub fn collapse_file(&mut self, path: &str)
        ensures
            final(self).current == old(self).current,
            (final(self).skipping matches Some(sp) && sp@ == path@),
    {
        self.skipping = Some(path.to_owned());
    }
}

// ── Texts of the result list ──────────────────────────────────────────────

/// `s` padded on the left with spaces to at least `width` characters.
pub open spec fn pad_left(s: Seq<char>, width: nat) -> Seq<char> {
    if s.len() >= width {
        s
    } else {
        Seq::new((width - s.len()) as nat, |i: int| ' ') + s
    }
}

/// The gutter before a line: its number right-aligned in five columns and a
/// bar, or nothing for a line without a number.
pub open spec fn line_number_text(ln: Option<u64>) -> Seq<char> {
    match ln {
        Some(n) => pad_left(decimal(n as nat), 5) + seq![' ', '│', ' '],
        None => Seq::empty(),
    }
}

/// The gutter text of a line number.
pub fn format_line_number(ln: Option<u64>) -> (s: String)
    ensures
        s@ == line_number_text(ln),
{
    match ln {
        Some(n) => {
            let digits = decimal_string(n);
            let d = digits.as_str().unicode_len();
            let mut s = String::new();
            let mut k: usize = d;
            while k < 5
                invariant
                    d == decimal(n as nat).len(),
                    d <= k,
                    d <= 5 ==> k <= 5,
                    d > 5 ==> k == d,
                    s@ == Seq::new((k - d) as nat, |i: int| ' '),
                decreases 5 - k,
            {
                push_char(&mut s, ' ');
                k += 1;
                assert(s@ =~= Seq::new((k - d) as nat, |i: int| ' '));
            }
            let ghost pad = s@;
            let mut j: usize = 0;
            while j < d
                invariant
                    d == digits@.len(),
                    j <= d,
                    s@ == pad + digits@.take(j as int),
                decreases d - j,
            {
                push_char(&mut s, digits.as_str().get_char(j));
                j += 1;
                assert(s@ =~= pad + digits@.take(j as int));
            }
            assert(digits@.take(d as int) == digits@);
            push_char(&mut s, ' ');
            push_char(&mut s, '│');
            push_char(&mut s, ' ');
            assert(s@ =~= pad_left(decimal(n as nat), 5) + seq![' ', '│', ' ']);
            s
        },
        None => String::new(),
    }
}

/// The text shown for a result line: `(empty)` for a blank context line,
/// else the line itself.
pub open spec fn shown_line_text(m: SearchMatch) -> Seq<char> {
    if m.is_context && trim_chars(m.line_text@).len() == 0 {
        seq!['(', 'e', 'm', 'p', 't', 'y', ')']
    } else {
        m.line_text@
    }
}

/// Appends the characters of `t` to `s`.
fn push_str(s: &mut String, t: &str)
    ensures
        final(s)@ == old(s)@ + t@,
{
    let n = t.unicode_len();
    let ghost start = s@;
    let mut j: usize = 0;
    while j < n
        invariant
            n == t@.len(),
            j <= n,
            s@ == start + t@.take(j as int),
        decreases n - j,
    {
        push_char(s, t.get_char(j));
        j += 1;
        assert(s@ =~= start + t@.take(j as int));
    }
    assert(t@.take(n as int) == t@);
}

/// The text shown for a result line.
pub fn shown_line(m: &SearchMatch) -> (s: String)
    ensures
        s@ == shown_line_text(*m),
{
    if m.is_context && trim(m.line_text.as_str()).unicode_len() == 0 {
        let s = "(empty)".to_owned();
        proof {
            reveal_strlit("(empty)");
        }
        assert(s@ =~= seq!['(', 'e', 'm', 'p', 't', 'y', ')']);
        s
    } else {
        m.line_text.clone()
    }
}

/// `s` or the plural ending `e` appended to it when `n` is not one.
pub open spec fn plural(s: Seq<char>, n: nat, e: Seq<char>) -> Seq<char> {
    if n == 1 {
        s
    } else {
        s + e
    }
}

/// The status line above the results.
pub open spec fn status_line(status: SearchStatus, total: nat, files: nat) -> Seq<char> {
    match status {
        SearchStatus::Idle => "Ready — type a pattern and press Search"@,
        SearchStatus::Searching => "Searching… "@ + decimal(total) + " matches so far"@,
        SearchStatus::Done => "Done — "@ + decimal(total) + plural(" match"@, total, "es"@) + " in "@
            + decimal(files) + plural(" file"@, files, "s"@),
    }
}

/// The status line for a search in state `status` with `total` results in
/// `files` files.
pub fn status_text(status: SearchStatus, total: usize, files: usize) -> (s: String)
    ensures
        s@ == status_line(status, total as nat, files as nat),
{
    match status {
        SearchStatus::Idle => "Ready — type a pattern and press Search".to_owned(),
        SearchStatus::Searching => {
            let mut s = "Searching… ".to_owned();
            push_str(&mut s, decimal_string(total as u64).as_str());
            push_str(&mut s, " matches so far");
            s
        },
        SearchStatus::Done => {
            let mut s = "Done — ".to_owned();
            push_str(&mut s, decimal_string(total as u64).as_str());
            push_str(&mut s, " match");
            if total != 1 {
                push_str(&mut s, "es");
            }
            push_str(&mut s, " in ");
            push_str(&mut s, decimal_string(files as u64).as_str());
            push_str(&mut s, " file");
            if files != 1 {
                push_str(&mut s, "s");
            }
            s
        },
    }
}

// ── Files of the results ──────────────────────────────────────────────────

/// The paths among `paths` that do not occur earlier, in the order they
/// first come.
pub open spec fn first_appearances(paths: Seq<Seq<char>>) -> Seq<Seq<char>>
    decreases paths.len(),
{
    if paths.len() == 0 {
        Seq::empty()
    } else {
        let pre = paths.drop_last();
        first_appearances(pre) + (if pre.contains(paths.last()) {
            Seq::empty()
        } else {
            seq![paths.last()]
        })
    }
}

/// The path of each result.
pub open spec fn result_paths(results: Seq<SearchMatch>) -> Seq<Seq<char>> {
    results.map_values(|m: SearchMatch| m.path@)
}

/// The files of the results, each once, in the order they first come, told
/// apart by the text of their paths: "Collapse all" sets each of them.
pub fn result_files(results: &Vec<SearchMatch>) -> (files: Vec<String>)
    ensures
        files@.map_values(|f: String| f@) == first_appearances(result_paths(results@)),
{
    let mut seen = StringHashSet::new();
    let mut files: Vec<String> = Vec::new();
    let mut i: usize = 0;
    while i < results.len()
        invariant
            i <= results@.len(),
            files@.map_values(|f: String| f@) == first_appearances(result_paths(results@).take(i as int)),
            forall|x: Seq<char>| #[trigger] seen@.contains(x) <==> result_paths(results@).take(i as int).contains(x),
        decreases results@.len() - i,
    {
        let ghost pre = result_paths(results@).take(i as int);
        let ghost next = result_paths(results@).take(i + 1);
        assert(next.drop_last() == pre);
        assert(next.last() == results@[i as int].path@);
        let p = &results[i].path;
        let known = seen.contains(p.as_str());
        if !known {
            seen.insert(p.clone());
            let ghost before = files@;
            files.push(p.clone());
            assert(files@.map_values(|f: String| f@) =~= before.map_values(|f: String| f@).push(p@));
        }
        proof {
            assert forall|x: Seq<char>| #[trigger] seen@.contains(x) <==> next.contains(x) by {
                if next.contains(x) {
                    let k = choose|k: int| 0 <= k < next.len() && next[k] == x;
                    if k < pre.len() {
                        assert(pre[k] == x);
                    }
                }
                if pre.contains(x) {
                    let k = choose|k: int| 0 <= k < pre.len() && pre[k] == x;
                    assert(next[k] == x);
                }
                if x == p@ {
                    assert(next[i as int] == x);
                }
            }
        }
        i += 1;
    }
    assert(result_paths(results@).take(i as int) == result_paths(results@));
    files
}

/// `p` is one of the paths `reps`, as text or as a path.
pub open spec fn represented(reps: Seq<Seq<char>>, p: Seq<char>) -> bool {
    exists|k: int| 0 <= k < reps.len() && (reps[k] == p || same_path_spec(#[trigger] reps[k], p))
}

/// One path of each file among `paths`, in the order the files first come:
/// a path is kept when no path kept before it is the same path.
pub open spec fn file_representatives(paths: Seq<Seq<char>>) -> Seq<Seq<char>>
    decreases paths.len(),
{
    if paths.len() == 0 {
        Seq::empty()
    } else {
        let reps = file_representatives(paths.drop_last());
        if represented(reps, paths.last()) {
            reps
        } else {
            reps.push(paths.last())
        }
    }
}

/// Every path of `paths` is one of its file representatives, as text or
/// as a path.
proof fn lemma_paths_represented(paths: Seq<Seq<char>>)
    ensures
        forall|j: int| 0 <= j < paths.len() ==> represented(file_representatives(paths), #[trigger] paths[j]),
    decreases paths.len(),
{
    if paths.len() > 0 {
        let pre = paths.drop_last();
        lemma_paths_represented(pre);
        let reps = file_representatives(pre);
        let all = file_representatives(paths);
        assert forall|j: int| 0 <= j < paths.len() implies represented(all, #[trigger] paths[j]) by {
            if j < pre.len() {
                assert(pre[j] == paths[j]);
                assert(represented(reps, pre[j]));
                let k = choose|k: int| 0 <= k < reps.len() && (reps[k] == pre[j] || same_path_spec(#[trigger] reps[k], pre[j]));
                assert(all[k] == reps[k]);
            } else if !represented(reps, paths.last()) {
                assert(all[reps.len() as int] == paths.last());
            }
        }
    }
}

/// The number of files the results come from, paths being compared as
/// paths: "Done — … in N files" counts them.
pub fn count_files(results: &Vec<SearchMatch>) -> (n: usize)
    ensures
        n == file_representatives(result_paths(results@)).len(),
{
    let mut seen = StringHashSet::new();
    let mut reps: Vec<String> = Vec::new();
    let mut i: usize = 0;
    while i < results.len()
        invariant
            i <= results@.len(),
            reps@.map_values(|f: String| f@) == file_representatives(result_paths(results@).take(i as int)),
            forall|x: Seq<char>| #[trigger] seen@.contains(x) ==> result_paths(results@).take(i as int).contains(x),
        decreases results@.len() - i,
    {
        let ghost pre = result_paths(results@).take(i as int);
        let ghost next = result_paths(results@).take(i + 1);
        assert(next.drop_last() == pre);
        assert(next.last() == results@[i as int].path@);
        let p = &results[i].path;
        if seen.contains(p.as_str()) {
            proof {
                let j = choose|j: int| 0 <= j < pre.len() && pre[j] == p@;
                lemma_paths_represented(pre);
                assert(represented(file_representatives(pre), pre[j]));
            }
        } else {
            seen.insert(p.clone());
            let ghost rv = reps@.map_values(|f: String| f@);
            let mut k: usize = 0;
            let mut found = false;
            while k < reps.len() && !found
                invariant
                    k <= reps@.len(),
                    rv == reps@.map_values(|f: String| f@),
                    found ==> represented(rv, p@),
                    !found ==> forall|m: int| 0 <= m < k ==> !(rv[m] == p@ || same_path_spec(#[trigger] rv[m], p@)),
                decreases reps@.len() + 1 - k - (if found { 1int } else { 0int }),
            {
                assert(rv[k as int] == reps@[k as int]@);
                if reps[k] == *p || same_path(reps[k].as_str(), p.as_str()) {
                    found = true;
                } else {
                    k += 1;
                }
            }
            if !found {
                reps.push(p.clone());
                assert(reps@.map_values(|f: String| f@) =~= rv.push(p@));
            }
        }
        proof {
            assert forall|x: Seq<char>| #[trigger] seen@.contains(x) implies next.contains(x) by {
                if x == p@ {
                    assert(next[i as int] == x);
                } else {
                    let j = choose|j: int| 0 <= j < pre.len() && pre[j] == x;
                    assert(next[j] == x);
                }
            }
        }
        i += 1;
    }
    assert(result_paths(results@).take(i as int) == result_paths(results@));
    reps.len()
}

/// What "Collapse all" sets every file to, given the collapsed flags of the
/// files: expanded (`false`) when every file is collapsed, else collapsed.
pub fn collapse_all_target(flags: &Vec<bool>) -> (collapse: bool)
    ensures
        collapse == !(forall|i: int| 0 <= i < flags@.len() ==> flags@[i]),
{
    let mut i: usize = 0;
    while i < flags.len()
        invariant
            i <= flags@.len(),
            forall|j: int| 0 <= j < i ==> flags@[j],
        decreases flags@.len() - i,
    {
        if !flags[i] {
            return true;
        }
        i += 1;
    }
    false
}

/// The notice below a result list cut at `MAX_SHOWN_ROWS` rows, when it is.
pub open spec fn overflow_notice_text(total: nat) -> Option<Seq<char>> {
    if total > MAX_SHOWN_ROWS {
        Some("… and "@ + decimal((total - MAX_SHOWN_ROWS) as nat)
            + " more (limit reached to keep UI responsive)"@)
    } else {
        None
    }
}

/// The notice for a list of `total` results.
pub fn overflow_notice(total: usize) -> (r: Option<String>)
    ensures
        match r {
            Some(s) => overflow_notice_text(total as nat) == Some(s@),
            None => overflow_notice_text(total as nat) is None,
        },
{
    if total > MAX_SHOWN_ROWS {
        let mut s = "… and ".to_owned();
        push_str(&mut s, decimal_string((total - MAX_SHOWN_ROWS) as u64).as_str());
        push_str(&mut s, " more (limit reached to keep UI responsive)");
        Some(s)
    } else {
        None
    }
}

/// The glob that narrows a search to files named `name`, in any directory.
pub fn file_glob(name: &str) -> (g: String)
    ensures
        g@ == seq!['*', '*', '/'] + name@,
{
    let mut g = String::new();
    push_char(&mut g, '*');
    push_char(&mut g, '*');
    push_char(&mut g, '/');
    push_str(&mut g, name);
    assert(g@ =~= seq!['*', '*', '/'] + name@);
    g
}

/// The number of rows the list shows out of `total`.
pub fn shown_rows(total: usize) -> (n: usize)
    ensures
        n == if total < MAX_SHOWN_ROWS {
            total
        } else {
            MAX_SHOWN_ROWS
        },
{
    if total < MAX_SHOWN_ROWS {
        total
    } else {
        MAX_SHOWN_ROWS
    }
}

} // verus!
