use vstd::prelude::*;
use vstd::utf8::*;

use crate::text::{byte_len, decimal, decimal_string, lemma_encode_concat, push_char, trim, trim_chars};
use crate::types::{DirTree, SearchMatch, SearchOptions, SearchStatus, SubMatch};

verus! {

broadcast use vstd::utf8::group_utf8_lib;

/// The longest line text, in bytes, kept whole in a result.
pub const MAX_LINE_LEN: usize = 2000;

// ── Long lines ────────────────────────────────────────────────────────────

/// A line can be cut to `MAX_LINE_LEN` bytes: it is no longer than that, or
/// that many bytes end on a character boundary.
pub open spec fn truncatable(s: Seq<char>) -> bool {
    encode_utf8(s).len() > MAX_LINE_LEN ==> is_char_boundary(encode_utf8(s), MAX_LINE_LEN as int)
}

/// A line as a result shows it: its first `MAX_LINE_LEN` bytes followed by an
/// ellipsis when it is longer, else the whole line.
pub open spec fn truncated_line(s: Seq<char>) -> Seq<char> {
    if encode_utf8(s).len() > MAX_LINE_LEN {
        decode_utf8(encode_utf8(s).subrange(0, MAX_LINE_LEN as int)).push('…')
    } else {
        s
    }
}

/// A line cut to size takes at most `MAX_LINE_LEN` bytes and the three
/// bytes of the ellipsis.
pub proof fn lemma_truncated_line_len(s: Seq<char>)
    requires
        truncatable(s),
    ensures
        encode_utf8(truncated_line(s)).len() <= MAX_LINE_LEN + 3,
{
    let b = encode_utf8(s);
    if b.len() > MAX_LINE_LEN {
        let head = b.subrange(0, MAX_LINE_LEN as int);
        valid_utf8_split(b, MAX_LINE_LEN as int);
        decode_utf8_encode_utf8(head);
        let d = decode_utf8(head);
        lemma_encode_concat(d, seq!['…']);
        assert(d.push('…') == d + seq!['…']);
        assert(encode_utf8(seq!['…']) =~= encode_scalar('…' as u32) + encode_utf8(seq!['…'].drop_first()));
        assert(encode_scalar('…' as u32).len() == 3);
    }
}

/// Whether `truncate_line` can take `s`.
pub fn can_truncate_line(s: &str) -> (b: bool)
    ensures
        b == truncatable(s@),
{
    byte_len(s) <= MAX_LINE_LEN || s.is_char_boundary(MAX_LINE_LEN)
}

/// Cuts a line longer than `MAX_LINE_LEN` bytes to that many bytes and marks
/// the cut with an ellipsis.
pub fn truncate_line(s: String) -> (r: String)
    requires
        truncatable(s@),
    ensures
        r@ == truncated_line(s@),
{
    if byte_len(s.as_str()) > MAX_LINE_LEN {
        let (head, _tail) = s.as_str().split_at(MAX_LINE_LEN);
        proof {
            encode_utf8_decode_utf8(head@);
        }
        let mut r = head.to_owned();
        push_char(&mut r, '…');
        r
    } else {
        s
    }
}

// ── Starting a search ─────────────────────────────────────────────────────

/// Why a search cannot start: no enabled directory, or a blank pattern.
pub open spec fn search_refusal(tree: DirTree, pattern: Seq<char>) -> Option<Seq<char>> {
    if tree.spec_enabled_paths().len() == 0 {
        Some("No directories enabled for search."@)
    } else if trim_chars(pattern).len() == 0 {
        Some("Enter a search pattern."@)
    } else {
        None
    }
}

/// A single argument when `b` holds, else none.
pub open spec fn arg_if(b: bool, a: Seq<char>) -> Seq<Seq<char>> {
    if b {
        seq![a]
    } else {
        Seq::empty()
    }
}

/// The command-line arguments of `rga` for a search: JSON output, the
/// flags the options ask for, the pattern, then the paths.
pub open spec fn rga_args(pattern: Seq<char>, opts: SearchOptions, paths: Seq<Seq<char>>) -> Seq<Seq<char>> {
    seq!["--json"@] + arg_if(opts.case_insensitive, "-i"@) + arg_if(opts.exact_match, "-F"@)
        + arg_if(opts.show_hidden, "--hidden"@) + arg_if(!opts.respect_gitignore, "--no-ignore"@)
        + (if opts.glob_filter@.len() > 0 {
        seq!["-g"@, opts.glob_filter@]
    } else {
        Seq::empty()
    }) + (if opts.context_lines > 0 {
        seq!["-C"@, decimal(opts.context_lines as nat)]
    } else {
        Seq::empty()
    }) + seq![pattern] + paths
}

/// The arguments end with the pattern followed by every path to search,
/// all of them and in order; what comes before the pattern depends on the
/// options alone, the same for any pattern and any paths.
pub proof fn lemma_args_end_with_pattern_and_paths(
    pattern: Seq<char>,
    opts: SearchOptions,
    paths: Seq<Seq<char>>,
    other_pattern: Seq<char>,
    other_paths: Seq<Seq<char>>,
)
    ensures
        ({
            let a = rga_args(pattern, opts, paths);
            let b = rga_args(other_pattern, opts, other_paths);
            &&& a.len() >= paths.len() + 2
            &&& a[0] == "--json"@
            &&& a.skip(a.len() - paths.len() - 1) == seq![pattern] + paths
            &&& a.take(a.len() - paths.len() - 1) == b.take(b.len() - other_paths.len() - 1)
        }),
{
    let head = seq!["--json"@] + arg_if(opts.case_insensitive, "-i"@) + arg_if(opts.exact_match, "-F"@)
        + arg_if(opts.show_hidden, "--hidden"@) + arg_if(!opts.respect_gitignore, "--no-ignore"@)
        + (if opts.glob_filter@.len() > 0 {
        seq!["-g"@, opts.glob_filter@]
    } else {
        Seq::empty()
    }) + (if opts.context_lines > 0 {
        seq!["-C"@, decimal(opts.context_lines as nat)]
    } else {
        Seq::empty()
    });
    let a = rga_args(pattern, opts, paths);
    let b = rga_args(other_pattern, opts, other_paths);
    assert(a == head + (seq![pattern] + paths));
    assert(b == head + (seq![other_pattern] + other_paths));
    assert(head.len() >= 1);
    assert(head[0] == "--json"@);
    assert(a.skip(head.len() as int) =~= seq![pattern] + paths);
    assert(a.take(head.len() as int) =~= head);
    assert(b.take(head.len() as int) =~= head);
}

/// Appends `a` to `args` when `b` holds.
fn push_arg_if(args: &mut Vec<String>, b: bool, a: &str)
    ensures
        final(args)@.map_values(|s: String| s@) == old(args)@.map_values(|s: String| s@) + arg_if(b, a@),
{
    let ghost before = args@;
    if b {
        args.push(a.to_owned());
        assert(args@.map_values(|s: String| s@) =~= before.map_values(|s: String| s@) + arg_if(b, a@));
    } else {
        assert(args@.map_values(|s: String| s@) =~= before.map_values(|s: String| s@) + arg_if(b, a@));
    }
}

/// Checks that a search can start and, if so, gives the arguments of the
/// `rga` process that runs it; otherwise the message that tells why not.
pub fn plan_search(tree: &DirTree, pattern: &str, opts: &SearchOptions) -> (r: Result<Vec<String>, String>)
    ensures
        match r {
            Ok(args) => search_refusal(*tree, pattern@) is None
                && args@.map_values(|s: String| s@) == rga_args(pattern@, *opts, tree.spec_enabled_paths()),
            Err(msg) => search_refusal(*tree, pattern@) == Some(msg@),
        },
{
    let paths = tree.enabled_paths();
    if paths.len() == 0 {
        assert(tree.spec_enabled_paths().len() == 0);
        return Err("No directories enabled for search.".to_owned());
    }
    if trim(pattern).unicode_len() == 0 {
        return Err("Enter a search pattern.".to_owned());
    }
    let mut args: Vec<String> = Vec::new();
    args.push("--json".to_owned());
    assert(args@.map_values(|s: String| s@) =~= seq!["--json"@]);
    push_arg_if(&mut args, opts.case_insensitive, "-i");
    push_arg_if(&mut args, opts.exact_match, "-F");
    push_arg_if(&mut args, opts.show_hidden, "--hidden");
    push_arg_if(&mut args, !opts.respect_gitignore, "--no-ignore");
    let ghost a1 = args@.map_values(|s: String| s@);
    if opts.glob_filter.as_str().unicode_len() > 0 {
        args.push("-g".to_owned());
        args.push(opts.glob_filter.clone());
    }
    assert(args@.map_values(|s: String| s@) =~= a1 + (if opts.glob_filter@.len() > 0 {
        seq!["-g"@, opts.glob_filter@]
    } else {
        Seq::empty()
    }));
    let ghost a2 = args@.map_values(|s: String| s@);
    if opts.context_lines > 0 {
        args.push("-C".to_owned());
        args.push(decimal_string(opts.context_lines as u64));
    }
    assert(args@.map_values(|s: String| s@) =~= a2 + (if opts.context_lines > 0 {
        seq!["-C"@, decimal(opts.context_lines as nat)]
    } else {
        Seq::empty()
    }));
    let ghost a3 = args@.map_values(|s: String| s@);
    args.push(pattern.to_owned());
    assert(args@.map_values(|s: String| s@) =~= a3 + seq![pattern@]);
    let ghost a4 = args@.map_values(|s: String| s@);
    let mut k: usize = 0;
    let n = paths.len();
    let ghost all_paths = paths@;
    while k < n
        invariant
            n == all_paths.len(),
            k <= n,
            paths@ == all_paths,
            args@.map_values(|s: String| s@) == a4 + all_paths.take(k as int).map_values(|s: String| s@),
        decreases n - k,
    {
        let ghost before = args@;
        let p = paths[k].clone();
        args.push(p);
        assert(args@.map_values(|s: String| s@) =~= before.map_values(|s: String| s@).push(p@));
        k += 1;
        assert(all_paths.take(k as int) == all_paths.take(k - 1).push(all_paths[k - 1]));
        assert(args@.map_values(|s: String| s@) =~= a4 + all_paths.take(k as int).map_values(|s: String| s@));
    }
    assert(all_paths.take(n as int) == all_paths);
    Ok(args)
}

// ── Reading the search's output ───────────────────────────────────────────

/// The data of a match or context line as `rga` reports it.
#[derive(Debug)]
pub struct RgaMatchData {
    pub path: String,
    pub lines: String,
    pub line_number: Option<u64>,
    pub submatches: Vec<SubMatch>,
}

/// One event of `rga`'s JSON output.
#[derive(Debug)]
pub enum RgaEvent {
    Begin { path: String },
    Match { data: RgaMatchData },
    Context { data: RgaMatchData },
    End { path: String },
    Summary,
}

/// Every line an event carries can be cut to size.
pub open spec fn event_truncatable(ev: RgaEvent) -> bool {
    match ev {
        RgaEvent::Match { data } => truncatable(data.lines@),
        RgaEvent::Context { data } => truncatable(data.lines@),
        _ => true,
    }
}

/// Whether `match_from_event` can take `ev`.
pub fn can_convert_event(ev: &RgaEvent) -> (b: bool)
    ensures
        b == event_truncatable(*ev),
{
    match ev {
        RgaEvent::Match { data } => can_truncate_line(data.lines.as_str()),
        RgaEvent::Context { data } => can_truncate_line(data.lines.as_str()),
        _ => true,
    }
}

/// The result line an event yields: a match keeps its submatches, a context
/// line has none; both show their line cut to size. Other events yield none.
pub fn match_from_event(ev: RgaEvent) -> (r: Option<SearchMatch>)
    requires
        event_truncatable(ev),
    ensures
        match ev {
            RgaEvent::Match { data } => r matches Some(m) && m.path == data.path
                && m.line_number == data.line_number && m.line_text@ == truncated_line(data.lines@)
                && m.submatches == data.submatches && !m.is_context,
            RgaEvent::Context { data } => r matches Some(m) && m.path == data.path
                && m.line_number == data.line_number && m.line_text@ == truncated_line(data.lines@)
                && m.submatches@.len() == 0 && m.is_context,
            _ => r is None,
        },
{
    match ev {
        RgaEvent::Match { data } => Some(
            SearchMatch {
                path: data.path,
                line_number: data.line_number,
                line_text: truncate_line(data.lines),
                submatches: data.submatches,
                is_context: false,
            },
        ),
        RgaEvent::Context { data } => Some(
            SearchMatch {
                path: data.path,
                line_number: data.line_number,
                line_text: truncate_line(data.lines),
                submatches: Vec::new(),
                is_context: true,
            },
        ),
        _ => None,
    }
}

/// What the process reading `rga`'s output does with one line of it.
#[derive(Debug)]
pub enum ReaderAction {
    /// The search was cancelled: stop `rga` and quit at once.
    Kill,
    /// The output cannot be read any more: wait for `rga` to end.
    Finish,
    /// The line holds no result: go on with the next one.
    Skip,
    /// Hand this result to the window.
    Send(SearchMatch),
}

/// Decides what to do with one line of `rga`'s output: `cancelled` tells
/// whether the search was called off, `read_ok` whether the line could be
/// read, and `event` what the line parses to, if anything.
pub fn reader_step(cancelled: bool, read_ok: bool, event: Option<RgaEvent>) -> (a: ReaderAction)
    requires
        event matches Some(ev) ==> event_truncatable(ev),
    ensures
        cancelled ==> a is Kill,
        !cancelled && !read_ok ==> a is Finish,
        !cancelled && read_ok ==> match event {
            None => a is Skip,
            Some(ev) => match ev {
                RgaEvent::Match { .. } => a is Send,
                RgaEvent::Context { .. } => a is Send,
                _ => a is Skip,
            },
        },
        a matches ReaderAction::Send(m) ==> (event matches Some(ev) && (match ev {
            RgaEvent::Match { data } => m.path == data.path && m.line_number == data.line_number
                && m.line_text@ == truncated_line(data.lines@) && m.submatches == data.submatches
                && !m.is_context,
            RgaEvent::Context { data } => m.path == data.path && m.line_number == data.line_number
                && m.line_text@ == truncated_line(data.lines@) && m.submatches@.len() == 0
                && m.is_context,
            _ => false,
        })),
{
    if cancelled {
        return ReaderAction::Kill;
    }
    if !read_ok {
        return ReaderAction::Finish;
    }
    match event {
        None => ReaderAction::Skip,
        Some(ev) => match match_from_event(ev) {
            Some(m) => ReaderAction::Send(m),
            None => ReaderAction::Skip,
        },
    }
}

// ── Collecting results ────────────────────────────────────────────────────

/// What one attempt to take a result from the search gave.
#[derive(Debug)]
pub enum Received {
    /// A result was waiting.
    Item(SearchMatch),
    /// No result is waiting right now.
    Empty,
    /// The search has ended and every result was taken.
    Disconnected,
}

/// Takes in the outcome of one attempt to receive a result: a result is
/// appended and receiving goes on (`None`); otherwise the search status.
pub fn collect_step(results: &mut Vec<SearchMatch>, outcome: Received) -> (r: Option<SearchStatus>)
    ensures
        match outcome {
            Received::Item(m) => r is None && final(results)@ == old(results)@.push(m),
            Received::Empty => r == Some(SearchStatus::Searching) && final(results)@ == old(results)@,
            Received::Disconnected => r == Some(SearchStatus::Done) && final(results)@ == old(results)@,
        },
{
    match outcome {
        Received::Item(m) => {
            results.push(m);
            None
        },
        Received::Empty => Some(SearchStatus::Searching),
        Received::Disconnected => Some(SearchStatus::Done),
    }
}

/// `Receiver::try_recv`: takes one result from `rx` if one is waiting.
/// What comes back depends on the thread that sends, so the contract claims
/// nothing of it.
#[verifier::external_body]
fn try_receive(rx: &std::sync::mpsc::Receiver<SearchMatch>) -> (r: Received) {
    match rx.try_recv() {
        Ok(m) => Received::Item(m),
        Err(std::sync::mpsc::TryRecvError::Empty) => Received::Empty,
        Err(std::sync::mpsc::TryRecvError::Disconnected) => Received::Disconnected,
    }
}

/// Takes every result that is waiting on `rx` into `results`, in the order
/// they arrive. With no search under way (`rx` is `None`) nothing changes and
/// the status is `Idle`; otherwise the status is `Done` once the search has
/// ended and every result was taken, and `Searching` while it goes on.
pub fn collect_results(
    rx: &mut Option<std::sync::mpsc::Receiver<SearchMatch>>,
    results: &mut Vec<SearchMatch>,
    _cancel_flag: &mut Option<std::sync::Arc<std::sync::atomic::AtomicBool>>,
) -> (status: SearchStatus)
    ensures
        *final(rx) == *old(rx),
        *final(_cancel_flag) == *old(_cancel_flag),
        *old(rx) is None ==> status == SearchStatus::Idle && final(results)@ == old(results)@,
        *old(rx) is Some ==> (status == SearchStatus::Searching || status == SearchStatus::Done)
            && old(results)@.len() <= final(results)@.len()
            && final(results)@.subrange(0, old(results)@.len() as int) == old(results)@,
{
    match &*rx {
        Some(r) => {
            loop
                invariant
                    *old(rx) is Some,
                    old(results)@.len() <= results@.len(),
                    results@.subrange(0, old(results)@.len() as int) == old(results)@,
                decreases usize::MAX - results@.len(),
            {
                proof {
                    assert(results@.len() == results.len());
                }
                let outcome = try_receive(r);
                match collect_step(results, outcome) {
                    Some(s) => {
                        return s;
                    },
                    None => {
                        proof {
                            assert(results@.len() == results.len());
                        }
                    },
                }
            }
        },
        None => SearchStatus::Idle,
    }
}

/// `std::sync::mpsc::Receiver`, the receiving end results of a search arrive
/// on; its inside is not visible to proofs.
#[verifier::external_type_specification]
#[verifier::external_body]
#[verifier::reject_recursive_types(T)]
pub struct ExReceiver<T>(std::sync::mpsc::Receiver<T>);

} // verus!
