use vstd::prelude::*;

use crate::text::{trim, trim_chars};

verus! {

/// The most patterns the search history keeps.
pub const MAX_HISTORY: usize = 50;

/// The history after searching for `pattern`: the trimmed pattern is added
/// unless it is blank or already the latest entry, and only the latest
/// `MAX_HISTORY` entries are kept.
pub open spec fn history_after(h: Seq<Seq<char>>, pattern: Seq<char>) -> Seq<Seq<char>> {
    let p = trim_chars(pattern);
    if p.len() == 0 {
        h
    } else {
        let pushed = if h.len() > 0 && h.last() == p {
            h
        } else {
            h.push(p)
        };
        if pushed.len() > MAX_HISTORY {
            pushed.subrange(pushed.len() - MAX_HISTORY, pushed.len() as int)
        } else {
            pushed
        }
    }
}

/// The views of a list of strings.
pub open spec fn views(v: Seq<String>) -> Seq<Seq<char>> {
    v.map_values(|s: String| s@)
}

/// Records a search for `pattern` in the history.
pub fn record_search(history: &mut Vec<String>, pattern: &str)
    ensures
        views(final(history)@) == history_after(views(old(history)@), pattern@),
{
    let p = trim(pattern);
    if p.unicode_len() == 0 {
        return;
    }
    let ps = p.to_owned();
    let len = history.len();
    let ghost h = views(history@);
    if len == 0 || history[len - 1] != ps {
        history.push(ps);
        assert(views(history@) =~= h.push(p@));
    } else {
        assert(h.last() == p@);
    }
    if history.len() > MAX_HISTORY {
        let drop_n = history.len() - MAX_HISTORY;
        let ghost pushed = history@;
        let kept = history.split_off(drop_n);
        *history = kept;
        assert(views(history@) =~= views(pushed).subrange(views(pushed).len() - MAX_HISTORY, views(pushed).len() as int));
    }
}

/// Where moving through the history from `index` leads: up goes to older
/// entries and from the oldest out of the history, down goes to newer
/// entries and from the newest out of it; up from outside enters at the
/// newest entry. `None` stands for being outside the history.
pub open spec fn history_index_step(len: nat, index: Option<usize>, up: bool) -> Option<int> {
    match index {
        None => if up {
            Some(len - 1)
        } else {
            None
        },
        Some(i) => if up {
            if i == 0 {
                None
            } else {
                Some(i - 1)
            }
        } else {
            if i + 1 >= len {
                None
            } else {
                Some(i + 1)
            }
        },
    }
}

/// Moves through a non-empty history from `index`, showing the entry
/// reached in `pattern` (or clearing it when leaving the history); returns
/// the new position. An empty history changes nothing.
pub fn navigate_history(history: &Vec<String>, index: Option<usize>, up: bool, pattern: &mut String) -> (r: Option<usize>)
    requires
        history@.len() > 0 && !up ==> (index matches Some(i) ==> i < usize::MAX),
    ensures
        history@.len() == 0 ==> r == index && final(pattern)@ == old(pattern)@,
        history@.len() > 0 ==> match history_index_step(history@.len(), index, up) {
            None => r is None && final(pattern)@.len() == 0,
            Some(k) => if k < history@.len() {
                r == Some(k as usize) && final(pattern)@ == history@[k]@
            } else {
                r == index && final(pattern)@ == old(pattern)@
            },
        },
{
    let len = history.len();
    if len == 0 {
        return index;
    }
    let new_idx: Option<usize> = match index {
        None => if up {
            Some(len - 1)
        } else {
            None
        },
        Some(i) => if up {
            if i == 0 {
                None
            } else {
                Some(i - 1)
            }
        } else {
            if i + 1 >= len {
                None
            } else {
                Some(i + 1)
            }
        },
    };
    match new_idx {
        Some(idx) => {
            if idx < len {
                *pattern = history[idx].clone();
                Some(idx)
            } else {
                index
            }
        },
        None => {
            *pattern = String::new();
            None
        },
    }
}

/// Stepping down after stepping up from inside the history, away from its
/// oldest entry, comes back to where it started.
pub proof fn lemma_history_up_then_down(len: nat, i: usize)
    requires
        0 < i < len,
    ensures
        history_index_step(len, Some(i), true) == Some(i - 1),
        history_index_step(len, Some((i - 1) as usize), false) == Some(i as int),
{
}

/// A recorded search always leaves at most `MAX_HISTORY` entries when there
/// were at most that many, and a non-blank pattern ends up as the latest entry.
pub proof fn lemma_history_bounded(h: Seq<Seq<char>>, pattern: Seq<char>)
    requires
        h.len() <= MAX_HISTORY,
    ensures
        history_after(h, pattern).len() <= MAX_HISTORY,
        trim_chars(pattern).len() > 0 ==> history_after(h, pattern).last() == trim_chars(pattern),
{
}

/// No entry of `h` repeats the one before it.
pub open spec fn no_consecutive_repeats(h: Seq<Seq<char>>) -> bool {
    forall|i: int| 0 < i < h.len() ==> #[trigger] h[i] != h[i - 1]
}

/// Recording searches never puts the same pattern twice in a row.
pub proof fn lemma_history_no_consecutive_repeats(h: Seq<Seq<char>>, pattern: Seq<char>)
    requires
        no_consecutive_repeats(h),
    ensures
        no_consecutive_repeats(history_after(h, pattern)),
{
    let p = trim_chars(pattern);
    if p.len() > 0 {
        let pushed = if h.len() > 0 && h.last() == p {
            h
        } else {
            h.push(p)
        };
        assert(no_consecutive_repeats(pushed)) by {
            assert forall|i: int| 0 < i < pushed.len() implies #[trigger] pushed[i] != pushed[i - 1] by {
                if i < h.len() {
                    assert(pushed[i] == h[i]);
                    assert(pushed[i - 1] == h[i - 1]);
                }
            }
        }
        if pushed.len() > MAX_HISTORY {
            let kept = pushed.subrange(pushed.len() - MAX_HISTORY, pushed.len() as int);
            assert forall|i: int| 0 < i < kept.len() implies #[trigger] kept[i] != kept[i - 1] by {
                let off = pushed.len() - MAX_HISTORY;
                assert(kept[i] == pushed[i + off]);
                assert(kept[i - 1] == pushed[i - 1 + off]);
            }
        }
    }
}

/// Recording the same search twice in a row adds it once.
pub proof fn lemma_history_no_repeat(h: Seq<Seq<char>>, pattern: Seq<char>)
    ensures
        history_after(history_after(h, pattern), pattern) == history_after(h, pattern),
{
    let p = trim_chars(pattern);
    if p.len() > 0 {
        let once = history_after(h, pattern);
        assert(once.last() == p);
    }
}

} // verus!
