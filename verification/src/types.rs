use vstd::prelude::*;

use crate::paths::{same_path, same_path_spec};
use crate::text::{trim, trim_chars};

verus! {

// ── Search matches ────────────────────────────────────────────────────────

/// A single submatch: a highlighted byte span `[start, end)` within a line.
#[derive(Clone, Debug)]
pub struct SubMatch {
    pub text: String,
    pub start: usize,
    pub end: usize,
}

/// One line reported by the search inside a file: a match, or a context line.
#[derive(Clone, Debug)]
pub struct SearchMatch {
    pub path: String,
    pub line_number: Option<u64>,
    pub line_text: String,
    pub submatches: Vec<SubMatch>,
    pub is_context: bool,
}

// ── Search status ─────────────────────────────────────────────────────────

#[derive(Clone, Copy, Debug, PartialEq, Eq, Structural)]
pub enum SearchStatus {
    Idle,
    Searching,
    Done,
}

// ── Focus target ──────────────────────────────────────────────────────────

#[derive(Clone, Copy, Debug, PartialEq, Eq, Structural)]
pub enum FocusTarget {
    Pattern,
}

// ── Search options ────────────────────────────────────────────────────────

#[derive(Clone, Debug)]
pub struct SearchOptions {
    pub case_insensitive: bool,
    pub show_hidden: bool,
    pub respect_gitignore: bool,
    pub glob_filter: String,
    pub exact_match: bool,
    pub context_lines: u32,
}

// ── Directory tree ────────────────────────────────────────────────────────

/// A directory to search in, identified by `id`.
#[derive(Clone, Debug)]
pub struct SearchDir {
    pub id: u64,
    pub path: String,
    pub enabled: bool,
}

/// A named group of directories that can be switched on and off as a whole.
#[derive(Clone, Debug)]
pub struct DirGroup {
    pub id: u64,
    pub name: String,
    pub enabled: bool,
    pub collapsed: bool,
    pub dirs: Vec<SearchDir>,
}

/// The directories to search: ungrouped ones first, then the groups in order.
/// `next_id` is the next identifier that `alloc_id` hands out.
#[derive(Clone, Debug)]
pub struct DirTree {
    pub free: Vec<SearchDir>,
    pub groups: Vec<DirGroup>,
    pub next_id: u64,
}

impl Default for DirTree {
    /// The empty tree whose first identifier is 0.
    fn default() -> (t: DirTree)
        ensures
            t.free@.len() == 0,
            t.groups@.len() == 0,
            t.next_id == 0,
    {
        DirTree::new()
    }
}

/// The directories of all the given groups, group after group.
pub open spec fn group_dirs(groups: Seq<DirGroup>) -> Seq<SearchDir>
    decreases groups.len(),
{
    if groups.len() == 0 {
        Seq::empty()
    } else {
        group_dirs(groups.drop_last()) + groups.last().dirs@
    }
}

/// The paths of the enabled directories among `dirs`, in order.
pub open spec fn enabled_dir_paths(dirs: Seq<SearchDir>) -> Seq<Seq<char>>
    decreases dirs.len(),
{
    if dirs.len() == 0 {
        Seq::empty()
    } else {
        enabled_dir_paths(dirs.drop_last()) + (if dirs.last().enabled {
            seq![dirs.last().path@]
        } else {
            Seq::empty()
        })
    }
}

/// The paths of the enabled directories inside the enabled groups, in order.
pub open spec fn enabled_group_paths(groups: Seq<DirGroup>) -> Seq<Seq<char>>
    decreases groups.len(),
{
    if groups.len() == 0 {
        Seq::empty()
    } else {
        enabled_group_paths(groups.drop_last()) + (if groups.last().enabled {
            enabled_dir_paths(groups.last().dirs@)
        } else {
            Seq::empty()
        })
    }
}

/// `i` is the first position in `dirs` that holds a directory with identifier `id`.
pub open spec fn is_first_with_id(dirs: Seq<SearchDir>, id: u64, i: int) -> bool {
    &&& 0 <= i < dirs.len()
    &&& dirs[i].id == id
    &&& forall|j: int| 0 <= j < i ==> dirs[j].id != id
}

/// Some directory in `dirs` has identifier `id`.
pub open spec fn has_dir_id(dirs: Seq<SearchDir>, id: u64) -> bool {
    exists|i: int| 0 <= i < dirs.len() && dirs[i].id == id
}

/// `g` is the first group that holds a directory with identifier `id`.
pub open spec fn is_first_group_with_dir(groups: Seq<DirGroup>, id: u64, g: int) -> bool {
    &&& 0 <= g < groups.len()
    &&& has_dir_id(groups[g].dirs@, id)
    &&& forall|k: int| 0 <= k < g ==> !has_dir_id(#[trigger] groups[k].dirs@, id)
}

/// `g` is the first group with identifier `id`.
pub open spec fn is_first_group_with_id(groups: Seq<DirGroup>, id: u64, g: int) -> bool {
    &&& 0 <= g < groups.len()
    &&& groups[g].id == id
    &&& forall|k: int| 0 <= k < g ==> groups[k].id != id
}

/// `new` is `old` with the directory list of group `g` replaced by `dirs`.
pub open spec fn groups_with_dirs(old: Seq<DirGroup>, new: Seq<DirGroup>, g: int, dirs: Seq<SearchDir>) -> bool {
    &&& 0 <= g < old.len()
    &&& new.len() == old.len()
    &&& forall|k: int| 0 <= k < old.len() && k != g ==> new[k] == old[k]
    &&& new[g].id == old[g].id
    &&& new[g].name == old[g].name
    &&& new[g].enabled == old[g].enabled
    &&& new[g].collapsed == old[g].collapsed
    &&& new[g].dirs@ == dirs
}

impl DirTree {
    /// Every directory of the tree: the ungrouped ones, then those of each group.
    pub open spec fn all_dirs(&self) -> Seq<SearchDir> {
        self.free@ + group_dirs(self.groups@)
    }

    /// The number of directories in the tree.
    pub open spec fn spec_total_dirs(&self) -> nat {
        self.all_dirs().len()
    }

    /// The paths a search covers: enabled ungrouped directories, then the
    /// enabled directories of the enabled groups.
    pub open spec fn spec_enabled_paths(&self) -> Seq<Seq<char>> {
        enabled_dir_paths(self.free@) + enabled_group_paths(self.groups@)
    }

    /// Every identifier in use, of a directory or of a group, lies below `next_id`.
    pub open spec fn ids_below_next(&self) -> bool {
        &&& self.dir_ids_below_next()
        &&& self.group_ids_below_next()
    }

    /// Every directory identifier lies below `next_id`.
    pub open spec fn dir_ids_below_next(&self) -> bool {
        forall|i: int| 0 <= i < self.all_dirs().len() ==> #[trigger] self.all_dirs()[i].id < self.next_id
    }

    /// Every group identifier lies below `next_id`.
    pub open spec fn group_ids_below_next(&self) -> bool {
        forall|g: int| 0 <= g < self.groups@.len() ==> #[trigger] self.groups@[g].id < self.next_id
    }

    /// The empty tree whose first identifier is 0.
    pub fn new() -> (t: DirTree)
        ensures
            t.free@.len() == 0,
            t.groups@.len() == 0,
            t.next_id == 0,
            t.ids_below_next(),
    {
        DirTree { free: Vec::new(), groups: Vec::new(), next_id: 0 }
    }

    /// Hands out the next identifier and advances the counter.
    pub fn alloc_id(&mut self) -> (id: u64)
        requires
            old(self).next_id < u64::MAX,
        ensures
            id == old(self).next_id,
            final(self).next_id == old(self).next_id + 1,
            final(self).free == old(self).free,
            final(self).groups == old(self).groups,
    {
        let id = self.next_id;
        self.next_id = self.next_id + 1;
        id
    }

    /// The paths to search: enabled ungrouped directories, then the enabled
    /// directories of each enabled group.
    pub fn enabled_paths(&self) -> (out: Vec<String>)
        ensures
            out@.map_values(|s: String| s@) == self.spec_enabled_paths(),
    {
        let mut out: Vec<String> = Vec::new();
        let mut i: usize = 0;
        while i < self.free.len()
            invariant
                i <= self.free@.len(),
                out@.map_values(|s: String| s@) == enabled_dir_paths(self.free@.take(i as int)),
            decreases self.free@.len() - i,
        {
            assert(self.free@.take(i + 1).drop_last() == self.free@.take(i as int));
            if self.free[i].enabled {
                out.push(self.free[i].path.clone());
            }
            i += 1;
            assert(out@.map_values(|s: String| s@) =~= enabled_dir_paths(self.free@.take(i as int)));
        }
        assert(self.free@.take(i as int) == self.free@);
        let ghost base = out@.map_values(|s: String| s@);
        let mut g: usize = 0;
        while g < self.groups.len()
            invariant
                g <= self.groups@.len(),
                base == enabled_dir_paths(self.free@),
                out@.map_values(|s: String| s@) == base + enabled_group_paths(self.groups@.take(g as int)),
            decreases self.groups@.len() - g,
        {
            assert(self.groups@.take(g + 1).drop_last() == self.groups@.take(g as int));
            let ghost before = out@.map_values(|s: String| s@);
            if self.groups[g].enabled {
                let group = &self.groups[g];
                let mut j: usize = 0;
                while j < group.dirs.len()
                    invariant
                        j <= group.dirs@.len(),
                        out@.map_values(|s: String| s@) == before + enabled_dir_paths(group.dirs@.take(j as int)),
                    decreases group.dirs@.len() - j,
                {
                    assert(group.dirs@.take(j + 1).drop_last() == group.dirs@.take(j as int));
                    let ghost prev = enabled_dir_paths(group.dirs@.take(j as int));
                    assert(enabled_dir_paths(group.dirs@.take(j + 1)) == prev + (if group.dirs@[j as int].enabled {
                        seq![group.dirs@[j as int].path@]
                    } else {
                        Seq::<Seq<char>>::empty()
                    }));
                    let ghost out_before = out@;
                    if group.dirs[j].enabled {
                        let p = group.dirs[j].path.clone();
                        assert(p@ == group.dirs@[j as int].path@);
                        out.push(p);
                        assert(out@.map_values(|s: String| s@) =~= out_before.map_values(|s: String| s@).push(p@));
                    }
                    j += 1;
                    assert(out@.map_values(|s: String| s@) =~= before + enabled_dir_paths(group.dirs@.take(j as int)));
                }
                assert(group.dirs@.take(j as int) == group.dirs@);
            }
            g += 1;
            assert(out@.map_values(|s: String| s@) =~= base + enabled_group_paths(self.groups@.take(g as int)));
        }
        assert(self.groups@.take(g as int) == self.groups@);
        out
    }

    /// The number of directories, ungrouped and grouped.
    pub fn total_dirs(&self) -> (n: usize)
        requires
            self.spec_total_dirs() <= usize::MAX,
        ensures
            n == self.spec_total_dirs(),
    {
        let mut sum: usize = 0;
        let mut g: usize = 0;
        while g < self.groups.len()
            invariant
                g <= self.groups@.len(),
                self.spec_total_dirs() <= usize::MAX,
                sum == group_dirs(self.groups@.take(g as int)).len(),
            decreases self.groups@.len() - g,
        {
            assert(self.groups@.take(g + 1).drop_last() == self.groups@.take(g as int));
            proof {
                lemma_group_dirs_prefix_len(self.groups@, g + 1);
            }
            sum = sum + self.groups[g].dirs.len();
            g += 1;
        }
        assert(self.groups@.take(g as int) == self.groups@);
        self.free.len() + sum
    }

    /// Sets the counter past every directory identifier after loading a
    /// saved tree; a tree saved without a counter first gets the number of
    /// its directories plus ten.
    pub fn reconcile_next_id(&mut self)
        requires
            old(self).next_id == 0 ==> old(self).spec_total_dirs() <= usize::MAX,
            old(self).next_id == 0 ==> old(self).spec_total_dirs() + 10 <= u64::MAX,
            max_dir_id(old(self).all_dirs(), reconcile_base(*old(self))) < u64::MAX,
        ensures
            final(self).free == old(self).free,
            final(self).groups == old(self).groups,
            final(self).next_id == max_dir_id(old(self).all_dirs(), reconcile_base(*old(self))) + 1,
            final(self).next_id > reconcile_base(*old(self)),
            final(self).dir_ids_below_next(),
    {
        if self.next_id == 0 {
            self.next_id = self.total_dirs() as u64 + 10;
        }
        let ghost base = self.next_id;
        assert(base == reconcile_base(*old(self)));
        let mut max_id = self.next_id;
        let mut i: usize = 0;
        while i < self.free.len()
            invariant
                i <= self.free@.len(),
                max_id == max_dir_id(self.free@.take(i as int), base),
            decreases self.free@.len() - i,
        {
            assert(self.free@.take(i + 1).drop_last() == self.free@.take(i as int));
            if self.free[i].id > max_id {
                max_id = self.free[i].id;
            }
            i += 1;
        }
        assert(self.free@.take(i as int) == self.free@);
        let ghost after_free = max_id;
        let mut g: usize = 0;
        while g < self.groups.len()
            invariant
                g <= self.groups@.len(),
                after_free == max_dir_id(self.free@, base),
                max_id == max_dir_id(group_dirs(self.groups@.take(g as int)), after_free),
            decreases self.groups@.len() - g,
        {
            let dirs = &self.groups[g].dirs;
            let ghost start = max_id;
            let mut j: usize = 0;
            while j < dirs.len()
                invariant
                    j <= dirs@.len(),
                    max_id == max_dir_id(dirs@.take(j as int), start),
                decreases dirs@.len() - j,
            {
                assert(dirs@.take(j + 1).drop_last() == dirs@.take(j as int));
                if dirs[j].id > max_id {
                    max_id = dirs[j].id;
                }
                j += 1;
            }
            assert(dirs@.take(j as int) == dirs@);
            proof {
                assert(self.groups@.take(g + 1).drop_last() == self.groups@.take(g as int));
                lemma_max_dir_id_concat(group_dirs(self.groups@.take(g as int)), dirs@, after_free);
            }
            g += 1;
        }
        assert(self.groups@.take(g as int) == self.groups@);
        proof {
            lemma_max_dir_id_concat(self.free@, group_dirs(self.groups@), base);
            lemma_max_dir_id_bound(self.all_dirs(), base);
        }
        self.next_id = max_id + 1;
    }

    /// A tree without any directory gets `dir`, enabled, as its first one.
    pub fn ensure_start_dir(&mut self, dir: String)
        requires
            old(self).spec_total_dirs() <= usize::MAX,
            old(self).spec_total_dirs() == 0 ==> old(self).next_id < u64::MAX,
        ensures
            old(self).spec_total_dirs() > 0 ==> *final(self) == *old(self),
            old(self).spec_total_dirs() == 0 ==> {
                &&& final(self).groups == old(self).groups
                &&& final(self).next_id == old(self).next_id + 1
                &&& final(self).free@.len() == 1
                &&& final(self).free@[0].id == old(self).next_id
                &&& final(self).free@[0].path == dir
                &&& final(self).free@[0].enabled
            },
            old(self).ids_below_next() ==> final(self).ids_below_next(),
    {
        if self.total_dirs() == 0 {
            let id = self.alloc_id();
            self.free.push(SearchDir { id, path: dir, enabled: true });
            proof {
                assert(old(self).free@.len() == 0);
                assert(self.free@.drop_last() =~= old(self).free@);
                if old(self).ids_below_next() {
                    lemma_ids_below_next_grow(*old(self), *self);
                }
            }
        }
    }

    /// Adds the directory typed in `input` (trimmed) as a new enabled
    /// ungrouped directory, when it is not blank, `is_dir` tells that it
    /// names a directory, and no directory of the tree has that path.
    /// Returns whether it was added.
    pub fn add_dir(&mut self, input: &str, is_dir: bool) -> (added: bool)
        requires
            adds_dir(*old(self), input@, is_dir) ==> old(self).next_id < u64::MAX,
        ensures
            added == adds_dir(*old(self), input@, is_dir),
            !added ==> *final(self) == *old(self),
            added ==> dir_appended(*old(self), *final(self), trim_chars(input@)),
            old(self).ids_below_next() ==> final(self).ids_below_next(),
            paths_distinct(old(self).all_dirs()) ==> paths_distinct(final(self).all_dirs()),
    {
        let p = trim(input);
        if p.unicode_len() == 0 || !is_dir {
            return false;
        }
        if self.knows_path(p) {
            return false;
        }
        let id = self.alloc_id();
        let ghost before = self.free@;
        self.free.push(SearchDir { id, path: p.to_owned(), enabled: true });
        assert(self.free@.drop_last() == before);
        proof {
            if old(self).ids_below_next() {
                lemma_ids_below_next_grow(*old(self), *self);
            }
            let o = old(self).all_dirs();
            let n = self.all_dirs();
            let nf = before.len() as int;
            assert(n.len() == o.len() + 1);
            assert forall|k: int| 0 <= k < n.len() && k != nf implies #[trigger] n[k] == o[if k < nf {
                k
            } else {
                k - 1
            }] by {
                if k < nf {
                    assert(n[k] == self.free@[k]);
                    assert(o[k] == before[k]);
                } else {
                    assert(n[k] == group_dirs(self.groups@)[k - nf - 1]);
                    assert(o[k - 1] == group_dirs(old(self).groups@)[k - 1 - nf]);
                }
            }
            assert(n[nf] == self.free@[nf]);
            if paths_distinct(o) {
                assert forall|i: int, j: int|
                    0 <= i < n.len() && 0 <= j < n.len() && i != j implies !same_path_spec(
                    #[trigger] n[i].path@,
                    #[trigger] n[j].path@,
                ) by {
                    let oi = if i < nf {
                        i
                    } else {
                        i - 1
                    };
                    let oj = if j < nf {
                        j
                    } else {
                        j - 1
                    };
                    if i == nf {
                        assert(n[j] == o[oj]);
                        assert(!same_path_spec(p@, o[oj].path@));
                    } else if j == nf {
                        assert(n[i] == o[oi]);
                        assert(!same_path_spec(o[oi].path@, p@));
                    } else {
                        assert(n[i] == o[oi]);
                        assert(n[j] == o[oj]);
                    }
                }
            }
        }
        true
    }

    /// Whether some directory of the tree has the path `p`.
    fn knows_path(&self, p: &str) -> (r: bool)
        ensures
            r == path_known(self.all_dirs(), p@),
            !r ==> forall|k: int| 0 <= k < self.all_dirs().len() ==> !same_path_spec(p@, #[trigger] self.all_dirs()[k].path@),
    {
        let mut i: usize = 0;
        while i < self.free.len()
            invariant
                i <= self.free@.len(),
                forall|j: int| 0 <= j < i ==> !same_path_spec(#[trigger] self.free@[j].path@, p@),
                forall|j: int| 0 <= j < i ==> !same_path_spec(p@, #[trigger] self.free@[j].path@),
            decreases self.free@.len() - i,
        {
            if same_path(self.free[i].path.as_str(), p) {
                assert(self.all_dirs()[i as int] == self.free@[i as int]);
                return true;
            }
            i += 1;
        }
        let mut g: usize = 0;
        while g < self.groups.len()
            invariant
                g <= self.groups@.len(),
                forall|j: int| 0 <= j < self.free@.len() ==> !same_path_spec(#[trigger] self.free@[j].path@, p@),
                forall|j: int| 0 <= j < self.free@.len() ==> !same_path_spec(p@, #[trigger] self.free@[j].path@),
                !path_known(group_dirs(self.groups@.take(g as int)), p@),
                forall|k: int| 0 <= k < group_dirs(self.groups@.take(g as int)).len() ==> !same_path_spec(
                    p@,
                    #[trigger] group_dirs(self.groups@.take(g as int))[k].path@,
                ),
            decreases self.groups@.len() - g,
        {
            let dirs = &self.groups[g].dirs;
            let ghost prev = group_dirs(self.groups@.take(g as int));
            assert(self.groups@.take(g + 1).drop_last() == self.groups@.take(g as int));
            assert(group_dirs(self.groups@.take(g + 1)) == prev + dirs@);
            let mut j: usize = 0;
            while j < dirs.len()
                invariant
                    j <= dirs@.len(),
                    g < self.groups@.len(),
                    dirs@ == self.groups@[g as int].dirs@,
                    prev == group_dirs(self.groups@.take(g as int)),
                    group_dirs(self.groups@.take(g + 1)) == prev + dirs@,
                    forall|k: int| 0 <= k < j ==> !same_path_spec(#[trigger] dirs@[k].path@, p@),
                    forall|k: int| 0 <= k < j ==> !same_path_spec(p@, #[trigger] dirs@[k].path@),
                decreases dirs@.len() - j,
            {
                if same_path(dirs[j].path.as_str(), p) {
                    proof {
                        lemma_group_dirs_split(self.groups@, g + 1);
                        assert((prev + dirs@)[prev.len() + j] == dirs@[j as int]);
                        let k = self.free@.len() + prev.len() + j;
                        assert(self.all_dirs()[k] == dirs@[j as int]);
                    }
                    return true;
                }
                j += 1;
            }
            g += 1;
            proof {
                assert forall|k: int| 0 <= k < group_dirs(self.groups@.take(g as int)).len() implies !same_path_spec(
                    #[trigger] group_dirs(self.groups@.take(g as int))[k].path@,
                    p@,
                ) && !same_path_spec(p@, group_dirs(self.groups@.take(g as int))[k].path@) by {
                    if k >= prev.len() {
                        assert(group_dirs(self.groups@.take(g as int))[k] == dirs@[k - prev.len()]);
                    } else {
                        assert(group_dirs(self.groups@.take(g as int))[k] == prev[k]);
                    }
                }
            }
        }
        assert(self.groups@.take(g as int) == self.groups@);
        proof {
            assert forall|k: int| 0 <= k < self.all_dirs().len() implies !same_path_spec(
                #[trigger] self.all_dirs()[k].path@,
                p@,
            ) && !same_path_spec(p@, self.all_dirs()[k].path@) by {
                if k < self.free@.len() {
                    assert(self.all_dirs()[k] == self.free@[k]);
                } else {
                    assert(self.all_dirs()[k] == group_dirs(self.groups@)[k - self.free@.len()]);
                }
            }
        }
        false
    }

    /// Adds a new enabled, expanded, empty group named after `input`
    /// (trimmed), unless that is blank. Returns whether it was added.
    pub fn add_group(&mut self, input: &str) -> (added: bool)
        requires
            trim_chars(input@).len() > 0 ==> old(self).next_id < u64::MAX,
        ensures
            added == (trim_chars(input@).len() > 0),
            !added ==> *final(self) == *old(self),
            added ==> {
                &&& final(self).free == old(self).free
                &&& final(self).next_id == old(self).next_id + 1
                &&& final(self).groups@.len() == old(self).groups@.len() + 1
                &&& final(self).groups@.drop_last() == old(self).groups@
                &&& final(self).groups@.last().id == old(self).next_id
                &&& final(self).groups@.last().name@ == trim_chars(input@)
                &&& final(self).groups@.last().enabled
                &&& !final(self).groups@.last().collapsed
                &&& final(self).groups@.last().dirs@.len() == 0
            },
            old(self).ids_below_next() ==> final(self).ids_below_next(),
    {
        let name = trim(input);
        if name.unicode_len() == 0 {
            return false;
        }
        let id = self.alloc_id();
        let ghost before = self.groups@;
        self.groups.push(DirGroup { id, name: name.to_owned(), enabled: true, collapsed: false, dirs: Vec::new() });
        proof {
            assert(self.groups@.drop_last() == before);
            assert(group_dirs(self.groups@) =~= group_dirs(before));
            assert(self.all_dirs() == old(self).all_dirs());
            if old(self).ids_below_next() {
                assert forall|g: int| 0 <= g < self.groups@.len() implies #[trigger] self.groups@[g].id < self.next_id by {
                    if g < before.len() {
                        assert(self.groups@[g] == before[g]);
                    }
                }
            }
        }
        true
    }

    /// Removes the ungrouped directory at position `i`.
    pub fn remove_free_at(&mut self, i: usize)
        requires
            i < old(self).free@.len(),
        ensures
            final(self).free@ == old(self).free@.remove(i as int),
            final(self).groups == old(self).groups,
            final(self).next_id == old(self).next_id,
            old(self).ids_below_next() ==> final(self).ids_below_next(),
    {
        self.free.remove(i);
        proof {
            broadcast use vstd::seq_lib::group_to_multiset_ensures;
            broadcast use vstd::seq_lib::lemma_multiset_commutative;
            broadcast use vstd::multiset::group_multiset_axioms;

            if old(self).ids_below_next() {
                assert(old(self).free@.remove(i as int).to_multiset() == old(self).free@.to_multiset().remove(old(self).free@[i as int]));
                lemma_ids_below_next_shrink(*old(self), *self);
            }
        }
    }

    /// Removes the group at position `g`, with its directories.
    pub fn remove_group_at(&mut self, g: usize)
        requires
            g < old(self).groups@.len(),
        ensures
            final(self).groups@ == old(self).groups@.remove(g as int),
            final(self).free == old(self).free,
            final(self).next_id == old(self).next_id,
            old(self).ids_below_next() ==> final(self).ids_below_next(),
    {
        self.groups.remove(g);
        proof {
            broadcast use vstd::seq_lib::lemma_multiset_commutative;
            broadcast use vstd::multiset::group_multiset_axioms;

            if old(self).ids_below_next() {
                lemma_group_dirs_remove(old(self).groups@, g as int);
                let mo = group_dirs(old(self).groups@).to_multiset();
                let mn = group_dirs(self.groups@).to_multiset();
                assert forall|y: SearchDir| self.all_dirs().to_multiset().count(y) > 0 implies old(self).all_dirs().to_multiset().count(y) > 0 by {
                    assert(mn.add(old(self).groups@[g as int].dirs@.to_multiset()).count(y) == mo.count(y));
                    assert(self.all_dirs().to_multiset().count(y) == self.free@.to_multiset().count(y) + mn.count(y));
                    assert(old(self).all_dirs().to_multiset().count(y) == self.free@.to_multiset().count(y) + mo.count(y));
                }
                lemma_ids_below_next_shrink(*old(self), *self);
                assert forall|g2: int| 0 <= g2 < self.groups@.len() implies #[trigger] self.groups@[g2].id < self.next_id by {
                    if g2 < g {
                        assert(self.groups@[g2] == old(self).groups@[g2]);
                    } else {
                        assert(self.groups@[g2] == old(self).groups@[g2 + 1]);
                    }
                }
            }
        }
    }

    /// Removes the directory at position `i` of the group at position `g`.
    pub fn remove_child_at(&mut self, g: usize, i: usize)
        requires
            g < old(self).groups@.len(),
            i < old(self).groups@[g as int].dirs@.len(),
        ensures
            groups_with_dirs(old(self).groups@, final(self).groups@, g as int, old(self).groups@[g as int].dirs@.remove(i as int)),
            final(self).free == old(self).free,
            final(self).next_id == old(self).next_id,
            old(self).ids_below_next() ==> final(self).ids_below_next(),
    {
        let ghost before = self.groups@;
        let grp = &mut self.groups[g];
        grp.dirs.remove(i);
        proof {
            broadcast use vstd::seq_lib::group_to_multiset_ensures;
            broadcast use vstd::seq_lib::lemma_multiset_commutative;
            broadcast use vstd::multiset::group_multiset_axioms;

            assert(groups_with_dirs(before, self.groups@, g as int, before[g as int].dirs@.remove(i as int)));
            if old(self).ids_below_next() {
                let x = before[g as int].dirs@.remove(i as int);
                lemma_group_dirs_replace(before, self.groups@, g as int, x);
                let mo = group_dirs(before).to_multiset();
                let mn = group_dirs(self.groups@).to_multiset();
                assert forall|y: SearchDir| mn.count(y) > 0 implies mo.count(y) > 0 by {
                    assert(mn.add(before[g as int].dirs@.to_multiset()).count(y) == mo.add(x.to_multiset()).count(y));
                    assert(before[g as int].dirs@.to_multiset().count(y) == x.to_multiset().insert(before[g as int].dirs@[i as int]).count(y));
                }
                assert forall|y: SearchDir| self.all_dirs().to_multiset().count(y) > 0 implies old(self).all_dirs().to_multiset().count(y) > 0 by {
                    assert(self.all_dirs().to_multiset().count(y) == self.free@.to_multiset().count(y) + mn.count(y));
                    assert(old(self).all_dirs().to_multiset().count(y) == self.free@.to_multiset().count(y) + mo.count(y));
                }
                lemma_ids_below_next_shrink(*old(self), *self);
            }
        }
    }

    /// Moves the first directory with identifier `dir_id` into the first
    /// group with identifier `group_id`, at its end. When there is no such
    /// group, the directory is taken out all the same.
    pub fn move_to_group(&mut self, dir_id: u64, group_id: u64)
        ensures
            exists|mid: DirTree, r: Option<SearchDir>|
                #![trigger dir_removed(*old(self), mid, dir_id, r)]
                dir_removed(*old(self), mid, dir_id, r) && match r {
                    None => *final(self) == mid,
                    Some(d) => (exists|g: int|
                        #![trigger mid.groups@[g]]
                        is_first_group_with_id(mid.groups@, group_id, g) && groups_with_dirs(
                            mid.groups@,
                            final(self).groups@,
                            g,
                            mid.groups@[g].dirs@.push(d),
                        ) && final(self).free == mid.free && final(self).next_id == mid.next_id) || (
                    (forall|g: int| 0 <= g < mid.groups@.len() ==> mid.groups@[g].id != group_id)
                        && *final(self) == mid),
                },
            final(self).all_dirs().to_multiset() == old(self).all_dirs().to_multiset() || forall|g: int|
                0 <= g < final(self).groups@.len() ==> final(self).groups@[g].id != group_id,
            old(self).ids_below_next() ==> final(self).ids_below_next(),
    {
        let ghost start = *self;
        let r = self.remove_dir(dir_id);
        let ghost mid = *self;
        match r {
            Some(d) => {
                match self.group_mut(group_id) {
                    Some(grp) => {
                        let ghost before_push = *grp;
                        grp.dirs.push(d);
                        proof {
                            let g = choose|g: int|
                                #![trigger mid.groups@[g]]
                                is_first_group_with_id(mid.groups@, group_id, g) && before_push == mid.groups@[g]
                                    && self.groups@ == mid.groups@.update(g, *grp);
                            assert(groups_with_dirs(mid.groups@, self.groups@, g, mid.groups@[g].dirs@.push(d)));
                            lemma_move_into_group(start, mid, *self, dir_id, g, d);
                        }
                    },
                    None => {},
                }
            },
            None => {},
        }
    }

    /// Moves the first directory with identifier `dir_id` out of its place
    /// to the end of the ungrouped directories.
    pub fn move_to_free(&mut self, dir_id: u64)
        ensures
            exists|mid: DirTree, r: Option<SearchDir>|
                #![trigger dir_removed(*old(self), mid, dir_id, r)]
                dir_removed(*old(self), mid, dir_id, r) && match r {
                    None => *final(self) == mid,
                    Some(d) => final(self).free@ == mid.free@.push(d) && final(self).groups == mid.groups
                        && final(self).next_id == mid.next_id,
                },
            final(self).all_dirs().to_multiset() == old(self).all_dirs().to_multiset(),
            old(self).ids_below_next() ==> final(self).ids_below_next(),
    {
        let ghost start = *self;
        let r = self.remove_dir(dir_id);
        let ghost mid = *self;
        match r {
            Some(d) => {
                self.free.push(d);
                proof {
                    broadcast use vstd::seq_lib::group_to_multiset_ensures;
                    broadcast use vstd::seq_lib::lemma_multiset_commutative;
                    broadcast use vstd::multiset::group_multiset_axioms;

                    assert(self.all_dirs().to_multiset() =~= mid.all_dirs().to_multiset().insert(d));
                    if start.ids_below_next() {
                        lemma_ids_below_next_shrink(start, *self);
                    }
                }
            },
            None => {},
        }
    }

    /// Switches the group at position `g` on or off as a whole.
    pub fn set_group_enabled(&mut self, g: usize, on: bool)
        requires
            g < old(self).groups@.len(),
        ensures
            final(self).free == old(self).free,
            final(self).next_id == old(self).next_id,
            final(self).groups@.len() == old(self).groups@.len(),
            forall|k: int| 0 <= k < old(self).groups@.len() && k != g ==> final(self).groups@[k] == old(self).groups@[k],
            final(self).groups@[g as int].enabled == on,
            final(self).groups@[g as int].id == old(self).groups@[g as int].id,
            final(self).groups@[g as int].name == old(self).groups@[g as int].name,
            final(self).groups@[g as int].collapsed == old(self).groups@[g as int].collapsed,
            final(self).groups@[g as int].dirs == old(self).groups@[g as int].dirs,
            old(self).ids_below_next() ==> final(self).ids_below_next(),
    {
        let grp = &mut self.groups[g];
        grp.enabled = on;
        proof {
            lemma_group_dirs_same_dirs(old(self).groups@, self.groups@);
            assert(self.all_dirs() == old(self).all_dirs());
            assert forall|k: int| 0 <= k < self.groups@.len() implies #[trigger] self.groups@[k].id == old(self).groups@[k].id by {}
        }
    }

    /// Collapses or expands the group at position `g` in the view.
    pub fn set_group_collapsed(&mut self, g: usize, collapsed: bool)
        requires
            g < old(self).groups@.len(),
        ensures
            final(self).free == old(self).free,
            final(self).next_id == old(self).next_id,
            final(self).groups@.len() == old(self).groups@.len(),
            forall|k: int| 0 <= k < old(self).groups@.len() && k != g ==> final(self).groups@[k] == old(self).groups@[k],
            final(self).groups@[g as int].collapsed == collapsed,
            final(self).groups@[g as int].id == old(self).groups@[g as int].id,
            final(self).groups@[g as int].name == old(self).groups@[g as int].name,
            final(self).groups@[g as int].enabled == old(self).groups@[g as int].enabled,
            final(self).groups@[g as int].dirs == old(self).groups@[g as int].dirs,
            old(self).ids_below_next() ==> final(self).ids_below_next(),
    {
        let grp = &mut self.groups[g];
        grp.collapsed = collapsed;
        proof {
            lemma_group_dirs_same_dirs(old(self).groups@, self.groups@);
            assert(self.all_dirs() == old(self).all_dirs());
            assert forall|k: int| 0 <= k < self.groups@.len() implies #[trigger] self.groups@[k].id == old(self).groups@[k].id by {}
        }
    }

    /// Switches on or off the first directory with identifier `dir_id`:
    /// among the ungrouped ones first, else in the first group holding one.
    pub fn set_dir_enabled(&mut self, dir_id: u64, on: bool)
        ensures
            dir_enabled_set(*old(self), *final(self), dir_id, on),
            old(self).ids_below_next() ==> final(self).ids_below_next(),
    {
        proof {
            lemma_has_dir_id_concat(self.free@, group_dirs(self.groups@), dir_id);
        }
        match dir_index(&self.free, dir_id) {
            Some(i) => {
                let d = &mut self.free[i];
                d.enabled = on;
                proof {
                    assert(self.free@ =~= old(self).free@.update(i as int, switched(old(self).free@[i as int], on)));
                    lemma_switch_ids(old(self).free@, i as int, on);
                    if old(self).ids_below_next() {
                        assert forall|k: int| 0 <= k < self.all_dirs().len() implies #[trigger] self.all_dirs()[k].id < self.next_id by {
                            if k < self.free@.len() {
                                assert(self.all_dirs()[k] == self.free@[k]);
                                assert(old(self).all_dirs()[k] == old(self).free@[k]);
                                assert(self.free@.map_values(|x: SearchDir| x.id)[k] == old(self).free@.map_values(|x: SearchDir| x.id)[k]);
                            } else {
                                assert(self.all_dirs()[k] == old(self).all_dirs()[k]);
                            }
                        }
                    }
                }
                return;
            }
            None => {}
        }
        let mut g: usize = 0;
        while g < self.groups.len()
            invariant
                g <= self.groups@.len(),
                *self == *old(self),
                !has_dir_id(self.free@, dir_id),
                forall|k: int| 0 <= k < g ==> !has_dir_id(#[trigger] self.groups@[k].dirs@, dir_id),
            decreases self.groups@.len() - g,
        {
            match dir_index(&self.groups[g].dirs, dir_id) {
                Some(i) => {
                    let ghost old_groups = self.groups@;
                    let grp = &mut self.groups[g];
                    let d = &mut grp.dirs[i];
                    d.enabled = on;
                    proof {
                        let x = old_groups[g as int].dirs@.update(i as int, switched(old_groups[g as int].dirs@[i as int], on));
                        assert(groups_with_dirs(old_groups, self.groups@, g as int, x));
                        lemma_group_dirs_some(old_groups, g as int, dir_id);
                        assert(is_first_group_with_dir(old_groups, dir_id, g as int));
                        assert(is_first_with_id(old_groups[g as int].dirs@, dir_id, i as int));
                        lemma_has_dir_id_concat(old(self).free@, group_dirs(old(self).groups@), dir_id);
                        lemma_switch_ids(old_groups[g as int].dirs@, i as int, on);
                        lemma_group_dirs_replace_ids(old_groups, self.groups@, g as int, x);
                        let gn = group_dirs(self.groups@);
                        let go = group_dirs(old_groups);
                        assert(dir_ids(gn).len() == gn.len());
                        assert(dir_ids(go).len() == go.len());
                        if old(self).ids_below_next() {
                            assert forall|k: int| 0 <= k < self.all_dirs().len() implies #[trigger] self.all_dirs()[k].id < self.next_id by {
                                let n = self.free@.len() as int;
                                assert(old(self).all_dirs()[k].id < old(self).next_id);
                                if k < n {
                                    assert(self.all_dirs()[k] == old(self).all_dirs()[k]);
                                } else {
                                    assert(self.all_dirs()[k] == group_dirs(self.groups@)[k - n]);
                                    assert(old(self).all_dirs()[k] == group_dirs(old_groups)[k - n]);
                                    assert(dir_ids(gn)[k - n] == gn[k - n].id);
                                    assert(dir_ids(go)[k - n] == go[k - n].id);
                                }
                            }
                            assert forall|k: int| 0 <= k < self.groups@.len() implies #[trigger] self.groups@[k].id < self.next_id by {
                                assert(self.groups@[k].id == old_groups[k].id);
                            }
                        }
                    }
                    return;
                }
                None => {}
            }
            g += 1;
        }
        proof {
            lemma_group_dirs_none(self.groups@, dir_id);
        }
    }

    /// Whether `add_dir(input, is_dir)` would add a directory.
    pub fn will_add_dir(&self, input: &str, is_dir: bool) -> (b: bool)
        ensures
            b == adds_dir(*self, input@, is_dir),
    {
        let p = trim(input);
        p.unicode_len() > 0 && is_dir && !self.knows_path(p)
    }

    /// Whether `reconcile_next_id` can take this tree: its counter and the
    /// largest identifier leave room for one more.
    pub fn can_reconcile(&self) -> (b: bool)
        ensures
            b == ((self.next_id == 0 ==> self.spec_total_dirs() <= usize::MAX && self.spec_total_dirs() + 10
                <= u64::MAX) && max_dir_id(self.all_dirs(), reconcile_base(*self)) < u64::MAX),
    {
        let mut total: u64 = 0;
        let mut fits = true;
        // the largest identifier, and the number of directories while it fits
        let mut max_id: u64 = 0;
        let mut i: usize = 0;
        while i < self.free.len()
            invariant
                i <= self.free@.len(),
                max_id == max_dir_id(self.free@.take(i as int), 0),
                total == i,
            decreases self.free@.len() - i,
        {
            assert(self.free@.take(i + 1).drop_last() == self.free@.take(i as int));
            if self.free[i].id > max_id {
                max_id = self.free[i].id;
            }
            i += 1;
            total = total + 1;
        }
        assert(self.free@.take(i as int) == self.free@);
        let mut g: usize = 0;
        while g < self.groups.len()
            invariant
                g <= self.groups@.len(),
                max_id == max_dir_id(group_dirs(self.groups@.take(g as int)), max_dir_id(self.free@, 0)),
                fits ==> total == self.free@.len() + group_dirs(self.groups@.take(g as int)).len(),
                !fits ==> self.free@.len() + group_dirs(self.groups@.take(g as int)).len() > u64::MAX,
            decreases self.groups@.len() - g,
        {
            let dirs = &self.groups[g].dirs;
            let ghost start = max_id;
            let mut j: usize = 0;
            while j < dirs.len()
                invariant
                    j <= dirs@.len(),
                    max_id == max_dir_id(dirs@.take(j as int), start),
                decreases dirs@.len() - j,
            {
                assert(dirs@.take(j + 1).drop_last() == dirs@.take(j as int));
                if dirs[j].id > max_id {
                    max_id = dirs[j].id;
                }
                j += 1;
            }
            assert(dirs@.take(j as int) == dirs@);
            proof {
                assert(self.groups@.take(g + 1).drop_last() == self.groups@.take(g as int));
                lemma_max_dir_id_concat(group_dirs(self.groups@.take(g as int)), dirs@, max_dir_id(self.free@, 0));
            }
            let n = dirs.len() as u64;
            if fits && total <= u64::MAX - n {
                total = total + n;
            } else {
                fits = false;
            }
            g += 1;
        }
        assert(self.groups@.take(g as int) == self.groups@);
        proof {
            lemma_max_dir_id_concat(self.free@, group_dirs(self.groups@), 0);
            lemma_max_dir_id_split_base(self.all_dirs(), reconcile_base(*self));
        }
        if self.next_id == 0 {
            if !fits || total > u64::MAX - 10 || total > usize::MAX as u64 {
                return false;
            }
            let base = total + 10;
            let m = if max_id > base {
                max_id
            } else {
                base
            };
            m < u64::MAX
        } else {
            let m = if max_id > self.next_id {
                max_id
            } else {
                self.next_id
            };
            m < u64::MAX
        }
    }

    /// The position of the first group with identifier `group_id`.
    fn group_index(&self, group_id: u64) -> (r: Option<usize>)
        ensures
            match r {
                Some(g) => is_first_group_with_id(self.groups@, group_id, g as int),
                None => forall|k: int| 0 <= k < self.groups@.len() ==> self.groups@[k].id != group_id,
            },
    {
        let mut g: usize = 0;
        while g < self.groups.len()
            invariant
                g <= self.groups@.len(),
                forall|k: int| 0 <= k < g ==> self.groups@[k].id != group_id,
            decreases self.groups@.len() - g,
        {
            if self.groups[g].id == group_id {
                return Some(g);
            }
            g += 1;
        }
        None
    }

    /// The first group with identifier `group_id`, to be changed in place.
    pub fn group_mut(&mut self, group_id: u64) -> (r: Option<&mut DirGroup>)
        ensures
            match r {
                Some(grp) => exists|g: int|
                    #![trigger old(self).groups@[g]]
                    is_first_group_with_id(old(self).groups@, group_id, g)
                        && *grp == old(self).groups@[g]
                        && final(self).groups@ == old(self).groups@.update(g, *final(grp))
                        && final(self).free == old(self).free
                        && final(self).next_id == old(self).next_id,
                None => *final(self) == *old(self) && forall|k: int|
                    0 <= k < old(self).groups@.len() ==> old(self).groups@[k].id != group_id,
            },
    {
        match self.group_index(group_id) {
            Some(g) => Some(&mut self.groups[g]),
            None => None,
        }
    }

    /// Takes out the first directory with identifier `dir_id`: among the
    /// ungrouped directories first, else from the first group that holds one.
    pub fn remove_dir(&mut self, dir_id: u64) -> (r: Option<SearchDir>)
        ensures
            dir_removed(*old(self), *final(self), dir_id, r),
            r matches Some(d) ==> old(self).all_dirs().to_multiset() == final(self).all_dirs().to_multiset().insert(d),
            r is None ==> *final(self) == *old(self),
            r is Some ==> final(self).spec_total_dirs() + 1 == old(self).spec_total_dirs(),
            old(self).ids_below_next() ==> final(self).ids_below_next(),
    {
        let ghost before = *self;
        let r = self.take_dir(dir_id);
        proof {
            broadcast use vstd::seq_lib::group_to_multiset_ensures;
            broadcast use vstd::multiset::group_multiset_axioms;

            lemma_dir_removed(before, *self, dir_id, r);
            if r is Some {
                assert(before.all_dirs().to_multiset().len() == self.all_dirs().to_multiset().insert(r->0).len());
            }
        }
        r
    }

    /// Takes out the first directory with identifier `dir_id`.
    fn take_dir(&mut self, dir_id: u64) -> (r: Option<SearchDir>)
        ensures
            dir_removed(*old(self), *final(self), dir_id, r),
    {
        proof {
            lemma_has_dir_id_concat(self.free@, group_dirs(self.groups@), dir_id);
        }
        match dir_index(&self.free, dir_id) {
            Some(i) => {
                let d = self.free.remove(i);
                return Some(d);
            }
            None => {}
        }
        let mut g: usize = 0;
        while g < self.groups.len()
            invariant
                g <= self.groups@.len(),
                self.groups == old(self).groups,
                self.free == old(self).free,
                self.next_id == old(self).next_id,
                !has_dir_id(self.free@, dir_id),
                forall|k: int| 0 <= k < g ==> !has_dir_id(#[trigger] self.groups@[k].dirs@, dir_id),
            decreases self.groups@.len() - g,
        {
            match dir_index(&self.groups[g].dirs, dir_id) {
                Some(i) => {
                    let ghost old_groups = self.groups@;
                    let grp = &mut self.groups[g];
                    let d = grp.dirs.remove(i);
                    assert(groups_with_dirs(old_groups, self.groups@, g as int, old_groups[g as int].dirs@.remove(i as int)));
                    proof {
                        lemma_group_dirs_some(old_groups, g as int, dir_id);
                        lemma_has_dir_id_concat(old(self).free@, group_dirs(old_groups), dir_id);
                    }
                    return Some(d);
                }
                None => {}
            }
            g += 1;
        }
        proof {
            lemma_group_dirs_none(self.groups@, dir_id);
        }
        None
    }
}

/// `new` is `old` after taking out the first directory with identifier
/// `id`, handed out as `r`: from the ungrouped directories if one has that
/// identifier, else from the first group holding one; nothing changes and
/// nothing is handed out when no directory has it.
pub open spec fn dir_removed(old: DirTree, new: DirTree, id: u64, r: Option<SearchDir>) -> bool {
    &&& new.next_id == old.next_id
    &&& has_dir_id(old.free@, id) ==> exists|i: int|
        #![trigger old.free@[i]]
        is_first_with_id(old.free@, id, i) && r == Some(old.free@[i]) && new.free@ == old.free@.remove(i)
            && new.groups == old.groups
    &&& !has_dir_id(old.free@, id) ==> new.free == old.free
    &&& !has_dir_id(old.free@, id) && has_dir_id(group_dirs(old.groups@), id) ==> exists|g: int, i: int|
        #![trigger old.groups@[g].dirs@[i]]
        is_first_group_with_dir(old.groups@, id, g) && is_first_with_id(old.groups@[g].dirs@, id, i)
            && r == Some(old.groups@[g].dirs@[i]) && groups_with_dirs(
            old.groups@,
            new.groups@,
            g,
            old.groups@[g].dirs@.remove(i),
        )
    &&& !has_dir_id(old.all_dirs(), id) ==> r is None && new == old
}

/// Taking out a directory leaves the others and the group identifiers in
/// place.
pub proof fn lemma_dir_removed(old: DirTree, new: DirTree, id: u64, r: Option<SearchDir>)
    requires
        dir_removed(old, new, id, r),
    ensures
        r matches Some(d) ==> old.all_dirs().to_multiset() == new.all_dirs().to_multiset().insert(d),
        r is None ==> new == old,
        new.groups@.len() == old.groups@.len(),
        forall|g: int| 0 <= g < old.groups@.len() ==> #[trigger] new.groups@[g].id == old.groups@[g].id,
        old.ids_below_next() ==> new.ids_below_next(),
{
    broadcast use vstd::seq_lib::group_to_multiset_ensures;
    broadcast use vstd::seq_lib::lemma_multiset_commutative;
    broadcast use vstd::multiset::group_multiset_axioms;

    lemma_has_dir_id_concat(old.free@, group_dirs(old.groups@), id);
    if has_dir_id(old.free@, id) {
        let i = choose|i: int|
            #![trigger old.free@[i]]
            is_first_with_id(old.free@, id, i) && r == Some(old.free@[i]) && new.free@ == old.free@.remove(i)
                && new.groups == old.groups;
        assert(old.free@.remove(i).to_multiset() == old.free@.to_multiset().remove(old.free@[i]));
        assert(old.all_dirs().to_multiset() =~= new.all_dirs().to_multiset().insert(old.free@[i]));
    } else if has_dir_id(group_dirs(old.groups@), id) {
        let (g, i) = choose|g: int, i: int|
            #![trigger old.groups@[g].dirs@[i]]
            is_first_group_with_dir(old.groups@, id, g) && is_first_with_id(old.groups@[g].dirs@, id, i)
                && r == Some(old.groups@[g].dirs@[i]) && groups_with_dirs(
                old.groups@,
                new.groups@,
                g,
                old.groups@[g].dirs@.remove(i),
            );
        let d = old.groups@[g].dirs@[i];
        let x = old.groups@[g].dirs@.remove(i);
        lemma_group_dirs_replace(old.groups@, new.groups@, g, x);
        assert(x.to_multiset().insert(d) =~= old.groups@[g].dirs@.to_multiset());
        let mo = group_dirs(old.groups@).to_multiset();
        let mn = group_dirs(new.groups@).to_multiset();
        assert(mn.add(old.groups@[g].dirs@.to_multiset()) == mo.add(x.to_multiset()));
        assert forall|y: SearchDir| mo.count(y) == mn.insert(d).count(y) by {
            assert(mn.add(old.groups@[g].dirs@.to_multiset()).count(y) == mo.add(x.to_multiset()).count(y));
            assert(old.groups@[g].dirs@.to_multiset().count(y) == x.to_multiset().insert(d).count(y));
        }
        assert(mo =~= mn.insert(d));
        assert(old.all_dirs().to_multiset() =~= new.all_dirs().to_multiset().insert(d));
    }
    if old.ids_below_next() {
        assert forall|x: SearchDir| new.all_dirs().to_multiset().count(x) > 0 implies old.all_dirs().to_multiset().count(x) > 0 by {
            if r is Some {
                assert(old.all_dirs().to_multiset().count(x) == new.all_dirs().to_multiset().insert(r->0).count(x));
            }
        }
        lemma_ids_below_next_shrink(old, new);
        assert forall|g: int| 0 <= g < new.groups@.len() implies #[trigger] new.groups@[g].id < new.next_id by {
            assert(new.groups@[g].id == old.groups@[g].id);
        }
    }
}

/// Replacing the directories of one group replaces them among the
/// directories of all groups.
pub proof fn lemma_group_dirs_replace(old: Seq<DirGroup>, new: Seq<DirGroup>, g: int, dirs: Seq<SearchDir>)
    requires
        groups_with_dirs(old, new, g, dirs),
    ensures
        group_dirs(new).to_multiset().add(old[g].dirs@.to_multiset()) == group_dirs(old).to_multiset().add(
            dirs.to_multiset(),
        ),
    decreases old.len(),
{
    broadcast use vstd::seq_lib::lemma_multiset_commutative;
    broadcast use vstd::multiset::group_multiset_axioms;

    let n = old.len() - 1;
    if g == n {
        assert(new.drop_last() =~= old.drop_last());
        assert(group_dirs(new.drop_last()) == group_dirs(old.drop_last()));
        assert(group_dirs(new).to_multiset().add(old[g].dirs@.to_multiset()) =~= group_dirs(old).to_multiset().add(
            dirs.to_multiset(),
        ));
    } else {
        assert(groups_with_dirs(old.drop_last(), new.drop_last(), g, dirs));
        lemma_group_dirs_replace(old.drop_last(), new.drop_last(), g, dirs);
        assert(new.last() == old.last());
        assert(old.drop_last()[g] == old[g]);
        assert(group_dirs(new) == group_dirs(new.drop_last()) + new.last().dirs@);
        assert(group_dirs(old) == group_dirs(old.drop_last()) + old.last().dirs@);
        assert(group_dirs(new).to_multiset() == group_dirs(new.drop_last()).to_multiset().add(new.last().dirs@.to_multiset()));
        assert(group_dirs(old).to_multiset() == group_dirs(old.drop_last()).to_multiset().add(old.last().dirs@.to_multiset()));
        let a = group_dirs(new).to_multiset().add(old[g].dirs@.to_multiset());
        let b = group_dirs(old).to_multiset().add(dirs.to_multiset());
        let ih_a = group_dirs(new.drop_last()).to_multiset().add(old[g].dirs@.to_multiset());
        let ih_b = group_dirs(old.drop_last()).to_multiset().add(dirs.to_multiset());
        assert(ih_a == ih_b);
        assert forall|x: SearchDir| a.count(x) == b.count(x) by {
            assert(ih_a.count(x) == ih_b.count(x));
        }
        assert(a =~= b);
    }
}

/// Directory identifiers stay below the counter when directories only go
/// away or move and the counter does not drop.
pub proof fn lemma_ids_below_next_shrink(old: DirTree, new: DirTree)
    requires
        old.dir_ids_below_next(),
        forall|x: SearchDir| new.all_dirs().to_multiset().count(x) > 0 ==> old.all_dirs().to_multiset().count(x) > 0,
        old.next_id <= new.next_id,
    ensures
        new.dir_ids_below_next(),
{
    broadcast use vstd::seq_lib::group_to_multiset_ensures;

    assert forall|i: int| 0 <= i < new.all_dirs().len() implies #[trigger] new.all_dirs()[i].id < new.next_id by {
        let x = new.all_dirs()[i];
        assert(new.all_dirs().contains(x));
        assert(new.all_dirs().to_multiset().count(x) > 0);
        assert(old.all_dirs().to_multiset().count(x) > 0);
        assert(old.all_dirs().contains(x));
        let j = choose|j: int| 0 <= j < old.all_dirs().len() && old.all_dirs()[j] == x;
        assert(old.all_dirs()[j].id < old.next_id);
    }
}

/// While every identifier in use lies below the counter, the identifier
/// `alloc_id` hands out next is used by no directory and no group.
pub proof fn lemma_next_id_fresh(t: DirTree)
    requires
        t.ids_below_next(),
    ensures
        forall|i: int| 0 <= i < t.all_dirs().len() ==> #[trigger] t.all_dirs()[i].id != t.next_id,
        forall|g: int| 0 <= g < t.groups@.len() ==> #[trigger] t.groups@[g].id != t.next_id,
{
    assert forall|i: int| 0 <= i < t.all_dirs().len() implies #[trigger] t.all_dirs()[i].id != t.next_id by {
        assert(t.all_dirs()[i].id < t.next_id);
    }
    assert forall|g: int| 0 <= g < t.groups@.len() implies #[trigger] t.groups@[g].id != t.next_id by {
        assert(t.groups@[g].id < t.next_id);
    }
}

/// The counter a loaded tree starts from: its own, or when it has none, the
/// number of its directories plus ten.
pub open spec fn reconcile_base(t: DirTree) -> u64 {
    if t.next_id == 0 {
        (t.spec_total_dirs() + 10) as u64
    } else {
        t.next_id
    }
}

/// The largest of `m` and the identifiers of `dirs`.
pub open spec fn max_dir_id(dirs: Seq<SearchDir>, m: u64) -> u64
    decreases dirs.len(),
{
    if dirs.len() == 0 {
        m
    } else {
        let r = max_dir_id(dirs.drop_last(), m);
        if dirs.last().id > r {
            dirs.last().id
        } else {
            r
        }
    }
}

/// The largest identifier of a concatenation, found part after part.
pub proof fn lemma_max_dir_id_concat(a: Seq<SearchDir>, b: Seq<SearchDir>, m: u64)
    ensures
        max_dir_id(a + b, m) == max_dir_id(b, max_dir_id(a, m)),
    decreases b.len(),
{
    if b.len() == 0 {
        assert(a + b =~= a);
    } else {
        assert((a + b).drop_last() =~= a + b.drop_last());
        lemma_max_dir_id_concat(a, b.drop_last(), m);
    }
}

/// The largest identifier from a base is the larger of the base and the
/// largest identifier from zero.
pub proof fn lemma_max_dir_id_split_base(dirs: Seq<SearchDir>, m: u64)
    ensures
        max_dir_id(dirs, m) == if max_dir_id(dirs, 0) > m {
            max_dir_id(dirs, 0)
        } else {
            m
        },
    decreases dirs.len(),
{
    if dirs.len() > 0 {
        lemma_max_dir_id_split_base(dirs.drop_last(), m);
    }
}

/// `max_dir_id` bounds `m` and every identifier of `dirs`.
pub proof fn lemma_max_dir_id_bound(dirs: Seq<SearchDir>, m: u64)
    ensures
        m <= max_dir_id(dirs, m),
        forall|i: int| 0 <= i < dirs.len() ==> #[trigger] dirs[i].id <= max_dir_id(dirs, m),
    decreases dirs.len(),
{
    if dirs.len() > 0 {
        lemma_max_dir_id_bound(dirs.drop_last(), m);
        assert forall|i: int| 0 <= i < dirs.len() implies #[trigger] dirs[i].id <= max_dir_id(dirs, m) by {
            if i < dirs.len() - 1 {
                assert(dirs.drop_last()[i] == dirs[i]);
            }
        }
    }
}

/// Some directory among `dirs` has the path `p`, paths compared as `Path` does.
pub open spec fn path_known(dirs: Seq<SearchDir>, p: Seq<char>) -> bool {
    exists|i: int| 0 <= i < dirs.len() && same_path_spec(#[trigger] dirs[i].path@, p)
}

/// No two of `dirs` have the same path.
pub open spec fn paths_distinct(dirs: Seq<SearchDir>) -> bool {
    forall|i: int, j: int|
        #![trigger dirs[i], dirs[j]]
        0 <= i < dirs.len() && 0 <= j < dirs.len() && i != j ==> !same_path_spec(dirs[i].path@, dirs[j].path@)
}

/// Adding the directory typed in `input` goes through: it is not blank
/// once trimmed, it names a directory, and the tree does not have it yet.
pub open spec fn adds_dir(t: DirTree, input: Seq<char>, is_dir: bool) -> bool {
    &&& trim_chars(input).len() > 0
    &&& is_dir
    &&& !path_known(t.all_dirs(), trim_chars(input))
}

/// The directories of all groups are those of the first `n` groups followed
/// by those of the others.
pub proof fn lemma_group_dirs_split(groups: Seq<DirGroup>, n: int)
    requires
        0 <= n <= groups.len(),
    ensures
        group_dirs(groups) == group_dirs(groups.take(n)) + group_dirs(groups.skip(n)),
    decreases groups.len(),
{
    if n == groups.len() {
        assert(groups.take(n) =~= groups);
        assert(groups.skip(n) =~= Seq::<DirGroup>::empty());
        assert(group_dirs(groups) + Seq::<SearchDir>::empty() =~= group_dirs(groups));
    } else {
        lemma_group_dirs_split(groups.drop_last(), n);
        assert(groups.drop_last().take(n) =~= groups.take(n));
        assert(groups.skip(n).drop_last() =~= groups.drop_last().skip(n));
        assert(groups.skip(n).last() == groups.last());
        assert(group_dirs(groups) =~= group_dirs(groups.take(n)) + group_dirs(groups.skip(n)));
    }
}

/// Removing a group removes its directories from those of all groups.
pub proof fn lemma_group_dirs_remove(groups: Seq<DirGroup>, g: int)
    requires
        0 <= g < groups.len(),
    ensures
        group_dirs(groups.remove(g)).to_multiset().add(groups[g].dirs@.to_multiset()) == group_dirs(
            groups,
        ).to_multiset(),
    decreases groups.len(),
{
    broadcast use vstd::seq_lib::lemma_multiset_commutative;
    broadcast use vstd::multiset::group_multiset_axioms;

    if g == groups.len() - 1 {
        assert(groups.remove(g) =~= groups.drop_last());
        assert(group_dirs(groups) == group_dirs(groups.drop_last()) + groups.last().dirs@);
    } else {
        lemma_group_dirs_remove(groups.drop_last(), g);
        assert(groups.remove(g) =~= groups.drop_last().remove(g).push(groups.last()));
        assert(groups.remove(g).drop_last() =~= groups.drop_last().remove(g));
        assert(groups.drop_last()[g] == groups[g]);
        let a = group_dirs(groups.remove(g)).to_multiset().add(groups[g].dirs@.to_multiset());
        let b = group_dirs(groups).to_multiset();
        assert(group_dirs(groups.remove(g)) == group_dirs(groups.drop_last().remove(g)) + groups.last().dirs@);
        assert(group_dirs(groups) == group_dirs(groups.drop_last()) + groups.last().dirs@);
        assert forall|x: SearchDir| a.count(x) == b.count(x) by {
            assert(group_dirs(groups.drop_last().remove(g)).to_multiset().add(groups[g].dirs@.to_multiset()).count(x)
                == group_dirs(groups.drop_last()).to_multiset().count(x));
        }
        assert(a =~= b);
    }
}

/// Groups with the same directories have the same directories all together.
pub proof fn lemma_group_dirs_same_dirs(a: Seq<DirGroup>, b: Seq<DirGroup>)
    requires
        a.len() == b.len(),
        forall|k: int| 0 <= k < a.len() ==> #[trigger] a[k].dirs == b[k].dirs,
    ensures
        group_dirs(a) == group_dirs(b),
    decreases a.len(),
{
    if a.len() > 0 {
        assert(a.last().dirs == b.last().dirs);
        lemma_group_dirs_same_dirs(a.drop_last(), b.drop_last());
    }
}

/// A directory appended to the ungrouped ones under the identifier the
/// counter gave keeps every identifier below the advanced counter.
pub proof fn lemma_ids_below_next_grow(old: DirTree, new: DirTree)
    requires
        old.ids_below_next(),
        new.free@.len() == old.free@.len() + 1,
        new.free@.drop_last() == old.free@,
        new.free@.last().id == old.next_id,
        new.groups == old.groups,
        new.next_id == old.next_id + 1,
    ensures
        new.ids_below_next(),
{
    assert forall|i: int| 0 <= i < new.all_dirs().len() implies #[trigger] new.all_dirs()[i].id < new.next_id by {
        let n = old.free@.len() as int;
        if i < n {
            assert(new.all_dirs()[i] == old.all_dirs()[i]);
        } else if i > n {
            assert(new.all_dirs()[i] == old.all_dirs()[i - 1]);
        }
    }
    assert forall|g: int| 0 <= g < new.groups@.len() implies #[trigger] new.groups@[g].id < new.next_id by {
        assert(new.groups@[g] == old.groups@[g]);
    }
}

/// Moving a taken-out directory into a group keeps every directory and the
/// identifiers below the counter.
pub proof fn lemma_move_into_group(start: DirTree, mid: DirTree, new: DirTree, id: u64, g: int, d: SearchDir)
    requires
        dir_removed(start, mid, id, Some(d)),
        groups_with_dirs(mid.groups@, new.groups@, g, mid.groups@[g].dirs@.push(d)),
        new.free == mid.free,
        new.next_id == mid.next_id,
    ensures
        new.all_dirs().to_multiset() == start.all_dirs().to_multiset(),
        start.ids_below_next() ==> new.ids_below_next(),
{
    broadcast use vstd::seq_lib::group_to_multiset_ensures;
    broadcast use vstd::seq_lib::lemma_multiset_commutative;
    broadcast use vstd::multiset::group_multiset_axioms;

    lemma_dir_removed(start, mid, id, Some(d));
    let x = mid.groups@[g].dirs@.push(d);
    lemma_group_dirs_replace(mid.groups@, new.groups@, g, x);
    let mm = group_dirs(mid.groups@).to_multiset();
    let mn = group_dirs(new.groups@).to_multiset();
    assert forall|y: SearchDir| mn.count(y) == mm.insert(d).count(y) by {
        assert(mn.add(mid.groups@[g].dirs@.to_multiset()).count(y) == mm.add(x.to_multiset()).count(y));
        assert(x.to_multiset() == mid.groups@[g].dirs@.to_multiset().insert(d));
    }
    assert(mn =~= mm.insert(d));
    assert(new.all_dirs().to_multiset() =~= mid.all_dirs().to_multiset().insert(d));
    if start.ids_below_next() {
        lemma_ids_below_next_shrink(start, new);
        assert forall|k: int| 0 <= k < new.groups@.len() implies #[trigger] new.groups@[k].id < new.next_id by {
            assert(new.groups@[k].id == mid.groups@[k].id);
            assert(mid.groups@[k].id == start.groups@[k].id);
        }
    }
}

/// `new` is `old` with an enabled directory at `path` appended to the
/// ungrouped ones, under the identifier the counter gave.
pub open spec fn dir_appended(old: DirTree, new: DirTree, path: Seq<char>) -> bool {
    &&& new.groups == old.groups
    &&& new.next_id == old.next_id + 1
    &&& new.free@.len() == old.free@.len() + 1
    &&& new.free@.drop_last() == old.free@
    &&& new.free@.last().id == old.next_id
    &&& new.free@.last().path@ == path
    &&& new.free@.last().enabled
}

/// Taking out, by its identifier, a directory just added gives it back and
/// leaves the directories and groups as they were before it was added.
pub proof fn lemma_add_then_remove_dir(old: DirTree, mid: DirTree, new: DirTree, path: Seq<char>, r: Option<SearchDir>)
    requires
        old.ids_below_next(),
        dir_appended(old, mid, path),
        dir_removed(mid, new, old.next_id, r),
    ensures
        r matches Some(d) && d.path@ == path && d.id == old.next_id,
        new.free@ == old.free@,
        new.groups == old.groups,
{
    let n = old.free@.len() as int;
    assert(mid.free@[n] == mid.free@.last());
    assert(has_dir_id(mid.free@, old.next_id));
    let i = choose|i: int|
        #![trigger mid.free@[i]]
        is_first_with_id(mid.free@, old.next_id, i) && r == Some(mid.free@[i]) && new.free@ == mid.free@.remove(i)
            && new.groups == mid.groups;
    if i < n {
        assert(mid.free@[i] == old.free@[i]);
        assert(old.all_dirs()[i] == old.free@[i]);
        assert(old.all_dirs()[i].id < old.next_id);
    }
    assert(i == n);
    assert(new.free@ =~= old.free@);
}

/// `d` switched on or off.
pub open spec fn switched(d: SearchDir, on: bool) -> SearchDir {
    SearchDir { id: d.id, path: d.path, enabled: on }
}

/// `new` is `old` with the first directory with identifier `id` switched
/// to `on`: among the ungrouped directories if one has that identifier,
/// else in the first group holding one; nothing changes when none has it.
pub open spec fn dir_enabled_set(old: DirTree, new: DirTree, id: u64, on: bool) -> bool {
    &&& new.next_id == old.next_id
    &&& has_dir_id(old.free@, id) ==> exists|i: int|
        #![trigger old.free@[i]]
        is_first_with_id(old.free@, id, i) && new.free@ == old.free@.update(i, switched(old.free@[i], on))
            && new.groups == old.groups
    &&& !has_dir_id(old.free@, id) ==> new.free == old.free
    &&& !has_dir_id(old.free@, id) && has_dir_id(group_dirs(old.groups@), id) ==> exists|g: int, i: int|
        #![trigger old.groups@[g].dirs@[i]]
        is_first_group_with_dir(old.groups@, id, g) && is_first_with_id(old.groups@[g].dirs@, id, i)
            && groups_with_dirs(
            old.groups@,
            new.groups@,
            g,
            old.groups@[g].dirs@.update(i, switched(old.groups@[g].dirs@[i], on)),
        )
    &&& !has_dir_id(old.all_dirs(), id) ==> new == old
}

/// The identifiers of `dirs`.
pub open spec fn dir_ids(dirs: Seq<SearchDir>) -> Seq<u64> {
    dirs.map_values(|d: SearchDir| d.id)
}

/// Switching a directory keeps the identifiers.
pub proof fn lemma_switch_ids(dirs: Seq<SearchDir>, i: int, on: bool)
    requires
        0 <= i < dirs.len(),
    ensures
        dir_ids(dirs.update(i, switched(dirs[i], on))) == dir_ids(dirs),
{
    assert(dir_ids(dirs.update(i, switched(dirs[i], on))) =~= dir_ids(dirs));
}

/// Replacing the directories of one group by some with the same
/// identifiers keeps the identifiers of all groups' directories.
pub proof fn lemma_group_dirs_replace_ids(old: Seq<DirGroup>, new: Seq<DirGroup>, g: int, dirs: Seq<SearchDir>)
    requires
        groups_with_dirs(old, new, g, dirs),
        dir_ids(dirs) == dir_ids(old[g].dirs@),
    ensures
        dir_ids(group_dirs(new)) == dir_ids(group_dirs(old)),
    decreases old.len(),
{
    let n = old.len() - 1;
    if g == n {
        assert(new.drop_last() =~= old.drop_last());
    } else {
        assert(groups_with_dirs(old.drop_last(), new.drop_last(), g, dirs));
        assert(old.drop_last()[g] == old[g]);
        lemma_group_dirs_replace_ids(old.drop_last(), new.drop_last(), g, dirs);
        assert(new.last() == old.last());
    }
    assert(group_dirs(new) == group_dirs(new.drop_last()) + new.last().dirs@);
    assert(group_dirs(old) == group_dirs(old.drop_last()) + old.last().dirs@);
    assert(dir_ids(group_dirs(new)) =~= dir_ids(group_dirs(new.drop_last())) + dir_ids(new.last().dirs@));
    assert(dir_ids(group_dirs(old)) =~= dir_ids(group_dirs(old.drop_last())) + dir_ids(old.last().dirs@));
}

/// The position of the first directory with identifier `dir_id` in `dirs`.
pub fn dir_index(dirs: &Vec<SearchDir>, dir_id: u64) -> (r: Option<usize>)
    ensures
        match r {
            Some(i) => is_first_with_id(dirs@, dir_id, i as int),
            None => !has_dir_id(dirs@, dir_id),
        },
{
    let mut i: usize = 0;
    while i < dirs.len()
        invariant
            i <= dirs@.len(),
            forall|j: int| 0 <= j < i ==> dirs@[j].id != dir_id,
        decreases dirs@.len() - i,
    {
        if dirs[i].id == dir_id {
            return Some(i);
        }
        i += 1;
    }
    None
}

/// The directories of a prefix of the groups are no more than those of all groups.
pub proof fn lemma_group_dirs_prefix_len(groups: Seq<DirGroup>, n: int)
    requires
        0 <= n <= groups.len(),
    ensures
        group_dirs(groups.take(n)).len() <= group_dirs(groups).len(),
    decreases groups.len(),
{
    if n < groups.len() {
        assert(groups.drop_last().take(n) == groups.take(n));
        lemma_group_dirs_prefix_len(groups.drop_last(), n);
    } else {
        assert(groups.take(n) == groups);
    }
}

/// A directory identifier occurs in a concatenation exactly when it occurs in one part.
pub proof fn lemma_has_dir_id_concat(a: Seq<SearchDir>, b: Seq<SearchDir>, id: u64)
    ensures
        has_dir_id(a + b, id) <==> has_dir_id(a, id) || has_dir_id(b, id),
{
    if has_dir_id(a + b, id) {
        let i = choose|i: int| 0 <= i < (a + b).len() && (a + b)[i].id == id;
        if i >= a.len() {
            assert(b[i - a.len()].id == id);
        }
    }
    if has_dir_id(b, id) {
        let i = choose|i: int| 0 <= i < b.len() && b[i].id == id;
        assert((a + b)[i + a.len()].id == id);
    }
    if has_dir_id(a, id) {
        let i = choose|i: int| 0 <= i < a.len() && a[i].id == id;
        assert((a + b)[i].id == id);
    }
}

/// A directory identifier held by one group occurs among the directories of all groups.
pub proof fn lemma_group_dirs_some(groups: Seq<DirGroup>, g: int, id: u64)
    requires
        0 <= g < groups.len(),
        has_dir_id(groups[g].dirs@, id),
    ensures
        has_dir_id(group_dirs(groups), id),
    decreases groups.len(),
{
    lemma_has_dir_id_concat(group_dirs(groups.drop_last()), groups.last().dirs@, id);
    if g < groups.len() - 1 {
        assert(groups.drop_last()[g] == groups[g]);
        lemma_group_dirs_some(groups.drop_last(), g, id);
    }
}

/// If no group holds a directory with identifier `id`, neither do all groups together.
pub proof fn lemma_group_dirs_none(groups: Seq<DirGroup>, id: u64)
    requires
        forall|k: int| 0 <= k < groups.len() ==> !has_dir_id(#[trigger] groups[k].dirs@, id),
    ensures
        !has_dir_id(group_dirs(groups), id),
    decreases groups.len(),
{
    if groups.len() > 0 {
        assert forall|k: int| 0 <= k < groups.drop_last().len() implies !has_dir_id(
            #[trigger] groups.drop_last()[k].dirs@,
            id,
        ) by {
            assert(groups.drop_last()[k] == groups[k]);
        }
        lemma_group_dirs_none(groups.drop_last(), id);
        assert(!has_dir_id(groups[groups.len() - 1].dirs@, id));
        lemma_has_dir_id_concat(group_dirs(groups.drop_last()), groups.last().dirs@, id);
    }
}

} // verus!
