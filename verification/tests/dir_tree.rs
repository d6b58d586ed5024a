use rgathing::types::{DirGroup, DirTree, SearchDir};

fn dir(id: u64, path: &str, enabled: bool) -> SearchDir {
    SearchDir { id, path: path.to_string(), enabled }
}

fn group(id: u64, name: &str, enabled: bool, dirs: Vec<SearchDir>) -> DirGroup {
    DirGroup { id, name: name.to_string(), enabled, collapsed: false, dirs }
}

fn sample() -> DirTree {
    DirTree {
        free: vec![dir(1, "/a", true), dir(2, "/b", false)],
        groups: vec![
            group(3, "g1", true, vec![dir(4, "/c", true), dir(5, "/d", false)]),
            group(6, "g2", false, vec![dir(7, "/e", true)]),
        ],
        next_id: 8,
    }
}

fn ids(dirs: &[SearchDir]) -> Vec<u64> {
    dirs.iter().map(|d| d.id).collect()
}

#[test]
fn alloc_id_hands_out_counter() {
    let mut t = DirTree::new();
    assert_eq!(t.alloc_id(), 0);
    assert_eq!(t.alloc_id(), 1);
    assert_eq!(t.next_id, 2);
}

#[test]
fn enabled_paths_skips_disabled_dirs_and_groups() {
    let t = sample();
    assert_eq!(t.enabled_paths(), vec!["/a".to_string(), "/c".to_string()]);
}

#[test]
fn total_dirs_counts_all() {
    assert_eq!(sample().total_dirs(), 5);
    assert_eq!(DirTree::new().total_dirs(), 0);
}

#[test]
fn group_mut_finds_group() {
    let mut t = sample();
    {
        let g = t.group_mut(6).expect("group 6");
        g.name = "renamed".to_string();
    }
    assert_eq!(t.groups[1].name, "renamed");
    assert!(t.group_mut(99).is_none());
}

#[test]
fn remove_dir_from_free_group_and_nowhere() {
    let mut t = sample();
    let d = t.remove_dir(2).expect("dir 2");
    assert_eq!(d.path, "/b");
    assert_eq!(ids(&t.free), vec![1]);
    let d = t.remove_dir(7).expect("dir 7");
    assert_eq!(d.path, "/e");
    assert!(t.groups[1].dirs.is_empty());
    assert!(t.remove_dir(42).is_none());
    assert_eq!(t.total_dirs(), 3);
}

#[test]
fn move_to_group_and_back() {
    let mut t = sample();
    t.move_to_group(1, 6);
    assert_eq!(ids(&t.free), vec![2]);
    assert_eq!(ids(&t.groups[1].dirs), vec![7, 1]);
    t.move_to_free(1);
    assert_eq!(ids(&t.free), vec![2, 1]);
    assert_eq!(ids(&t.groups[1].dirs), vec![7]);
    assert_eq!(t.total_dirs(), 5);
}

#[test]
fn move_to_missing_group_drops_dir() {
    let mut t = sample();
    t.move_to_group(4, 99);
    assert_eq!(t.total_dirs(), 4);
    assert_eq!(ids(&t.groups[0].dirs), vec![5]);
}

#[test]
fn set_dir_enabled_switches_first_match() {
    let mut t = sample();
    t.set_dir_enabled(2, true);
    assert!(t.free[1].enabled);
    t.set_dir_enabled(5, true);
    assert!(t.groups[0].dirs[1].enabled);
    t.set_dir_enabled(4, false);
    assert!(!t.groups[0].dirs[0].enabled);
    assert_eq!(t.enabled_paths(), vec!["/a".to_string(), "/b".to_string(), "/d".to_string()]);
}

#[test]
fn add_dir_checks_blank_kind_and_duplicates() {
    let mut t = sample();
    assert!(!t.add_dir("   ", true));
    assert!(!t.add_dir("/new", false));
    assert!(!t.add_dir(" /c ", true));
    assert!(!t.add_dir("/c/", true));
    assert!(t.will_add_dir("  /new  ", true));
    assert!(t.add_dir("  /new  ", true));
    let last = t.free.last().unwrap();
    assert_eq!(last.path, "/new");
    assert_eq!(last.id, 8);
    assert!(last.enabled);
    assert_eq!(t.next_id, 9);
}

#[test]
fn add_group_trims_name() {
    let mut t = sample();
    assert!(!t.add_group(" \t "));
    assert!(t.add_group("  Docs "));
    let g = t.groups.last().unwrap();
    assert_eq!(g.name, "Docs");
    assert_eq!(g.id, 8);
    assert!(g.enabled && !g.collapsed && g.dirs.is_empty());
}

#[test]
fn removals_by_position() {
    let mut t = sample();
    t.remove_child_at(0, 0);
    assert_eq!(ids(&t.groups[0].dirs), vec![5]);
    t.remove_group_at(0);
    assert_eq!(t.groups.len(), 1);
    assert_eq!(t.groups[0].id, 6);
    t.remove_free_at(1);
    assert_eq!(ids(&t.free), vec![1]);
}

#[test]
fn group_flags() {
    let mut t = sample();
    t.set_group_enabled(1, true);
    t.set_group_collapsed(0, true);
    assert!(t.groups[1].enabled);
    assert!(t.groups[0].collapsed);
    assert_eq!(t.enabled_paths(), vec!["/a".to_string(), "/c".to_string(), "/e".to_string()]);
}

#[test]
fn reconcile_without_counter_starts_past_count_and_ids() {
    let mut t = sample();
    t.next_id = 0;
    assert!(t.can_reconcile());
    t.reconcile_next_id();
    // five directories: 5 + 10 = 15, above every identifier
    assert_eq!(t.next_id, 16);
    let mut t = sample();
    t.free.push(dir(40, "/x", true));
    t.reconcile_next_id();
    assert_eq!(t.next_id, 41);
}

#[test]
fn reconcile_ignores_group_identifiers() {
    let mut t = DirTree { free: vec![], groups: vec![group(50, "g", true, vec![])], next_id: 0 };
    t.reconcile_next_id();
    assert_eq!(t.next_id, 11);
}

#[test]
fn can_reconcile_refuses_overflow() {
    let t = DirTree { free: vec![dir(u64::MAX, "/x", true)], groups: vec![], next_id: 3 };
    assert!(!t.can_reconcile());
}

#[test]
fn ensure_start_dir_only_for_empty_tree() {
    let mut t = DirTree::new();
    t.ensure_start_dir("/home".to_string());
    assert_eq!(t.free.len(), 1);
    assert_eq!(t.free[0].path, "/home");
    assert_eq!(t.free[0].id, 0);
    assert_eq!(t.next_id, 1);
    let mut t = sample();
    t.ensure_start_dir("/home".to_string());
    assert_eq!(t.free.len(), 2);
}

#[test]
fn fresh_ids_after_operations() {
    let mut t = sample();
    t.move_to_group(2, 3);
    t.add_group("x");
    let id = t.alloc_id();
    let mut all: Vec<u64> = ids(&t.free);
    for g in &t.groups {
        all.push(g.id);
        all.extend(ids(&g.dirs));
    }
    assert!(!all.contains(&id));
}

#[test]
fn default_true_is_true() {
    assert!(rgathing::default_true());
}

#[test]
fn removing_a_just_added_dir_restores_tree() {
    let mut t = sample();
    let before_free = ids(&t.free);
    assert!(t.add_dir("/fresh", true));
    let d = t.remove_dir(8).expect("added dir");
    assert_eq!(d.path, "/fresh");
    assert_eq!(ids(&t.free), before_free);
}

#[test]
fn added_dirs_never_share_a_path() {
    let mut t = DirTree::new();
    assert!(t.add_dir("/x", true));
    assert!(!t.add_dir("/x/", true));
    assert!(!t.add_dir("/x//", true));
    assert!(t.add_group("g"));
    assert!(t.add_dir("/y", true));
    t.move_to_group(t.free[1].id, t.groups[0].id);
    assert!(!t.add_dir("/y/", true));
    assert!(t.add_dir("/z", true));
    let mut paths: Vec<String> = t.free.iter().map(|d| d.path.clone()).collect();
    paths.extend(t.groups[0].dirs.iter().map(|d| d.path.clone()));
    assert_eq!(paths, vec!["/x".to_string(), "/z".to_string(), "/y".to_string()]);
}
