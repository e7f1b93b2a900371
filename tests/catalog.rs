use tmpas::config::Config;
use tmpas::dedup::{DedupMetadata, SetCmp};
use tmpas::entry::{ListEntry, RunFlags};
use tmpas::path::EntryPath;
use tmpas::state::{count_nodes, matches_search, State};

fn ent(name: Option<&str>, cmd: &[&str], terms: &[&str], children: Vec<ListEntry>) -> ListEntry {
    ListEntry {
        display_name: name.map(|n| n.to_owned()),
        search_terms: terms.iter().map(|t| t.to_string()).collect(),
        exec_command: cmd.iter().map(|t| t.to_string()).collect(),
        exec_flags: RunFlags::new(),
        children,
    }
}

fn names(v: &[ListEntry]) -> Vec<String> {
    v.iter().map(|e| e.name()).collect()
}

fn loaded(entries: Vec<ListEntry>) -> State {
    let mut state = State::new(Config::default());
    assert!(state.start(entries));
    state
}

#[test]
fn named_duplicate_replaces_unnamed() {
    let named = ent(Some("Foo"), &["foo"], &[], vec![]);
    let unnamed = ent(None, &["foo"], &[], vec![]);
    let state = loaded(vec![named, unnamed]);
    let all = state.all_entries();
    assert_eq!(1, all.len());
    assert_eq!(Some("Foo".to_owned()), all[0].display_name);
}

#[test]
fn later_named_duplicate_removes_earlier_unnamed() {
    let unnamed = ent(None, &["foo"], &[], vec![]);
    let named = ent(Some("Foo"), &["foo"], &[], vec![]);
    let state = loaded(vec![unnamed, named]);
    let all = state.all_entries();
    assert_eq!(1, all.len());
    assert_eq!(Some("Foo".to_owned()), all[0].display_name);
}

#[test]
fn disagreeing_axes_keep_both() {
    let named = ent(Some("Foo"), &["foo"], &[], vec![]);
    let unnamed = ent(None, &["foo"], &["foo"], vec![]);
    let state = loaded(vec![named, unnamed]);
    let all = state.all_entries();
    assert_eq!(2, all.len());
    assert_eq!(Some("Foo".to_owned()), all[0].display_name);
    assert_eq!(None, all[1].display_name);
}

#[test]
fn equal_entries_keep_first() {
    let a = ent(Some("A"), &["a"], &["x"], vec![]);
    let b = ent(Some("A"), &["a"], &["x"], vec![]);
    let c = ent(Some("C"), &["c"], &[], vec![]);
    let state = loaded(vec![a, c, b]);
    assert_eq!(vec!["A".to_owned(), "C".to_owned()], names(&state.all_entries()));
}

#[test]
fn different_commands_are_not_duplicates() {
    let a = ent(Some("Foo"), &["foo"], &[], vec![]);
    let b = ent(None, &["foo", "--flag"], &[], vec![]);
    let state = loaded(vec![a, b]);
    assert_eq!(2, state.len());
}

#[test]
fn child_supersedes_root_with_same_command() {
    let plain = ent(None, &["vim"], &[], vec![]);
    let parent = ent(
        Some("Editors"),
        &["editors"],
        &[],
        vec![ent(None, &["vim"], &[], vec![])],
    );
    let state = loaded(vec![plain, parent]);
    let all = state.all_entries();
    assert_eq!(vec!["Editors".to_owned()], names(&all));
    assert_eq!(1, all[0].children.len());
}

#[test]
fn root_after_child_with_same_command_is_dropped() {
    let parent = ent(
        Some("Editors"),
        &["editors"],
        &[],
        vec![ent(None, &["vim"], &[], vec![])],
    );
    let plain = ent(None, &["vim"], &[], vec![]);
    let state = loaded(vec![parent, plain]);
    let all = state.all_entries();
    assert_eq!(vec!["Editors".to_owned()], names(&all));
    assert_eq!(1, all[0].children.len());
}

#[test]
fn empty_query_returns_all_roots_in_order() {
    let state = loaded(vec![
        ent(Some("B"), &["b"], &[], vec![]),
        ent(Some("A"), &["a"], &[], vec![ent(Some("A1"), &["a1"], &[], vec![])]),
        ent(Some("C"), &["c"], &[], vec![]),
    ]);
    let found = state.search_loaded("", usize::MAX);
    assert_eq!(vec!["B".to_owned(), "A".to_owned(), "C".to_owned()], names(&found));
    assert_eq!(1, found[1].children.len());
}

#[test]
fn child_match_is_surfaced_alone() {
    let grandchild = ent(Some("Deep"), &["deep"], &["needle"], vec![]);
    let child = ent(Some("Kid"), &["kid"], &["needle"], vec![grandchild]);
    let other = ent(Some("Other"), &["other"], &[], vec![]);
    let parent = ent(Some("Parent"), &["parent"], &[], vec![other, child]);
    let state = loaded(vec![parent]);
    let found = state.search_loaded("NEEDLE", usize::MAX);
    assert_eq!(vec!["Kid".to_owned()], names(&found));
    assert_eq!(1, found[0].children.len());
}

#[test]
fn matching_root_is_returned_whole() {
    let state = loaded(vec![ent(
        Some("Browser"),
        &["firefox"],
        &[],
        vec![ent(Some("Private"), &["firefox", "--private"], &[], vec![])],
    )]);
    let found = state.search_loaded("brow", usize::MAX);
    assert_eq!(vec!["Browser".to_owned()], names(&found));
    assert_eq!(1, found[0].children.len());
    assert_eq!(2, state.cur_search_height("brow"));
    assert_eq!(0, state.cur_search_height("zzz"));
}

#[test]
fn budget_stops_at_the_entry_that_reaches_it() {
    let state = loaded(vec![
        ent(Some("Aa"), &["a"], &[], vec![ent(Some("x"), &["x"], &[], vec![])]),
        ent(Some("Ab"), &["b"], &[], vec![]),
        ent(Some("Ac"), &["c"], &[], vec![]),
    ]);
    assert_eq!(vec!["Aa".to_owned()], names(&state.search_loaded("a", 2)));
    assert_eq!(vec!["Aa".to_owned(), "Ab".to_owned()], names(&state.search_loaded("a", 3)));
    assert_eq!(vec!["Aa".to_owned()], names(&state.search_loaded("a", 0)));
}

#[test]
fn search_in_batches() {
    let mut state = State::new(Config::default());
    let first = vec![ent(Some("One"), &["one"], &[], vec![])];
    assert_eq!(Some(None), state.search("o", 5, first, false).ok().map(|r| r.map(|v| v.len())));
    let second = vec![ent(Some("Two"), &["two"], &[], vec![])];
    let r = state.search("o", 5, second, true).unwrap().unwrap();
    assert_eq!(vec!["One".to_owned(), "Two".to_owned()], names(&r));
    let mut state = State::new(Config::default());
    let many = vec![
        ent(Some("Oa"), &["oa"], &[], vec![]),
        ent(Some("Ob"), &["ob"], &[], vec![]),
    ];
    let r = state.search("o", 1, many, false).unwrap().unwrap();
    assert_eq!(vec!["Oa".to_owned()], names(&r));
}

#[test]
fn search_is_case_insensitive_on_terms_and_program_name() {
    let e = ent(None, &["/usr/bin/Gimp"], &["PaintTool"], vec![]);
    assert!(matches_search("gimp", &e));
    assert!(matches_search("painttool", &e));
    assert!(matches_search("", &e));
    assert!(!matches_search("usr", &e));
}

#[test]
fn names_fall_back_to_program() {
    assert_eq!("ls", ent(None, &["/bin/ls", "-l"], &[], vec![]).name());
    assert_eq!("Shown", ent(Some("Shown"), &["/bin/ls"], &[], vec![]).name());
    assert_eq!("", ent(None, &[], &[], vec![]).name());
    assert_eq!(Some("ls".to_owned()), ent(None, &["/bin/ls"], &[], vec![]).exec_name());
    assert_eq!(None, ent(None, &[], &[], vec![]).exec_name());
}

#[test]
fn node_count_follows_depth_limit() {
    let e = ent(Some("a"), &["a"], &[], vec![ent(Some("b"), &["b"], &[], vec![ent(Some("c"), &["c"], &[], vec![])])]);
    assert_eq!(3, count_nodes(&e, 1, 1024));
    assert_eq!(2, count_nodes(&e, 1, 1));
    assert_eq!(1, count_nodes(&e, 1, 0));
}

#[test]
fn deleting_by_path() {
    let mut state = State::new(Config::default());
    state.ingest(ent(Some("a"), &["a"], &[], vec![ent(Some("b"), &["b"], &[], vec![])]));
    assert!(state.delete_path(EntryPath::new().child(0).child(1)).is_none());
    let gone = state.delete_path(EntryPath::new().child(0).child(0)).unwrap();
    assert_eq!(Some("b".to_owned()), gone.display_name);
    assert_eq!(0, state.all_entries()[0].children.len());
    assert!(state.delete_queued());
}

#[test]
fn stale_queue_is_reported() {
    let mut state = State::new(Config::default());
    state.ingest(ent(None, &["x"], &[], vec![]));
    state.ingest(ent(Some("X"), &["x"], &[], vec![]));
    assert!(state.delete_path(EntryPath::new().child(0)).is_some());
    assert!(state.delete_path(EntryPath::new().child(0)).is_some());
    assert!(!state.delete_queued());
}

#[test]
fn set_comparisons() {
    let v = |s: &[&str]| s.iter().map(|t| t.to_string()).collect::<Vec<_>>();
    assert_eq!(SetCmp::Equal, SetCmp::set_relationship(&v(&["a", "b"]), &v(&["b", "a", "a"])));
    assert_eq!(SetCmp::Subset, SetCmp::set_relationship(&v(&["a"]), &v(&["b", "a"])));
    assert_eq!(SetCmp::Superset, SetCmp::set_relationship(&v(&["a", "c"]), &v(&["c"])));
    assert_eq!(SetCmp::Disjoint, SetCmp::set_relationship(&v(&["a"]), &v(&["c"])));
    assert_eq!(SetCmp::Disjoint, SetCmp::Superset.combine(SetCmp::Subset));
    assert_eq!(SetCmp::Subset, SetCmp::Equal.combine(SetCmp::Subset));
    assert_eq!(SetCmp::Superset, SetCmp::Superset.combine(SetCmp::Equal));
    assert_eq!(SetCmp::Disjoint, SetCmp::Disjoint.then_with(|| SetCmp::Equal));
    assert_eq!(SetCmp::Superset, SetCmp::Equal.then_with(|| SetCmp::Superset));
}

#[test]
fn fingerprint_verdicts() {
    let root = EntryPath::new().child(0);
    let child = EntryPath::new().child(1).child(0);
    let a = DedupMetadata::new(root, &ent(Some("A"), &["a"], &[], vec![]));
    let b = DedupMetadata::new(child, &ent(None, &["a"], &[], vec![]));
    assert!(!a.is_child());
    assert!(b.is_child());
    assert_eq!(1, b.level());
    assert_eq!(SetCmp::Disjoint, a.compare(&b));
    assert_eq!(SetCmp::Disjoint, b.compare(&a));
    let unnamed_root = DedupMetadata::new(root, &ent(None, &["a"], &[], vec![]));
    assert_eq!(SetCmp::Superset, b.compare(&unnamed_root));
    assert_eq!(SetCmp::Subset, unnamed_root.compare(&b));
    let c = DedupMetadata::new(root, &ent(Some("B"), &["a"], &[], vec![]));
    assert_eq!(SetCmp::Disjoint, a.compare(&c));
    let d = DedupMetadata::new(root, &ent(None, &["a"], &[], vec![ent(None, &["z"], &[], vec![])]));
    assert!(d.has_children());
    assert_eq!(SetCmp::Disjoint, a.compare(&d));
}

#[test]
fn deletions_follow_depth_first_order() {
    let state = loaded(vec![
        ent(None, &["x"], &[], vec![]),
        ent(None, &["y"], &[], vec![]),
        ent(Some("Y"), &["y"], &[], vec![]),
        ent(Some("X"), &["x"], &[], vec![]),
    ]);
    assert_eq!(vec!["Y".to_owned(), "X".to_owned()], names(&state.all_entries()));
}

#[test]
fn one_new_entry_supersedes_several() {
    let state = loaded(vec![
        ent(None, &["z"], &[], vec![]),
        ent(None, &["z"], &["a"], vec![]),
        ent(Some("Zed"), &["z"], &["a"], vec![]),
    ]);
    assert_eq!(vec!["Zed".to_owned()], names(&state.all_entries()));
}
