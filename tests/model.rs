use std::cmp::Ordering;
use tmpas::entry::ListEntry;
use tmpas::forest::{entry_tree_get, entry_tree_with_paths};
use tmpas::path::EntryPath;

fn test_ent(name: &str, children: Vec<ListEntry>) -> ListEntry {
    ListEntry {
        display_name: Some(name.to_owned()),
        children,
        ..Default::default()
    }
}

fn p(offsets: &[usize]) -> EntryPath {
    EntryPath::from_offsets(&offsets.to_vec())
}

fn sample_forest() -> Vec<ListEntry> {
    let root0: ListEntry = test_ent(
        "0",
        vec![
            test_ent("00", vec![]),
            test_ent(
                "01",
                vec![
                    test_ent("010", vec![]),
                    test_ent("011", vec![]),
                    test_ent("012", vec![]),
                ],
            ),
            test_ent("02", vec![test_ent("021", vec![test_ent("0211", vec![])])]),
        ],
    );
    let root1: ListEntry = test_ent(
        "1",
        vec![
            test_ent("10", vec![]),
            test_ent(
                "11",
                vec![
                    test_ent("110", vec![]),
                    test_ent("111", vec![]),
                    test_ent("112", vec![]),
                ],
            ),
            test_ent("12", vec![test_ent("121", vec![test_ent("1211", vec![])])]),
        ],
    );
    vec![root0, root1]
}

fn named(walk: Vec<(EntryPath, &ListEntry)>) -> Vec<(EntryPath, String)> {
    walk.into_iter()
        .map(|(lvl, ent)| (lvl, ent.display_name.clone().unwrap()))
        .collect()
}

#[test]
fn test_tree_iter() {
    let base = sample_forest();

    let with_paths_0 = named(entry_tree_with_paths(&base, 0));
    assert_eq!(
        vec![(p(&[0]), "0".to_owned()), (p(&[1]), "1".to_owned())],
        with_paths_0
    );

    let with_paths_1 = named(entry_tree_with_paths(&base, 1));
    assert_eq!(
        vec![
            (p(&[0]), "0".to_owned()),
            (p(&[0, 0]), "00".to_owned()),
            (p(&[0, 1]), "01".to_owned()),
            (p(&[0, 2]), "02".to_owned()),
            (p(&[1]), "1".to_owned()),
            (p(&[1, 0]), "10".to_owned()),
            (p(&[1, 1]), "11".to_owned()),
            (p(&[1, 2]), "12".to_owned()),
        ],
        with_paths_1
    );

    let with_paths_full = named(entry_tree_with_paths(&base, 1024));
    assert_eq!(
        vec![
            (p(&[0]), "0".to_owned()),
            (p(&[0, 0]), "00".to_owned()),
            (p(&[0, 1]), "01".to_owned()),
            (p(&[0, 1, 0]), "010".to_owned()),
            (p(&[0, 1, 1]), "011".to_owned()),
            (p(&[0, 1, 2]), "012".to_owned()),
            (p(&[0, 2]), "02".to_owned()),
            (p(&[0, 2, 0]), "021".to_owned()),
            (p(&[0, 2, 0, 0]), "0211".to_owned()),
            (p(&[1]), "1".to_owned()),
            (p(&[1, 0]), "10".to_owned()),
            (p(&[1, 1]), "11".to_owned()),
            (p(&[1, 1, 0]), "110".to_owned()),
            (p(&[1, 1, 1]), "111".to_owned()),
            (p(&[1, 1, 2]), "112".to_owned()),
            (p(&[1, 2]), "12".to_owned()),
            (p(&[1, 2, 0]), "121".to_owned()),
            (p(&[1, 2, 0, 0]), "1211".to_owned()),
        ],
        with_paths_full
    );
}

#[test]
fn test_pathing() {
    let base = EntryPath::new().child(10).child(21).child(2).child(43);
    assert_eq!(4, base.level());
    assert_eq!(vec![10, 21, 2, 43], base.iter());

    assert_eq!(vec![21, 2, 43], base.tail_from(1).iter());

    assert_eq!(vec![5, 6, 7, 8], EntryPath::from_offsets(&vec![5, 6, 7, 8]).iter());
}

#[test]
fn child_then_parent_gives_path_back() {
    let base = p(&[3, 1]);
    assert_eq!(base, base.child(7).parent());
    assert_eq!(EntryPath::new(), EntryPath::new().parent());
}

#[test]
fn sibling_steps() {
    assert_eq!(Some(p(&[2]).clone()), p(&[1]).next_sibling());
    assert_eq!(Some(p(&[1])), EntryPath::new().child(2).prev_sibling());
    assert_eq!(None, EntryPath::new().child(0).prev_sibling());
    assert_eq!(None, EntryPath::new().prev_sibling());
    assert_eq!(None, EntryPath::new().next_sibling());
    let q = p(&[4, 5]);
    assert_eq!(Some(q), q.next_sibling().and_then(|s| s.prev_sibling()));
}

#[test]
fn equality_ignores_unused_slots() {
    let a = p(&[1, 2, 3]).parent();
    let b = p(&[1, 2]);
    assert_eq!(a, b);
    assert_ne!(p(&[1, 2]), p(&[1, 3]));
    assert_ne!(p(&[1]), p(&[1, 0]));
}

#[test]
fn depth_first_order() {
    assert_eq!(Ordering::Less, p(&[0]).cmp_depth_first(&p(&[0, 5])));
    assert_eq!(Ordering::Greater, p(&[0, 5]).cmp_depth_first(&p(&[0])));
    assert_eq!(Ordering::Less, p(&[0, 9, 9]).cmp_depth_first(&p(&[1])));
    assert_eq!(Ordering::Greater, p(&[2, 0]).cmp_depth_first(&p(&[1, 7])));
    assert_eq!(Ordering::Equal, p(&[2, 0]).cmp_depth_first(&p(&[2, 0])));
    assert_eq!(Ordering::Equal, EntryPath::new().cmp_depth_first(&EntryPath::new()));
}

#[test]
fn tail_from_beyond_level_is_empty() {
    assert_eq!(EntryPath::new(), p(&[1, 2]).tail_from(5));
    assert_eq!(p(&[1, 2]), p(&[1, 2]).tail_from(0));
    assert_eq!(p(&[4, 5]), p(&[1, 2]).concat(&p(&[4, 5])).tail_from(2));
}

#[test]
fn lookup_by_path() {
    let base = sample_forest();
    let name = |path: &[usize]| {
        entry_tree_get(&base, p(path)).map(|e| e.display_name.clone().unwrap())
    };
    assert_eq!(Some("0211".to_owned()), name(&[0, 2, 0, 0]));
    assert_eq!(Some("1".to_owned()), name(&[1]));
    assert_eq!(Some("112".to_owned()), name(&[1, 1, 2]));
    assert_eq!(None, name(&[2]));
    assert_eq!(None, name(&[0, 3]));
    assert_eq!(None, name(&[0, 0, 0]));
    assert_eq!(None, name(&[]));
}

#[test]
fn walk_counts_every_node_once() {
    let base = sample_forest();
    let walk = entry_tree_with_paths(&base, usize::MAX);
    assert_eq!(18, walk.len());
    for (i, (pi, _)) in walk.iter().enumerate() {
        for (pj, _) in walk.iter().skip(i + 1) {
            assert_eq!(Ordering::Less, pi.cmp_depth_first(pj));
        }
    }
}
