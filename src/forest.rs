//! Lookup and depth-first walks over a forest of entries.
use vstd::prelude::*;

use crate::entry::ListEntry;
use crate::path::{
    depth_first_cmp, lemma_cmp_branches, lemma_cmp_extension, EntryPath, MAX_DEPTH,
};

verus! {

/// The node that `path` addresses in `forest`, if every offset is in range.
pub open spec fn tree_get(forest: Seq<ListEntry>, path: Seq<usize>) -> Option<ListEntry>
    decreases path.len(),
{
    if path.len() == 0 || path[0] >= forest.len() {
        None
    } else if path.len() == 1 {
        Some(forest[path[0] as int])
    } else {
        tree_get(forest[path[0] as int].children@, path.drop_first())
    }
}

/// The pre-order walk of `e`, which stands at `path`, and of its descendants:
/// the children of a node are visited only while its level is at most `max`.
pub open spec fn walk_node(e: ListEntry, path: Seq<usize>, max: nat) -> Seq<(Seq<usize>, ListEntry)>
    decreases e, e.children.len() + 1,
{
    seq![(path, e)] + if path.len() <= max {
        walk_children(e, path, max, e.children.len() as nat)
    } else {
        Seq::empty()
    }
}

/// The walks of the first `k` children of `e`, in order.
pub open spec fn walk_children(e: ListEntry, path: Seq<usize>, max: nat, k: nat) -> Seq<
    (Seq<usize>, ListEntry),
>
    decreases e, k,
{
    if k == 0 || k > e.children.len() {
        Seq::empty()
    } else {
        walk_children(e, path, max, (k - 1) as nat) + walk_node(
            e.children@[k - 1],
            path.push((k - 1) as usize),
            max,
        )
    }
}

/// The walks of the first `k` roots of `forest`, in order.
pub open spec fn walk_roots(forest: Seq<ListEntry>, max: nat, k: nat) -> Seq<
    (Seq<usize>, ListEntry),
>
    decreases k,
{
    if k == 0 || k > forest.len() {
        Seq::empty()
    } else {
        walk_roots(forest, max, (k - 1) as nat) + walk_node(
            forest[k - 1],
            seq![(k - 1) as usize],
            max,
        )
    }
}

/// Every node of `forest` down to children of level-`max` nodes, with its
/// path, in depth-first pre-order.
pub open spec fn walk(forest: Seq<ListEntry>, max: nat) -> Seq<(Seq<usize>, ListEntry)> {
    walk_roots(forest, max, forest.len())
}

/// The walk of `e` at level `level` never needs a path longer than
/// `MAX_DEPTH`.
pub open spec fn fits(e: ListEntry, level: nat, max: nat) -> bool
    decreases e,
{
    &&& level <= MAX_DEPTH
    &&& level <= max ==> forall|i: int|
        0 <= i < e.children.len() ==> fits(#[trigger] e.children@[i], level + 1, max)
}

/// Every root of `forest` fits.
pub open spec fn forest_fits(forest: Seq<ListEntry>, max: nat) -> bool {
    forall|i: int| 0 <= i < forest.len() ==> fits(#[trigger] forest[i], 1, max)
}

/// The paths and nodes of a walk, as values.
pub open spec fn walk_view<'a>(v: Seq<(EntryPath, &'a ListEntry)>) -> Seq<(Seq<usize>, ListEntry)> {
    v.map_values(|p: (EntryPath, &'a ListEntry)| (p.0@, *p.1))
}

fn walk_into<'a>(
    e: &'a ListEntry,
    path: EntryPath,
    max: usize,
    out: &mut Vec<(EntryPath, &'a ListEntry)>,
)
    requires
        fits(*e, path@.len(), max as nat),
    ensures
        walk_view(final(out)@) == walk_view(old(out)@) + walk_node(*e, path@, max as nat),
    decreases e, e.children.len() + 1,
{
    let ghost start = walk_view(out@);
    out.push((path, e));
    assert(walk_view(out@) =~= start + seq![(path@, *e)]);
    if path.level() <= max {
        let mut i: usize = 0;
        while i < e.children.len()
            invariant
                i <= e.children.len(),
                path@.len() <= max,
                fits(*e, path@.len(), max as nat),
                walk_view(out@) == start + seq![(path@, *e)] + walk_children(
                    *e,
                    path@,
                    max as nat,
                    i as nat,
                ),
            decreases e.children.len() - i,
        {
            assert(fits(e.children@[i as int], path@.len() + 1, max as nat));
            let child_path = path.child(i);
            let ghost before = walk_view(out@);
            walk_into(&e.children[i], child_path, max, out);
            i += 1;
            assert(walk_children(*e, path@, max as nat, i as nat) == walk_children(
                *e,
                path@,
                max as nat,
                (i - 1) as nat,
            ) + walk_node(e.children@[i - 1], path@.push((i - 1) as usize), max as nat));
            assert(walk_view(out@) =~= start + seq![(path@, *e)] + walk_children(
                *e,
                path@,
                max as nat,
                i as nat,
            ));
        }
    }
    assert(walk_view(out@) =~= start + walk_node(*e, path@, max as nat));
}

/// Every node of `base_level` down to children of level-`max_level` nodes,
/// with its path, in depth-first pre-order with siblings in order.
pub fn entry_tree_with_paths<'a>(base_level: &'a [ListEntry], max_level: usize) -> (r: Vec<
    (EntryPath, &'a ListEntry),
>)
    requires
        forest_fits(base_level@, max_level as nat),
    ensures
        walk_view(r@) == walk(base_level@, max_level as nat),
{
    let mut out: Vec<(EntryPath, &'a ListEntry)> = Vec::new();
    let mut i: usize = 0;
    assert(walk_view(out@) =~= Seq::<(Seq<usize>, ListEntry)>::empty());
    while i < base_level.len()
        invariant
            i <= base_level@.len(),
            forest_fits(base_level@, max_level as nat),
            walk_view(out@) == walk_roots(base_level@, max_level as nat, i as nat),
        decreases base_level@.len() - i,
    {
        assert(fits(base_level@[i as int], 1, max_level as nat));
        let p = EntryPath::new().child(i);
        walk_into(&base_level[i], p, max_level, &mut out);
        i += 1;
    }
    out
}

/// The node that `rest` addresses below `e`, `e` itself for the empty path.
pub open spec fn get_below(e: ListEntry, rest: Seq<usize>) -> Option<ListEntry>
    decreases rest.len(),
{
    if rest.len() == 0 {
        Some(e)
    } else if rest[0] >= e.children.len() {
        None
    } else {
        get_below(e.children@[rest[0] as int], rest.drop_first())
    }
}

proof fn lemma_tree_get_below(forest: Seq<ListEntry>, path: Seq<usize>)
    requires
        path.len() > 0,
        path[0] < forest.len(),
    ensures
        tree_get(forest, path) == get_below(forest[path[0] as int], path.drop_first()),
    decreases path.len(),
{
    if path.len() > 1 {
        let e = forest[path[0] as int];
        let rest = path.drop_first();
        if rest[0] < e.children.len() {
            lemma_tree_get_below(e.children@, rest);
        }
    }
}

/// The node at `path`, if every offset along it is in range.
pub fn entry_tree_get<'a>(base_level: &'a [ListEntry], path: EntryPath) -> (r: Option<&'a ListEntry>)
    ensures
        match r {
            Some(e) => tree_get(base_level@, path@) == Some(*e),
            None => tree_get(base_level@, path@).is_none(),
        },
{
    let offsets = path.iter();
    if offsets.len() == 0 || offsets[0] >= base_level.len() {
        return None;
    }
    proof {
        lemma_tree_get_below(base_level@, path@);
        assert(path@.drop_first() =~= path@.subrange(1, path@.len() as int));
    }
    let mut cur: &'a ListEntry = &base_level[offsets[0]];
    let mut i: usize = 1;
    while i < offsets.len()
        invariant
            1 <= i <= offsets@.len(),
            offsets@ == path@,
            tree_get(base_level@, path@) == get_below(*cur, path@.subrange(i as int, path@.len() as int)),
        decreases offsets@.len() - i,
    {
        let ghost rest = path@.subrange(i as int, path@.len() as int);
        let idx = offsets[i];
        if idx >= cur.children.len() {
            return None;
        }
        cur = &cur.children[idx];
        i += 1;
        assert(rest.drop_first() =~= path@.subrange(i as int, path@.len() as int));
    }
    Some(cur)
}

/// A walk that descends below no level yields exactly the roots, in order,
/// each at the one-offset path of its position.
pub proof fn law_walk_roots_only(forest: Seq<ListEntry>)
    ensures
        walk(forest, 0).len() == forest.len(),
        forall|i: int|
            0 <= i < forest.len() ==> #[trigger] walk(forest, 0)[i] == (seq![i as usize], forest[i]),
{
    lemma_walk_roots_only(forest, forest.len());
}

proof fn lemma_walk_roots_only(forest: Seq<ListEntry>, k: nat)
    requires
        k <= forest.len(),
    ensures
        walk_roots(forest, 0, k).len() == k,
        forall|i: int|
            0 <= i < k ==> #[trigger] walk_roots(forest, 0, k)[i] == (seq![i as usize], forest[i]),
    decreases k,
{
    if k > 0 {
        lemma_walk_roots_only(forest, (k - 1) as nat);
        let e = forest[k - 1];
        let p = seq![(k - 1) as usize];
        assert(walk_node(e, p, 0) =~= seq![(p, e)]);
    }
}

/// The nodes that `e`, at level `level`, and its descendants down to
/// children of level-`max` nodes number.
pub open spec fn node_count(e: ListEntry, level: nat, max: nat) -> nat
    decreases e, e.children.len() + 1,
{
    1 + if level <= max {
        children_count(e, level, max, e.children.len() as nat)
    } else {
        0
    }
}

/// The counts of the first `k` children of `e`, which stands at `level`.
pub open spec fn children_count(e: ListEntry, level: nat, max: nat, k: nat) -> nat
    decreases e, k,
{
    if k == 0 || k > e.children.len() {
        0
    } else {
        children_count(e, level, max, (k - 1) as nat) + node_count(e.children@[k - 1], level + 1, max)
    }
}

/// The counts of the first `k` roots of `forest`.
pub open spec fn forest_count(forest: Seq<ListEntry>, max: nat, k: nat) -> nat
    decreases k,
{
    if k == 0 || k > forest.len() {
        0
    } else {
        forest_count(forest, max, (k - 1) as nat) + node_count(forest[k - 1], 1, max)
    }
}

/// Each pair of the walk below `e` at `p` holds a path that extends `p` and
/// the node that the extension addresses below `e`.
pub open spec fn walk_sound(e: ListEntry, p: Seq<usize>, w: Seq<(Seq<usize>, ListEntry)>) -> bool {
    forall|i: int|
        0 <= i < w.len() ==> {
            let (q, x) = #[trigger] w[i];
            &&& q.len() >= p.len()
            &&& q.subrange(0, p.len() as int) == p
            &&& get_below(e, q.subrange(p.len() as int, q.len() as int)) == Some(x)
        }
}

proof fn lemma_walk_node(e: ListEntry, p: Seq<usize>, max: nat)
    ensures
        walk_node(e, p, max).len() == node_count(e, p.len(), max),
        walk_sound(e, p, walk_node(e, p, max)),
    decreases e, e.children.len() + 1,
{
    let w = walk_node(e, p, max);
    if p.len() <= max {
        lemma_walk_children(e, p, max, e.children.len() as nat);
    }
    assert forall|i: int| 0 <= i < w.len() implies {
        let (q, x) = #[trigger] w[i];
        &&& q.len() >= p.len()
        &&& q.subrange(0, p.len() as int) == p
        &&& get_below(e, q.subrange(p.len() as int, q.len() as int)) == Some(x)
    } by {
        if i == 0 {
            assert(w[0] == (p, e));
            assert(p.subrange(0, p.len() as int) =~= p);
            assert(p.subrange(p.len() as int, p.len() as int) =~= Seq::<usize>::empty());
        } else {
            assert(w[i] == walk_children(e, p, max, e.children.len() as nat)[i - 1]);
        }
    }
}

proof fn lemma_walk_children(e: ListEntry, p: Seq<usize>, max: nat, k: nat)
    requires
        k <= e.children.len(),
    ensures
        walk_children(e, p, max, k).len() == children_count(e, p.len(), max, k),
        walk_sound(e, p, walk_children(e, p, max, k)),
    decreases e, k,
{
    if k > 0 {
        let prev = walk_children(e, p, max, (k - 1) as nat);
        let child = e.children@[k - 1];
        let cp = p.push((k - 1) as usize);
        lemma_walk_children(e, p, max, (k - 1) as nat);
        lemma_walk_node(child, cp, max);
        let w = walk_children(e, p, max, k);
        let cw = walk_node(child, cp, max);
        assert forall|i: int| 0 <= i < w.len() implies {
            let (q, x) = #[trigger] w[i];
            &&& q.len() >= p.len()
            &&& q.subrange(0, p.len() as int) == p
            &&& get_below(e, q.subrange(p.len() as int, q.len() as int)) == Some(x)
        } by {
            if i < prev.len() {
                assert(w[i] == prev[i]);
            } else {
                let j = i - prev.len();
                assert(w[i] == cw[j]);
                let (q, x) = cw[j];
                assert(q.subrange(0, cp.len() as int) == cp);
                assert(q.subrange(0, p.len() as int) =~= p) by {
                    assert(q.subrange(0, p.len() as int) =~= cp.subrange(0, p.len() as int));
                }
                let rest = q.subrange(p.len() as int, q.len() as int);
                assert(rest[0] == q[p.len() as int]);
                assert(q[p.len() as int] == cp[p.len() as int]);
                assert(rest.drop_first() =~= q.subrange(cp.len() as int, q.len() as int));
            }
        }
    }
}

/// A walk yields, with each path, the node that the path addresses, and
/// exactly as many pairs as the forest has nodes down to the walk's depth:
/// with no depth limit, one pair per node.
pub proof fn law_walk_addresses_nodes(forest: Seq<ListEntry>, max: nat)
    requires
        forest.len() <= usize::MAX,
    ensures
        walk(forest, max).len() == forest_count(forest, max, forest.len()),
        forall|i: int|
            0 <= i < walk(forest, max).len() ==> tree_get(forest, (#[trigger] walk(forest, max)[i]).0)
                == Some(walk(forest, max)[i].1),
{
    lemma_walk_roots(forest, max, forest.len());
}

proof fn lemma_walk_roots(forest: Seq<ListEntry>, max: nat, k: nat)
    requires
        k <= forest.len(),
        forest.len() <= usize::MAX,
    ensures
        walk_roots(forest, max, k).len() == forest_count(forest, max, k),
        forall|i: int|
            0 <= i < walk_roots(forest, max, k).len() ==> tree_get(
                forest,
                (#[trigger] walk_roots(forest, max, k)[i]).0,
            ) == Some(walk_roots(forest, max, k)[i].1),
    decreases k,
{
    if k > 0 {
        let prev = walk_roots(forest, max, (k - 1) as nat);
        let rp = seq![(k - 1) as usize];
        let e = forest[k - 1];
        lemma_walk_roots(forest, max, (k - 1) as nat);
        lemma_walk_node(e, rp, max);
        let w = walk_roots(forest, max, k);
        let nw = walk_node(e, rp, max);
        assert forall|i: int| 0 <= i < w.len() implies tree_get(forest, (#[trigger] w[i]).0) == Some(
            w[i].1,
        ) by {
            if i < prev.len() {
                assert(w[i] == prev[i]);
            } else {
                let j = i - prev.len();
                assert(w[i] == nw[j]);
                let (q, x) = nw[j];
                assert(q.subrange(0, 1) == rp);
                assert(q.subrange(0, 1)[0] == q[0]);
                assert(rp[0] == k - 1);
                lemma_tree_get_below(forest, q);
                assert(q.drop_first() =~= q.subrange(1, q.len() as int));
            }
        }
    }
}

/// The paths of `w` strictly increase in depth-first order, so none repeats.
pub open spec fn strictly_ascending(w: Seq<(Seq<usize>, ListEntry)>) -> bool {
    forall|i: int, j: int|
        0 <= i < j < w.len() ==> depth_first_cmp(#[trigger] w[i].0, #[trigger] w[j].0)
            == core::cmp::Ordering::Less
}

/// Every path of `w` extends `p`, properly after the first `skip` pairs.
pub open spec fn extends_all(w: Seq<(Seq<usize>, ListEntry)>, p: Seq<usize>, skip: int) -> bool {
    forall|i: int|
        0 <= i < w.len() ==> {
            &&& (#[trigger] w[i]).0.len() >= p.len()
            &&& w[i].0.subrange(0, p.len() as int) == p
            &&& i >= skip ==> w[i].0.len() > p.len()
        }
}

proof fn lemma_split_path(q: Seq<usize>, p: Seq<usize>)
    requires
        q.len() >= p.len(),
        q.subrange(0, p.len() as int) == p,
    ensures
        q == p + q.subrange(p.len() as int, q.len() as int),
{
    assert(q =~= p + q.subrange(p.len() as int, q.len() as int));
}

proof fn lemma_walk_node_order(e: ListEntry, p: Seq<usize>, max: nat)
    ensures
        strictly_ascending(walk_node(e, p, max)),
        extends_all(walk_node(e, p, max), p, 1),
        walk_node(e, p, max)[0].0 == p,
    decreases e, e.children.len() + 1,
{
    let w = walk_node(e, p, max);
    let cs = if p.len() <= max {
        walk_children(e, p, max, e.children.len() as nat)
    } else {
        Seq::empty()
    };
    assert(w == seq![(p, e)] + cs);
    if p.len() <= max {
        lemma_walk_children_order(e, p, max, e.children.len() as nat);
    }
    assert(extends_all(w, p, 1)) by {
        assert forall|i: int| 0 <= i < w.len() implies {
            &&& (#[trigger] w[i]).0.len() >= p.len()
            &&& w[i].0.subrange(0, p.len() as int) == p
            &&& i >= 1 ==> w[i].0.len() > p.len()
        } by {
            if i == 0 {
                assert(p.subrange(0, p.len() as int) =~= p);
            } else {
                assert(w[i] == cs[i - 1]);
            }
        }
    }
    assert forall|i: int, j: int| 0 <= i < j < w.len() implies depth_first_cmp(
        #[trigger] w[i].0,
        #[trigger] w[j].0,
    ) == core::cmp::Ordering::Less by {
        assert(w[j] == cs[j - 1]);
        if i == 0 {
            let q = w[j].0;
            lemma_split_path(q, p);
            lemma_cmp_extension(p, q.subrange(p.len() as int, q.len() as int));
        } else {
            assert(w[i] == cs[i - 1]);
        }
    }
}

proof fn lemma_walk_children_order(e: ListEntry, p: Seq<usize>, max: nat, k: nat)
    requires
        k <= e.children.len(),
    ensures
        strictly_ascending(walk_children(e, p, max, k)),
        extends_all(walk_children(e, p, max, k), p, 0),
        forall|i: int|
            0 <= i < walk_children(e, p, max, k).len() ==> (#[trigger] walk_children(
                e,
                p,
                max,
                k,
            )[i]).0[p.len() as int] < k,
    decreases e, k,
{
    if k > 0 {
        let prev = walk_children(e, p, max, (k - 1) as nat);
        let child = e.children@[k - 1];
        let cp = p.push((k - 1) as usize);
        lemma_walk_children_order(e, p, max, (k - 1) as nat);
        lemma_walk_node_order(child, cp, max);
        let w = walk_children(e, p, max, k);
        let cw = walk_node(child, cp, max);
        assert(w == prev + cw);
        assert forall|i: int| 0 <= i < cw.len() implies {
            &&& (#[trigger] cw[i]).0.len() > p.len()
            &&& cw[i].0.subrange(0, p.len() as int) == p
            &&& cw[i].0[p.len() as int] == k - 1
        } by {
            let q = cw[i].0;
            assert(q.subrange(0, cp.len() as int) == cp);
            assert(q.subrange(0, p.len() as int) =~= cp.subrange(0, p.len() as int));
            assert(cp.subrange(0, p.len() as int) =~= p);
            assert(q.subrange(0, cp.len() as int)[p.len() as int] == q[p.len() as int]);
        }
        assert(extends_all(w, p, 0)) by {
            assert forall|i: int| 0 <= i < w.len() implies {
                &&& (#[trigger] w[i]).0.len() >= p.len()
                &&& w[i].0.subrange(0, p.len() as int) == p
                &&& i >= 0 ==> w[i].0.len() > p.len()
            } by {
                if i < prev.len() {
                    assert(w[i] == prev[i]);
                } else {
                    assert(w[i] == cw[i - prev.len()]);
                }
            }
        }
        assert forall|i: int| 0 <= i < w.len() implies (#[trigger] w[i]).0[p.len() as int] < k by {
            if i < prev.len() {
                assert(w[i] == prev[i]);
            } else {
                assert(w[i] == cw[i - prev.len()]);
            }
        }
        assert forall|i: int, j: int| 0 <= i < j < w.len() implies depth_first_cmp(
            #[trigger] w[i].0,
            #[trigger] w[j].0,
        ) == core::cmp::Ordering::Less by {
            if j < prev.len() {
                assert(w[i] == prev[i] && w[j] == prev[j]);
            } else if i >= prev.len() {
                assert(w[i] == cw[i - prev.len()] && w[j] == cw[j - prev.len()]);
            } else {
                assert(w[i] == prev[i] && w[j] == cw[j - prev.len()]);
                let a = w[i].0;
                let b = w[j].0;
                let ia = a[p.len() as int];
                assert(a =~= p.push(ia) + a.subrange(p.len() as int + 1, a.len() as int)) by {
                    assert(a.subrange(0, p.len() as int) == p);
                }
                assert(b =~= p.push((k - 1) as usize) + b.subrange(p.len() as int + 1, b.len() as int)) by {
                    assert(b.subrange(0, p.len() as int) == p);
                }
                lemma_cmp_branches(
                    p,
                    ia,
                    (k - 1) as usize,
                    a.subrange(p.len() as int + 1, a.len() as int),
                    b.subrange(p.len() as int + 1, b.len() as int),
                );
            }
        }
    }
}

/// The paths of a walk strictly increase in depth-first order: the walk is
/// in pre-order, and no node is yielded twice.
pub proof fn law_walk_in_depth_first_order(forest: Seq<ListEntry>, max: nat)
    requires
        forest.len() <= usize::MAX,
    ensures
        strictly_ascending(walk(forest, max)),
{
    lemma_walk_roots_order(forest, max, forest.len());
}

proof fn lemma_walk_roots_order(forest: Seq<ListEntry>, max: nat, k: nat)
    requires
        k <= forest.len(),
        forest.len() <= usize::MAX,
    ensures
        strictly_ascending(walk_roots(forest, max, k)),
        forall|i: int|
            0 <= i < walk_roots(forest, max, k).len() ==> (#[trigger] walk_roots(forest, max, k)[i]).0.len() > 0
                && walk_roots(forest, max, k)[i].0[0] < k,
    decreases k,
{
    if k > 0 {
        let prev = walk_roots(forest, max, (k - 1) as nat);
        let rp = seq![(k - 1) as usize];
        lemma_walk_roots_order(forest, max, (k - 1) as nat);
        lemma_walk_node_order(forest[k - 1], rp, max);
        let w = walk_roots(forest, max, k);
        let nw = walk_node(forest[k - 1], rp, max);
        assert(w == prev + nw);
        assert forall|i: int| 0 <= i < nw.len() implies (#[trigger] nw[i]).0.len() > 0 && nw[i].0[0]
            == k - 1 by {
            assert(nw[i].0.subrange(0, 1) == rp);
            assert(nw[i].0.subrange(0, 1)[0] == nw[i].0[0]);
        }
        assert forall|i: int| 0 <= i < w.len() implies (#[trigger] w[i]).0.len() > 0 && w[i].0[0] < k by {
            if i < prev.len() {
                assert(w[i] == prev[i]);
            } else {
                assert(w[i] == nw[i - prev.len()]);
            }
        }
        assert forall|i: int, j: int| 0 <= i < j < w.len() implies depth_first_cmp(
            #[trigger] w[i].0,
            #[trigger] w[j].0,
        ) == core::cmp::Ordering::Less by {
            if j < prev.len() {
                assert(w[i] == prev[i] && w[j] == prev[j]);
            } else if i >= prev.len() {
                assert(w[i] == nw[i - prev.len()] && w[j] == nw[j - prev.len()]);
            } else {
                assert(w[i] == prev[i] && w[j] == nw[j - prev.len()]);
                let a = w[i].0;
                let b = w[j].0;
                let e = Seq::<usize>::empty();
                assert(a =~= e.push(a[0]) + a.drop_first());
                assert(b =~= e.push((k - 1) as usize) + b.drop_first());
                lemma_cmp_branches(e, a[0], (k - 1) as usize, a.drop_first(), b.drop_first());
            }
        }
    }
}

/// Adding a root moves no node that a path already addresses.
pub proof fn lemma_tree_get_push(forest: Seq<ListEntry>, e: ListEntry, p: Seq<usize>)
    requires
        tree_get(forest, p).is_some(),
    ensures
        tree_get(forest.push(e), p) == tree_get(forest, p),
        p[0] < forest.len(),
{
    assert(forest.push(e)[p[0] as int] == forest[p[0] as int]);
}

/// The node that a path below a single root addresses is found below the
/// same root standing at position `n` of a forest.
pub proof fn lemma_tree_get_rebased(forest: Seq<ListEntry>, e: ListEntry, p: Seq<usize>)
    requires
        tree_get(seq![e], p).is_some(),
        forest.len() <= usize::MAX,
    ensures
        p.len() > 0,
        p[0] == 0,
        tree_get(forest.push(e), seq![forest.len() as usize] + p.subrange(1, p.len() as int))
            == tree_get(seq![e], p),
{
    let q = seq![forest.len() as usize] + p.subrange(1, p.len() as int);
    lemma_tree_get_below(seq![e], p);
    lemma_tree_get_below(forest.push(e), q);
    assert(q.drop_first() =~= p.drop_first());
}

proof fn lemma_walk_node_complete(e: ListEntry, p: Seq<usize>, max: nat, r: Seq<usize>, y: ListEntry)
    requires
        get_below(e, r) == Some(y),
        p.len() + r.len() <= max + 1,
    ensures
        exists|i: int| 0 <= i < walk_node(e, p, max).len() && #[trigger] walk_node(e, p, max)[i] == (p + r, y),
    decreases e, e.children.len() + 1,
{
    let w = walk_node(e, p, max);
    if r.len() == 0 {
        assert(p + r =~= p);
        assert(w[0] == (p + r, y));
    } else {
        let k = e.children.len() as nat;
        lemma_walk_children_complete(e, p, max, k, r, y);
        let cs = walk_children(e, p, max, k);
        let j = choose|j: int| 0 <= j < cs.len() && #[trigger] cs[j] == (p + r, y);
        assert(w[j + 1] == cs[j]);
    }
}

proof fn lemma_walk_children_complete(
    e: ListEntry,
    p: Seq<usize>,
    max: nat,
    k: nat,
    r: Seq<usize>,
    y: ListEntry,
)
    requires
        k <= e.children.len(),
        r.len() > 0,
        r[0] < k,
        get_below(e, r) == Some(y),
        p.len() + r.len() <= max + 1,
    ensures
        exists|i: int|
            0 <= i < walk_children(e, p, max, k).len() && #[trigger] walk_children(e, p, max, k)[i]
                == (p + r, y),
    decreases e, k,
{
    let prev = walk_children(e, p, max, (k - 1) as nat);
    let w = walk_children(e, p, max, k);
    if r[0] == k - 1 {
        let cp = p.push((k - 1) as usize);
        lemma_walk_node_complete(e.children@[k - 1], cp, max, r.drop_first(), y);
        let cw = walk_node(e.children@[k - 1], cp, max);
        let j = choose|j: int| 0 <= j < cw.len() && #[trigger] cw[j] == (cp + r.drop_first(), y);
        assert(cp + r.drop_first() =~= p + r);
        assert(w[prev.len() + j] == cw[j]);
    } else {
        lemma_walk_children_complete(e, p, max, (k - 1) as nat, r, y);
        let j = choose|j: int| 0 <= j < prev.len() && #[trigger] prev[j] == (p + r, y);
        assert(w[j] == prev[j]);
    }
}

/// A walk misses no node: every node whose path is at most one level
/// deeper than `max` is yielded with its path. With no depth limit, that is
/// every node of the forest.
pub proof fn law_walk_yields_every_node(forest: Seq<ListEntry>, max: nat, q: Seq<usize>, x: ListEntry)
    requires
        tree_get(forest, q) == Some(x),
        q.len() <= max + 1,
        forest.len() <= usize::MAX,
    ensures
        exists|i: int| 0 <= i < walk(forest, max).len() && #[trigger] walk(forest, max)[i] == (q, x),
{
    lemma_walk_roots_complete(forest, max, forest.len(), q, x);
    let w = walk_roots(forest, max, forest.len());
    let j = choose|j: int| 0 <= j < w.len() && #[trigger] w[j] == (q, x);
    assert(walk(forest, max)[j] == (q, x));
}

proof fn lemma_walk_roots_complete(forest: Seq<ListEntry>, max: nat, k: nat, q: Seq<usize>, x: ListEntry)
    requires
        tree_get(forest, q) == Some(x),
        q.len() <= max + 1,
        k <= forest.len(),
        forest.len() <= usize::MAX,
        q.len() > 0 ==> q[0] < k,
    ensures
        exists|i: int|
            0 <= i < walk_roots(forest, max, k).len() && #[trigger] walk_roots(forest, max, k)[i]
                == (q, x),
    decreases k,
{
    let prev = walk_roots(forest, max, (k - 1) as nat);
    let w = walk_roots(forest, max, k);
    if q[0] == k - 1 {
        let rp = seq![(k - 1) as usize];
        lemma_tree_get_below(forest, q);
        lemma_walk_node_complete(forest[k - 1], rp, max, q.drop_first(), x);
        let nw = walk_node(forest[k - 1], rp, max);
        let j = choose|j: int| 0 <= j < nw.len() && #[trigger] nw[j] == (rp + q.drop_first(), x);
        assert(rp + q.drop_first() =~= q);
        assert(w[prev.len() + j] == nw[j]);
    } else {
        lemma_walk_roots_complete(forest, max, (k - 1) as nat, q, x);
        let j = choose|j: int| 0 <= j < prev.len() && #[trigger] prev[j] == (q, x);
        assert(w[j] == prev[j]);
    }
}

} // verus!
