//! The catalog: the forest of entries, its duplicate index, deferred
//! deletions and search.
use vstd::multiset::Multiset;
use vstd::prelude::*;

use crate::config::Config;
use crate::dedup::{DedupMetadata, SetCmp};
use crate::entry::{name_of, same_entry, same_forest, strs, ListEntry};
use crate::forest::{
    children_count, entry_tree_with_paths, fits, forest_fits, node_count, walk, walk_view,
};
use crate::path::{EntryPath, MAX_DEPTH};
use crate::text::{contains_str, lower_of, occurs_in, to_lower};

verus! {

/// The views of a sequence of paths.
pub open spec fn path_views(v: Seq<EntryPath>) -> Seq<Seq<usize>> {
    v.map_values(|p: EntryPath| p@)
}

/// What ingesting fingerprint `meta` does to a bucket scanned from its
/// `idx`-th fingerprint down: the new bucket and the paths queued for
/// deletion. An equal or lesser fingerprint queues the new entry and stops;
/// a greater one queues the old entry, drops it from the bucket and goes on;
/// an unrelated one is passed over. A new fingerprint that was never found
/// redundant joins the bucket.
pub open spec fn dedup_scan(bucket: Seq<DedupMetadata>, meta: DedupMetadata, idx: nat) -> (
    Seq<DedupMetadata>,
    Seq<Seq<usize>>,
)
    decreases idx,
{
    if idx == 0 || idx > bucket.len() {
        (bucket.push(meta), Seq::empty())
    } else {
        let cur = bucket[idx - 1];
        match meta.compare_spec(&cur) {
            SetCmp::Equal | SetCmp::Subset => (bucket, seq![meta.path@]),
            SetCmp::Superset => {
                let rest = dedup_scan(bucket.remove(idx - 1), meta, (idx - 1) as nat);
                (rest.0, seq![cur.path@] + rest.1)
            },
            SetCmp::Disjoint => dedup_scan(bucket, meta, (idx - 1) as nat),
        }
    }
}

/// The index as values: each command with its bucket of fingerprints.
pub open spec fn index_view(v: Seq<(Vec<String>, Vec<DedupMetadata>)>) -> Seq<
    (Seq<Seq<char>>, Seq<DedupMetadata>),
> {
    v.map_values(|p: (Vec<String>, Vec<DedupMetadata>)| (strs(p.0@), p.1@))
}

/// The position of the bucket for command `key`, if there is one.
pub open spec fn bucket_of(ix: Seq<(Seq<Seq<char>>, Seq<DedupMetadata>)>, key: Seq<Seq<char>>) -> Option<int> {
    if exists|i: int| 0 <= i < ix.len() && (#[trigger] ix[i]).0 == key {
        Some(choose|i: int| 0 <= i < ix.len() && (#[trigger] ix[i]).0 == key)
    } else {
        None
    }
}

/// What the duplicate rule does with fingerprint `meta` of a node whose
/// command is `key`: the new index and the paths queued. A command seen for
/// the first time gets a bucket of its own.
pub open spec fn index_step(
    ix: Seq<(Seq<Seq<char>>, Seq<DedupMetadata>)>,
    key: Seq<Seq<char>>,
    meta: DedupMetadata,
) -> (Seq<(Seq<Seq<char>>, Seq<DedupMetadata>)>, Seq<Seq<usize>>) {
    match bucket_of(ix, key) {
        Some(b) => {
            let r = dedup_scan(ix[b].1, meta, ix[b].1.len());
            (ix.update(b, (key, r.0)), r.1)
        },
        None => {
            let r = dedup_scan(Seq::empty(), meta, 0);
            (ix.push((key, r.0)), r.1)
        },
    }
}

/// `meta` fingerprints `node`, which stands at `path`.
pub open spec fn fingerprint(meta: DedupMetadata, path: Seq<usize>, node: ListEntry) -> bool {
    &&& meta.path@ == path
    &&& crate::entry::opt_str(meta.display_name) == crate::entry::opt_str(node.display_name)
    &&& meta.children == node.children.len()
    &&& strs(meta.search_terms@) == strs(node.search_terms@)
}

/// Each of `metas` fingerprints the node of `items` at its position.
pub open spec fn fingerprints(metas: Seq<DedupMetadata>, items: Seq<(Seq<usize>, ListEntry)>) -> bool {
    &&& metas.len() == items.len()
    &&& forall|i: int| 0 <= i < items.len() ==> fingerprint(#[trigger] metas[i], items[i].0, items[i].1)
}

/// The walk of a new root entry with its paths moved to root position `n`.
pub open spec fn rebased(w: Seq<(Seq<usize>, ListEntry)>, n: nat) -> Seq<(Seq<usize>, ListEntry)> {
    w.map_values(
        |p: (Seq<usize>, ListEntry)|
            (
                seq![n as usize] + if p.0.len() >= 1 {
                    p.0.subrange(1, p.0.len() as int)
                } else {
                    Seq::empty()
                },
                p.1,
            ),
    )
}

/// The index and queue after the duplicate rule has run for the first `k`
/// nodes of `items`, fingerprinted by `metas`.
pub open spec fn ingest_fold(
    ix: Seq<(Seq<Seq<char>>, Seq<DedupMetadata>)>,
    queue: Seq<Seq<usize>>,
    items: Seq<(Seq<usize>, ListEntry)>,
    metas: Seq<DedupMetadata>,
    k: nat,
) -> (Seq<(Seq<Seq<char>>, Seq<DedupMetadata>)>, Seq<Seq<usize>>)
    decreases k,
{
    if k == 0 {
        (ix, queue)
    } else {
        let prev = ingest_fold(ix, queue, items, metas, (k - 1) as nat);
        let st = index_step(prev.0, strs(items[k - 1].1.exec_command@), metas[k - 1]);
        (st.0, prev.1 + st.1)
    }
}

proof fn lemma_fold_prefix(
    ix: Seq<(Seq<Seq<char>>, Seq<DedupMetadata>)>,
    queue: Seq<Seq<usize>>,
    items: Seq<(Seq<usize>, ListEntry)>,
    m1: Seq<DedupMetadata>,
    m2: Seq<DedupMetadata>,
    k: nat,
)
    requires
        k <= m1.len(),
        k <= m2.len(),
        forall|i: int| 0 <= i < k ==> m1[i] == m2[i],
    ensures
        ingest_fold(ix, queue, items, m1, k) == ingest_fold(ix, queue, items, m2, k),
    decreases k,
{
    if k > 0 {
        lemma_fold_prefix(ix, queue, items, m1, m2, (k - 1) as nat);
    }
}

proof fn lemma_bucket_of_unique(v: Seq<(Vec<String>, Vec<DedupMetadata>)>, b: int, key: Seq<Seq<char>>)
    requires
        0 <= b < v.len(),
        strs(v[b].0@) == key,
        forall|i: int, j: int|
            0 <= i < j < v.len() ==> strs((#[trigger] v[i]).0@) != strs((#[trigger] v[j]).0@),
    ensures
        bucket_of(index_view(v), key) == Some(b),
{
    let ix = index_view(v);
    assert(ix[b].0 == key);
    let c = choose|i: int| 0 <= i < ix.len() && (#[trigger] ix[i]).0 == key;
    if c != b {
        if c < b {
            assert(strs(v[c].0@) != strs(v[b].0@));
        } else {
            assert(strs(v[b].0@) != strs(v[c].0@));
        }
    }
}

proof fn lemma_bucket_of_absent(v: Seq<(Vec<String>, Vec<DedupMetadata>)>, key: Seq<Seq<char>>)
    requires
        forall|i: int| 0 <= i < v.len() ==> strs((#[trigger] v[i]).0@) != key,
    ensures
        bucket_of(index_view(v), key).is_none(),
{
    let ix = index_view(v);
    assert forall|i: int| 0 <= i < ix.len() implies (#[trigger] ix[i]).0 != key by {
        assert(ix[i].0 == strs(v[i].0@));
    }
}

/// Every fingerprint of a bucket has a non-empty path.
pub open spec fn bucket_ok(bucket: Seq<DedupMetadata>) -> bool {
    forall|i: int| 0 <= i < bucket.len() ==> (#[trigger] bucket[i]).path@.len() > 0
}

/// Runs the duplicate rule for `meta` against `bucket`, queueing the paths of
/// redundant entries.
pub fn dedup_insert(
    bucket: &mut Vec<DedupMetadata>,
    meta: DedupMetadata,
    queue: &mut Vec<EntryPath>,
)
    requires
        meta.path@.len() > 0,
        bucket_ok(old(bucket)@),
    ensures
        final(bucket)@ == dedup_scan(old(bucket)@, meta, old(bucket)@.len()).0,
        path_views(final(queue)@) == path_views(old(queue)@) + dedup_scan(
            old(bucket)@,
            meta,
            old(bucket)@.len(),
        ).1,
        bucket_ok(final(bucket)@),
{
    let ghost b0 = bucket@;
    let ghost q0 = path_views(queue@);
    let mut idx = bucket.len();
    while idx > 0
        invariant
            idx <= bucket@.len(),
            meta.path@.len() > 0,
            b0 == old(bucket)@,
            q0 == path_views(old(queue)@),
            bucket_ok(bucket@),
            dedup_scan(b0, meta, b0.len()).0 == dedup_scan(bucket@, meta, idx as nat).0,
            q0 + dedup_scan(b0, meta, b0.len()).1 == path_views(queue@) + dedup_scan(
                bucket@,
                meta,
                idx as nat,
            ).1,
        decreases idx,
    {
        let ghost bq = path_views(queue@);
        let v = meta.compare(&bucket[idx - 1]);
        match v {
            SetCmp::Equal | SetCmp::Subset => {
                let ghost sc = dedup_scan(bucket@, meta, idx as nat);
                queue.push(meta.path);
                assert(path_views(queue@) =~= bq + seq![meta.path@]);
                assert(meta.compare_spec(&bucket@[idx - 1]) == v);
                assert(sc == (bucket@, seq![meta.path@]));
                assert(bq + sc.1 =~= path_views(queue@));
                return;
            },
            SetCmp::Superset => {
                let ghost b_before = bucket@;
                let old_meta = bucket.remove(idx - 1);
                queue.push(old_meta.path);
                assert(path_views(queue@) =~= bq + seq![old_meta.path@]);
                let ghost rest = dedup_scan(bucket@, meta, (idx - 1) as nat);
                assert(dedup_scan(b_before, meta, idx as nat).1 == seq![old_meta.path@] + rest.1);
                assert(bq + (seq![old_meta.path@] + rest.1) =~= path_views(queue@) + rest.1);
                assert(bucket_ok(bucket@)) by {
                    assert forall|i: int| 0 <= i < bucket@.len() implies (
                    #[trigger] bucket@[i]).path@.len() > 0 by {
                        if i < idx - 1 {
                            assert(bucket@[i] == b_before[i]);
                        } else {
                            assert(bucket@[i] == b_before[i + 1]);
                        }
                    }
                }
            },
            SetCmp::Disjoint => {},
        }
        idx -= 1;
    }
    let ghost bq = path_views(queue@);
    let ghost b1 = bucket@;
    bucket.push(meta);
    assert(bq + Seq::<Seq<usize>>::empty() =~= bq);
    assert(bucket_ok(bucket@)) by {
        assert forall|i: int| 0 <= i < bucket@.len() implies (#[trigger] bucket@[i]).path@.len()
            > 0 by {
            if i < b1.len() {
                assert(bucket@[i] == b1[i]);
            }
        }
    }
}

} // verus!

verus! {

/// The forest after the node at `path` was taken out of `before`, `gone`
/// being that node: the other nodes keep their places and contents, and the
/// ancestors of the node keep all but that child.
pub open spec fn removed_at(
    before: Seq<ListEntry>,
    after: Seq<ListEntry>,
    path: Seq<usize>,
    gone: ListEntry,
) -> bool
    decreases path.len(),
{
    &&& path.len() > 0
    &&& path[0] < before.len()
    &&& if path.len() == 1 {
        &&& gone == before[path[0] as int]
        &&& after == before.remove(path[0] as int)
    } else {
        let i = path[0] as int;
        let (b, a) = (before[i], after[i]);
        &&& after.len() == before.len()
        &&& forall|j: int| 0 <= j < before.len() && j != i ==> after[j] == before[j]
        &&& a.display_name == b.display_name
        &&& a.search_terms == b.search_terms
        &&& a.exec_command == b.exec_command
        &&& a.exec_flags == b.exec_flags
        &&& removed_at(b.children@, a.children@, path.drop_first(), gone)
    }
}

/// The forest after the nodes at `paths` were taken out one after another.
pub open spec fn removed_all(before: Seq<ListEntry>, after: Seq<ListEntry>, paths: Seq<Seq<usize>>) -> bool
    decreases paths.len(),
{
    if paths.len() == 0 {
        after == before
    } else {
        exists|mid: Seq<ListEntry>, gone: ListEntry|
            #[trigger] removed_at(before, mid, paths[0], gone) && removed_all(
                mid,
                after,
                paths.drop_first(),
            )
    }
}

/// Each path comes no later, in depth-first order, than the ones after it.
pub open spec fn ascending(paths: Seq<EntryPath>) -> bool {
    forall|i: int, j: int|
        0 <= i < j < paths.len() ==> crate::path::depth_first_cmp(paths[i]@, paths[j]@)
            != core::cmp::Ordering::Greater
}

/// The views of the last `m` paths of `s`, last first.
pub open spec fn last_first(s: Seq<EntryPath>, m: nat) -> Seq<Seq<usize>> {
    Seq::new(m, |i: int| s[s.len() - 1 - i]@)
}

/// Relies on `slice::sort_unstable_by` with a comparator that is a total
/// order: the vector keeps the same paths and ends up in depth-first order.
#[verifier::external_body]
fn sort_depth_first(v: &mut Vec<EntryPath>)
    ensures
        final(v)@.to_multiset() == old(v)@.to_multiset(),
        ascending(final(v)@),
{
    v.sort_unstable_by(|a, b| a.cmp_depth_first(b));
}

/// What deleting `queue` did to `before`, leaving `after`: the queue was
/// sorted into depth-first order and its paths taken out latest first. If
/// `ok`, all of them were; otherwise the paths were taken out until the
/// first one that addressed no node, where it stopped.
pub open spec fn deleted_in_order(
    queue: Seq<EntryPath>,
    before: Seq<ListEntry>,
    after: Seq<ListEntry>,
    ok: bool,
) -> bool {
    if ok {
        exists|sorted: Seq<EntryPath>|
            #![trigger ascending(sorted)]
            sorted.to_multiset() == queue.to_multiset() && ascending(sorted) && removed_all(
                before,
                after,
                last_first(sorted, sorted.len()),
            )
    } else {
        exists|sorted: Seq<EntryPath>, m: nat|
            #![trigger ascending(sorted), last_first(sorted, m)]
            sorted.to_multiset() == queue.to_multiset() && ascending(sorted) && m < sorted.len()
                && removed_all(before, after, last_first(sorted, m)) && crate::forest::tree_get(
                after,
                sorted[sorted.len() - 1 - m]@,
            ).is_none()
    }
}

/// The paths of a bucket's fingerprints.
pub open spec fn bucket_paths(b: Seq<DedupMetadata>) -> Seq<Seq<usize>> {
    b.map_values(|m: DedupMetadata| m.path@)
}

/// The paths of every fingerprint in the index, counted.
pub open spec fn index_paths(ix: Seq<(Seq<Seq<char>>, Seq<DedupMetadata>)>) -> Multiset<Seq<usize>>
    decreases ix.len(),
{
    if ix.len() == 0 {
        Multiset::empty()
    } else {
        index_paths(ix.drop_last()).add(bucket_paths(ix.last().1).to_multiset())
    }
}

/// Each path that `held` counts is counted once and addresses a node of
/// `forest`.
pub open spec fn paths_sound(held: Multiset<Seq<usize>>, forest: Seq<ListEntry>) -> bool {
    forall|p: Seq<usize>|
        #![trigger held.count(p)]
        held.count(p) > 0 ==> held.count(p) == 1 && crate::forest::tree_get(forest, p).is_some()
}

proof fn lemma_scan_paths(bucket: Seq<DedupMetadata>, meta: DedupMetadata, idx: nat)
    ensures
        bucket_paths(dedup_scan(bucket, meta, idx).0).to_multiset().add(
            dedup_scan(bucket, meta, idx).1.to_multiset(),
        ) =~= bucket_paths(bucket).to_multiset().insert(meta.path@),
    decreases idx,
{
    broadcast use vstd::seq_lib::group_to_multiset_ensures, vstd::multiset::group_multiset_axioms;

    let r = dedup_scan(bucket, meta, idx);
    let lhs = bucket_paths(r.0).to_multiset().add(r.1.to_multiset());
    let rhs = bucket_paths(bucket).to_multiset().insert(meta.path@);
    let e = Seq::<Seq<usize>>::empty();
    assert(e.to_multiset() =~= Multiset::empty());
    if idx == 0 || idx > bucket.len() {
        assert(bucket_paths(bucket.push(meta)) =~= bucket_paths(bucket).push(meta.path@));
        assert(r == (bucket.push(meta), e));
        assert forall|p: Seq<usize>| lhs.count(p) == rhs.count(p) by {}
    } else {
        let cur = bucket[idx - 1];
        match meta.compare_spec(&cur) {
            SetCmp::Equal | SetCmp::Subset => {
                assert(seq![meta.path@] =~= e.push(meta.path@));
                assert(r == (bucket, seq![meta.path@]));
                assert forall|p: Seq<usize>| lhs.count(p) == rhs.count(p) by {}
            },
            SetCmp::Superset => {
                let rb = bucket.remove(idx - 1);
                lemma_scan_paths(rb, meta, (idx - 1) as nat);
                let rest = dedup_scan(rb, meta, (idx - 1) as nat);
                assert(bucket_paths(rb) =~= bucket_paths(bucket).remove(idx - 1));
                vstd::seq_lib::lemma_multiset_commutative(seq![cur.path@], rest.1);
                assert(seq![cur.path@] =~= e.push(cur.path@));
                assert(bucket_paths(bucket)[idx - 1] == cur.path@);
                assert(r == (rest.0, seq![cur.path@] + rest.1));
                let m0 = bucket_paths(bucket).to_multiset();
                assert(m0.count(cur.path@) > 0) by {
                    assert(bucket_paths(bucket).contains(cur.path@));
                }
                let inner = bucket_paths(rest.0).to_multiset().add(rest.1.to_multiset());
                assert forall|p: Seq<usize>| lhs.count(p) == rhs.count(p) by {
                    assert(inner.count(p) == bucket_paths(rb).to_multiset().insert(meta.path@).count(p));
                    assert(bucket_paths(rb).to_multiset() == m0.remove(cur.path@));
                }
            },
            SetCmp::Disjoint => {
                lemma_scan_paths(bucket, meta, (idx - 1) as nat);
                assert(r == dedup_scan(bucket, meta, (idx - 1) as nat));
                assert forall|p: Seq<usize>| lhs.count(p) == rhs.count(p) by {}
            },
        }
    }
    assert(lhs =~= rhs);
}

proof fn lemma_index_paths_update(
    ix: Seq<(Seq<Seq<char>>, Seq<DedupMetadata>)>,
    b: int,
    x: (Seq<Seq<char>>, Seq<DedupMetadata>),
)
    requires
        0 <= b < ix.len(),
    ensures
        index_paths(ix.update(b, x)).add(bucket_paths(ix[b].1).to_multiset()) =~= index_paths(
            ix,
        ).add(bucket_paths(x.1).to_multiset()),
    decreases ix.len(),
{
    broadcast use vstd::multiset::group_multiset_axioms;

    let u = ix.update(b, x);
    if b == ix.len() - 1 {
        assert(u.drop_last() =~= ix.drop_last());
        assert(u.last() == x);
        assert(index_paths(u) == index_paths(ix.drop_last()).add(bucket_paths(x.1).to_multiset()));
        assert(index_paths(ix) == index_paths(ix.drop_last()).add(
            bucket_paths(ix[b].1).to_multiset(),
        ));
    } else {
        lemma_index_paths_update(ix.drop_last(), b, x);
        assert(u.drop_last() =~= ix.drop_last().update(b, x));
        assert(u.last() == ix.last());
        assert(index_paths(u) == index_paths(u.drop_last()).add(
            bucket_paths(u.last().1).to_multiset(),
        ));
        assert(index_paths(ix) == index_paths(ix.drop_last()).add(
            bucket_paths(ix.last().1).to_multiset(),
        ));
        assert(ix.drop_last()[b] == ix[b]);
    }
    let lhs = index_paths(u).add(bucket_paths(ix[b].1).to_multiset());
    let rhs = index_paths(ix).add(bucket_paths(x.1).to_multiset());
    assert forall|p: Seq<usize>| lhs.count(p) == rhs.count(p) by {
        let xb = bucket_paths(x.1).to_multiset();
        let ob = bucket_paths(ix[b].1).to_multiset();
        let lb = bucket_paths(ix.last().1).to_multiset();
        let i0 = index_paths(ix.drop_last());
        if b == ix.len() - 1 {
            assert(index_paths(u).count(p) == i0.count(p) + xb.count(p));
            assert(index_paths(ix).count(p) == i0.count(p) + ob.count(p));
        } else {
            let iu = index_paths(ix.drop_last().update(b, x));
            assert(iu.add(ob).count(p) == i0.add(xb).count(p));
            assert(index_paths(u).count(p) == iu.count(p) + lb.count(p));
            assert(index_paths(ix).count(p) == i0.count(p) + lb.count(p));
        }
    }
    assert(lhs =~= rhs);
}

/// The paths of a walk.
pub open spec fn item_paths(items: Seq<(Seq<usize>, ListEntry)>) -> Seq<Seq<usize>> {
    items.map_values(|t: (Seq<usize>, ListEntry)| t.0)
}

proof fn lemma_fresh_paths(held: Multiset<Seq<usize>>, forest: Seq<ListEntry>, ent: ListEntry)
    requires
        paths_sound(held, forest),
        forest.len() <= usize::MAX,
    ensures
        paths_sound(
            held.add(item_paths(rebased(walk(seq![ent], 1024), forest.len())).to_multiset()),
            forest.push(ent),
        ),
{
    broadcast use vstd::seq_lib::group_to_multiset_ensures, vstd::multiset::group_multiset_axioms;

    let w = walk(seq![ent], 1024);
    let n = forest.len();
    let ip = item_paths(rebased(w, n));
    crate::forest::law_walk_addresses_nodes(seq![ent], 1024);
    crate::forest::law_walk_in_depth_first_order(seq![ent], 1024);
    assert forall|i: int| 0 <= i < ip.len() implies (#[trigger] ip[i]).len() > 0 && ip[i][0] == n
        && crate::forest::tree_get(forest.push(ent), ip[i]).is_some() by {
        assert(crate::forest::tree_get(seq![ent], w[i].0) == Some(w[i].1));
        crate::forest::lemma_tree_get_rebased(forest, ent, w[i].0);
        assert(ip[i] == seq![n as usize] + w[i].0.subrange(1, w[i].0.len() as int));
    }
    assert(ip.no_duplicates()) by {
        assert forall|i: int, j: int|
            0 <= i < ip.len() && 0 <= j < ip.len() && i != j implies ip[i] != ip[j] by {
            let a = w[i].0;
            let b = w[j].0;
            assert(crate::forest::tree_get(seq![ent], a) == Some(w[i].1));
            assert(crate::forest::tree_get(seq![ent], b) == Some(w[j].1));
            crate::forest::lemma_tree_get_rebased(forest, ent, a);
            crate::forest::lemma_tree_get_rebased(forest, ent, b);
            if ip[i] == ip[j] {
                assert(ip[i] == seq![n as usize] + a.subrange(1, a.len() as int));
                assert(ip[j] == seq![n as usize] + b.subrange(1, b.len() as int));
                assert(a.subrange(1, a.len() as int) =~= ip[i].drop_first());
                assert(b.subrange(1, b.len() as int) =~= ip[j].drop_first());
                assert(a =~= seq![0usize] + a.subrange(1, a.len() as int));
                assert(b =~= seq![0usize] + b.subrange(1, b.len() as int));
                assert(a == b);
                crate::path::lemma_cmp_refl(a);
                if i < j {
                    assert(crate::path::depth_first_cmp(w[i].0, w[j].0) == core::cmp::Ordering::Less);
                } else {
                    assert(crate::path::depth_first_cmp(w[j].0, w[i].0) == core::cmp::Ordering::Less);
                }
            }
        }
    }
    ip.lemma_multiset_has_no_duplicates();
    let total = held.add(ip.to_multiset());
    assert forall|p: Seq<usize>| #[trigger] total.count(p) > 0 implies total.count(p) == 1
        && crate::forest::tree_get(forest.push(ent), p).is_some() by {
        if held.count(p) > 0 {
            crate::forest::lemma_tree_get_push(forest, ent, p);
            if ip.to_multiset().count(p) > 0 {
                assert(ip.contains(p));
                let i = choose|i: int| 0 <= i < ip.len() && ip[i] == p;
                assert(ip[i][0] == n);
            }
        } else {
            assert(ip.to_multiset().contains(p));
            assert(ip.contains(p));
            let i = choose|i: int| 0 <= i < ip.len() && ip[i] == p;
            assert(crate::forest::tree_get(forest.push(ent), ip[i]).is_some());
        }
    }
}

/// Every path of `queue` addresses a node of `forest`, and no two of them
/// are equal.
pub open spec fn queue_consistent(queue: Seq<EntryPath>, forest: Seq<ListEntry>) -> bool {
    &&& forall|i: int|
        0 <= i < queue.len() ==> crate::forest::tree_get(forest, (#[trigger] queue[i])@).is_some()
    &&& forall|i: int, j: int|
        0 <= i < j < queue.len() ==> (#[trigger] queue[i])@ != (#[trigger] queue[j])@
}

proof fn lemma_sorted_consistent(queue: Seq<EntryPath>, s: Seq<EntryPath>, forest: Seq<ListEntry>)
    requires
        queue_consistent(queue, forest),
        s.to_multiset() == queue.to_multiset(),
        ascending(s),
    ensures
        forall|k: int| 0 <= k < s.len() ==> crate::forest::tree_get(forest, (#[trigger] s[k])@).is_some(),
        forall|i: int, j: int|
            0 <= i < j < s.len() ==> crate::path::depth_first_cmp(
                (#[trigger] s[i])@,
                (#[trigger] s[j])@,
            ) == core::cmp::Ordering::Less,
{
    broadcast use vstd::seq_lib::group_to_multiset_ensures;

    assert(queue.no_duplicates()) by {
        assert forall|i: int, j: int|
            0 <= i < queue.len() && 0 <= j < queue.len() && i != j implies queue[i] != queue[j] by {
            if i < j {
                assert(queue[i]@ != queue[j]@);
            } else {
                assert(queue[j]@ != queue[i]@);
            }
        }
    }
    queue.lemma_multiset_has_no_duplicates();
    s.lemma_multiset_has_no_duplicates_conv();
    assert forall|k: int| 0 <= k < s.len() implies exists|i: int|
        0 <= i < queue.len() && queue[i] == #[trigger] s[k] by {
        assert(s.contains(s[k]));
        assert(s.to_multiset().count(s[k]) > 0);
        assert(queue.to_multiset().count(s[k]) > 0);
        assert(queue.contains(s[k]));
    }
    assert forall|k: int| 0 <= k < s.len() implies crate::forest::tree_get(
        forest,
        (#[trigger] s[k])@,
    ).is_some() by {
        let i = choose|i: int| 0 <= i < queue.len() && queue[i] == s[k];
    }
    assert forall|i: int, j: int| 0 <= i < j < s.len() implies crate::path::depth_first_cmp(
        (#[trigger] s[i])@,
        (#[trigger] s[j])@,
    ) == core::cmp::Ordering::Less by {
        if crate::path::depth_first_cmp(s[i]@, s[j]@) == core::cmp::Ordering::Equal {
            crate::path::lemma_cmp_equal(s[i]@, s[j]@);
            let a = choose|a: int| 0 <= a < queue.len() && queue[a] == s[i];
            let b = choose|b: int| 0 <= b < queue.len() && queue[b] == s[j];
            assert(s[i] != s[j]);
            assert(a != b);
            if a < b {
                assert(queue[a]@ != queue[b]@);
            } else {
                assert(queue[b]@ != queue[a]@);
            }
        }
    }
}

/// What ingesting `ent` into a forest of `n` roots does to the index `ix`
/// and the pending paths `q`: the duplicate rule runs over the nodes of
/// `ent` in walk order, each fingerprinted at its place in the forest.
pub open spec fn ingest_effect(
    ix: Seq<(Seq<Seq<char>>, Seq<DedupMetadata>)>,
    q: Seq<Seq<usize>>,
    n: nat,
    ent: ListEntry,
    ix2: Seq<(Seq<Seq<char>>, Seq<DedupMetadata>)>,
    q2: Seq<Seq<usize>>,
) -> bool {
    exists|metas: Seq<DedupMetadata>|
        #![trigger fingerprints(metas, rebased(walk(seq![ent], 1024), n))]
        fingerprints(metas, rebased(walk(seq![ent], 1024), n)) && (ix2, q2) == ingest_fold(
            ix,
            q,
            rebased(walk(seq![ent], 1024), n),
            metas,
            walk(seq![ent], 1024).len(),
        )
}

/// What ingesting `ents` one after another into a forest of `n` roots does
/// to the index `ix` and the pending paths `q`.
pub open spec fn ingest_all_effect(
    ix: Seq<(Seq<Seq<char>>, Seq<DedupMetadata>)>,
    q: Seq<Seq<usize>>,
    n: nat,
    ents: Seq<ListEntry>,
    ix2: Seq<(Seq<Seq<char>>, Seq<DedupMetadata>)>,
    q2: Seq<Seq<usize>>,
) -> bool
    decreases ents.len(),
{
    if ents.len() == 0 {
        ix2 == ix && q2 == q
    } else {
        exists|ixm: Seq<(Seq<Seq<char>>, Seq<DedupMetadata>)>, qm: Seq<Seq<usize>>|
            #![trigger ingest_effect(ixm, qm, (n + ents.len() - 1) as nat, ents.last(), ix2, q2)]
            ingest_all_effect(ix, q, n, ents.drop_last(), ixm, qm) && ingest_effect(
                ixm,
                qm,
                (n + ents.len() - 1) as nat,
                ents.last(),
                ix2,
                q2,
            )
    }
}

proof fn lemma_removed_all_push(
    a: Seq<ListEntry>,
    b: Seq<ListEntry>,
    c: Seq<ListEntry>,
    paths: Seq<Seq<usize>>,
    p: Seq<usize>,
    gone: ListEntry,
)
    requires
        removed_all(a, b, paths),
        removed_at(b, c, p, gone),
    ensures
        removed_all(a, c, paths.push(p)),
    decreases paths.len(),
{
    if paths.len() == 0 {
        assert(paths.push(p).drop_first() =~= paths);
        assert(removed_all(c, c, paths));
        assert(removed_at(a, c, paths.push(p)[0], gone));
    } else {
        let (mid, g) = choose|mid: Seq<ListEntry>, gone: ListEntry|
            #[trigger] removed_at(a, mid, paths[0], gone) && removed_all(
                mid,
                b,
                paths.drop_first(),
            );
        lemma_removed_all_push(mid, b, c, paths.drop_first(), p, gone);
        assert(paths.push(p).drop_first() =~= paths.drop_first().push(p));
        assert(removed_at(a, mid, paths.push(p)[0], g));
    }
}

/// Whether `a` is a proper prefix of `b`: the path of an ancestor.
pub open spec fn proper_prefix(a: Seq<usize>, b: Seq<usize>) -> bool {
    a.len() < b.len() && b.subrange(0, a.len() as int) == a
}

/// Deleting the node at `q` moves no node whose path sorts before `q` in
/// depth-first order: a node that is not an ancestor of `q` is found
/// unchanged at its path, and an ancestor of `q` is still found at its path.
/// So deleting paths latest first keeps every path still waiting valid.
pub proof fn law_delete_keeps_earlier_paths(
    before: Seq<ListEntry>,
    after: Seq<ListEntry>,
    q: Seq<usize>,
    gone: ListEntry,
    p: Seq<usize>,
)
    requires
        removed_at(before, after, q, gone),
        crate::path::depth_first_cmp(p, q) == core::cmp::Ordering::Less,
    ensures
        proper_prefix(p, q) ==> crate::forest::tree_get(after, p).is_some()
            == crate::forest::tree_get(before, p).is_some(),
        !proper_prefix(p, q) ==> crate::forest::tree_get(after, p) == crate::forest::tree_get(
            before,
            p,
        ),
    decreases p.len(),
{
    if p.len() == 0 {
        return;
    }
    let i = q[0] as int;
    if p[0] < q[0] {
        assert(!proper_prefix(p, q)) by {
            if proper_prefix(p, q) {
                assert(q.subrange(0, p.len() as int)[0] == p[0]);
            }
        }
        if q.len() == 1 {
            assert(after[p[0] as int] == before[p[0] as int]);
        } else {
            assert(after[p[0] as int] == before[p[0] as int]);
        }
    } else {
        assert(p[0] == q[0]);
        if p.len() == 1 {
            if q.len() == 1 {
                assert(crate::path::depth_first_cmp(p, q) == crate::path::depth_first_cmp(
                    p.drop_first(),
                    q.drop_first(),
                ));
            }
            assert(q.len() > 1);
            assert(q.subrange(0, 1) =~= p);
        } else {
            assert(q.len() > 1) by {
                if q.len() == 1 {
                    assert(crate::path::depth_first_cmp(p, q) == crate::path::depth_first_cmp(
                        p.drop_first(),
                        q.drop_first(),
                    ));
                }
            }
            let (b, a) = (before[i], after[i]);
            law_delete_keeps_earlier_paths(
                b.children@,
                a.children@,
                q.drop_first(),
                gone,
                p.drop_first(),
            );
            assert(proper_prefix(p, q) == proper_prefix(p.drop_first(), q.drop_first())) by {
                if proper_prefix(p, q) {
                    assert(q.drop_first().subrange(0, p.len() - 1) =~= q.subrange(
                        0,
                        p.len() as int,
                    ).drop_first());
                    assert(p.drop_first() =~= q.subrange(0, p.len() as int).drop_first());
                }
                if proper_prefix(p.drop_first(), q.drop_first()) {
                    assert forall|k: int| 0 <= k < p.len() implies q.subrange(0, p.len() as int)[k]
                        == p[k] by {
                        if k > 0 {
                            assert(q.drop_first().subrange(0, p.len() - 1)[k - 1] == p.drop_first()[k
                                - 1]);
                        }
                    }
                    assert(q.subrange(0, p.len() as int) =~= p);
                }
            }
        }
    }
}

proof fn lemma_removed_all_last(a: Seq<ListEntry>, c: Seq<ListEntry>, paths: Seq<Seq<usize>>)
    requires
        paths.len() > 0,
        removed_all(a, c, paths),
    ensures
        exists|b: Seq<ListEntry>, g: ListEntry|
            removed_all(a, b, paths.drop_last()) && #[trigger] removed_at(b, c, paths.last(), g),
    decreases paths.len(),
{
    let (mid, g0) = choose|mid: Seq<ListEntry>, gone: ListEntry|
        #[trigger] removed_at(a, mid, paths[0], gone) && removed_all(mid, c, paths.drop_first());
    if paths.len() == 1 {
        assert(paths.drop_first().len() == 0);
        assert(paths.drop_last().len() == 0);
        assert(removed_all(a, a, paths.drop_last()));
        assert(removed_at(a, c, paths.last(), g0));
    } else {
        let rest = paths.drop_first();
        lemma_removed_all_last(mid, c, rest);
        let (b, g) = choose|b: Seq<ListEntry>, g: ListEntry|
            removed_all(mid, b, rest.drop_last()) && #[trigger] removed_at(b, c, rest.last(), g);
        assert(rest.last() == paths.last());
        assert(paths.drop_last().drop_first() =~= rest.drop_last());
        assert(paths.drop_last()[0] == paths[0]);
        assert(removed_at(a, mid, paths.drop_last()[0], g0));
        assert(removed_all(a, b, paths.drop_last()));
    }
}

/// Deleting paths latest first in depth-first order leaves every path still
/// waiting on the node it addressed at the start, unless that node is an
/// ancestor of one already deleted (it is then still there, short of that
/// descendant): the order keeps the paths that come later valid.
pub proof fn law_descending_deletions_keep_paths(
    before: Seq<ListEntry>,
    after: Seq<ListEntry>,
    sorted: Seq<EntryPath>,
    m: nat,
    k: int,
)
    requires
        forall|i: int, j: int|
            0 <= i < j < sorted.len() ==> crate::path::depth_first_cmp(
                (#[trigger] sorted[i])@,
                (#[trigger] sorted[j])@,
            ) == core::cmp::Ordering::Less,
        m <= sorted.len(),
        removed_all(before, after, last_first(sorted, m)),
        0 <= k < sorted.len() - m,
        forall|d: int| sorted.len() - m <= d < sorted.len() ==> !proper_prefix(sorted[k]@, #[trigger] sorted[d]@),
    ensures
        crate::forest::tree_get(after, sorted[k]@) == crate::forest::tree_get(before, sorted[k]@),
    decreases m,
{
    if m == 0 {
        assert(last_first(sorted, 0).len() == 0);
    } else {
        let ps = last_first(sorted, m);
        lemma_removed_all_last(before, after, ps);
        assert(ps.drop_last() =~= last_first(sorted, (m - 1) as nat));
        let d = sorted.len() - m;
        assert(ps.last() == sorted[d]@);
        let (b, g) = choose|b: Seq<ListEntry>, g: ListEntry|
            removed_all(before, b, ps.drop_last()) && #[trigger] removed_at(b, after, ps.last(), g);
        law_descending_deletions_keep_paths(before, b, sorted, (m - 1) as nat, k);
        assert(crate::path::depth_first_cmp(sorted[k]@, sorted[d]@) == core::cmp::Ordering::Less);
        law_delete_keeps_earlier_paths(b, after, sorted[d]@, g, sorted[k]@);
    }
}

/// Takes out the node that `path[k..]` addresses in `level`.
fn remove_in(level: &mut Vec<ListEntry>, path: &Vec<usize>, k: usize) -> (r: Option<ListEntry>)
    requires
        k < path@.len(),
    ensures
        r.is_some() == crate::forest::tree_get(
            old(level)@,
            path@.subrange(k as int, path@.len() as int),
        ).is_some(),
        match r {
            Some(g) => crate::forest::tree_get(
                old(level)@,
                path@.subrange(k as int, path@.len() as int),
            ) == Some(g) && removed_at(
                old(level)@,
                final(level)@,
                path@.subrange(k as int, path@.len() as int),
                g,
            ),
            None => true,
        },
    decreases path@.len() - k,
{
    let ghost rest = path@.subrange(k as int, path@.len() as int);
    let idx = path[k];
    if idx >= level.len() {
        return None;
    }
    if k == path.len() - 1 {
        let g = level.remove(idx);
        return Some(g);
    }
    assert(rest.drop_first() =~= path@.subrange(k + 1, path@.len() as int));
    let ghost before = level@;
    let mut ent = level.remove(idx);
    let r = remove_in(&mut ent.children, path, k + 1);
    level.insert(idx, ent);
    proof {
        if r.is_some() {
            assert forall|j: int| 0 <= j < before.len() && j != idx implies level@[j]
                == before[j] by {}
        }
    }
    r
}

/// The catalog: the forest of entries, an index of fingerprints by command,
/// and the paths waiting to be deleted.
pub struct State {
    pub config: Config,
    entries: Vec<ListEntry>,
    entries_by_cmd: Vec<(Vec<String>, Vec<DedupMetadata>)>,
    delete_queue: Vec<EntryPath>,
}

/// Whether two lists of strings hold the same text in the same order.
fn same_strings(a: &Vec<String>, b: &Vec<String>) -> (r: bool)
    ensures
        r == (strs(a@) == strs(b@)),
{
    if a.len() != b.len() {
        assert(strs(a@).len() != strs(b@).len());
        return false;
    }
    let mut i: usize = 0;
    while i < a.len()
        invariant
            a.len() == b.len(),
            i <= a.len(),
            forall|k: int| 0 <= k < i ==> a@[k]@ == b@[k]@,
        decreases a.len() - i,
    {
        if a[i] != b[i] {
            assert(strs(a@)[i as int] != strs(b@)[i as int]);
            return false;
        }
        i += 1;
    }
    assert(strs(a@) =~= strs(b@));
    true
}

impl State {
    /// The index is well formed: one bucket per command, and each
    /// fingerprint with a path.
    pub closed spec fn wf(&self) -> bool {
        &&& forall|i: int|
            0 <= i < self.entries_by_cmd.len() ==> bucket_ok(
                (#[trigger] self.entries_by_cmd@[i]).1@,
            )
        &&& forall|i: int, j: int|
            0 <= i < j < self.entries_by_cmd.len() ==> strs(
                (#[trigger] self.entries_by_cmd@[i]).0@,
            ) != strs((#[trigger] self.entries_by_cmd@[j]).0@)
    }

    /// Every path that the index and the queue hold, counted.
    pub closed spec fn held(&self) -> Multiset<Seq<usize>> {
        index_paths(self.index()).add(self.pending().to_multiset())
    }

    /// No deletion has run since the catalog was made: each path that the
    /// index or the queue holds is held once and addresses a node.
    pub closed spec fn clean(&self) -> bool {
        paths_sound(self.held(), self.forest())
    }

    /// In a clean catalog the queue is consistent with the forest.
    pub proof fn lemma_clean_queue(&self)
        requires
            self.clean(),
        ensures
            queue_consistent(self.queue(), self.forest()),
    {
        broadcast use vstd::multiset::group_multiset_axioms,
            vstd::seq_lib::group_to_multiset_ensures;

        let pv = self.pending();
        let ms = pv.to_multiset();
        let h = self.held();
        assert forall|i: int| 0 <= i < self.queue().len() implies crate::forest::tree_get(
            self.forest(),
            (#[trigger] self.queue()[i])@,
        ).is_some() by {
            assert(pv[i] == self.queue()[i]@);
            assert(pv.contains(pv[i]));
            assert(h.count(pv[i]) >= ms.count(pv[i]));
        }
        assert forall|i: int, j: int| 0 <= i < j < self.queue().len() implies (
        #[trigger] self.queue()[i])@ != (#[trigger] self.queue()[j])@ by {
            let v = pv[i];
            if pv[j] == v {
                let r = pv.remove(j);
                assert(r[i] == v);
                assert(r.contains(v));
                assert(r.to_multiset() =~= ms.remove(v));
                assert(r.to_multiset().count(v) > 0);
                assert(ms.remove(v).count(v) > 0);
                assert(ms.count(v) >= 2);
                assert(h.count(v) >= ms.count(v));
            }
        }
    }

    /// The configuration the catalog was made with.
    pub closed spec fn conf(&self) -> Config {
        self.config
    }

    /// The duplicate index as values.
    pub closed spec fn index(&self) -> Seq<(Seq<Seq<char>>, Seq<DedupMetadata>)> {
        index_view(self.entries_by_cmd@)
    }

    /// The root level of the forest.
    pub closed spec fn forest(&self) -> Seq<ListEntry> {
        self.entries@
    }

    /// The paths waiting to be deleted, in the order they were queued.
    pub closed spec fn pending(&self) -> Seq<Seq<usize>> {
        path_views(self.delete_queue@)
    }

    /// The queue of paths waiting to be deleted.
    pub closed spec fn queue(&self) -> Seq<EntryPath> {
        self.delete_queue@
    }

    /// An empty catalog with the given configuration.
    pub fn new(config: Config) -> (r: Self)
        ensures
            r.wf(),
            r.forest() == Seq::<ListEntry>::empty(),
            r.pending() == Seq::<Seq<usize>>::empty(),
            r.queue() == Seq::<EntryPath>::empty(),
            r.index() == Seq::<(Seq<Seq<char>>, Seq<DedupMetadata>)>::empty(),
            r.conf() == config,
            r.clean(),
    {
        let r = State {
            config,
            entries: Vec::new(),
            entries_by_cmd: Vec::new(),
            delete_queue: Vec::new(),
        };
        assert(r.pending() =~= Seq::<Seq<usize>>::empty());
        assert(r.queue() =~= Seq::<EntryPath>::empty());
        assert(r.index() =~= Seq::<(Seq<Seq<char>>, Seq<DedupMetadata>)>::empty());
        proof {
            broadcast use vstd::multiset::group_multiset_axioms,
                vstd::seq_lib::group_to_multiset_ensures;

            assert(r.pending() =~= Seq::<Seq<usize>>::empty());
            assert(Seq::<Seq<usize>>::empty().to_multiset() =~= Multiset::empty());
            assert(r.pending().to_multiset() =~= Multiset::empty());
            assert(r.held() =~= Multiset::empty());
        }
        r
    }

    /// The number of root entries.
    pub fn len(&self) -> (r: usize)
        ensures
            r == self.forest().len(),
    {
        self.entries.len()
    }

    /// A copy of every root entry, in order.
    pub fn all_entries(&self) -> (r: Vec<ListEntry>)
        ensures
            crate::entry::same_forest(r@, self.forest()),
    {
        let mut r: Vec<ListEntry> = Vec::new();
        let mut i: usize = 0;
        while i < self.entries.len()
            invariant
                i <= self.entries.len(),
                r.len() == i,
                forall|k: int|
                    0 <= k < i ==> crate::entry::same_entry(#[trigger] r@[k], self.entries@[k]),
            decreases self.entries.len() - i,
        {
            r.push(self.entries[i].duplicate());
            i += 1;
        }
        r
    }

    fn bucket_index(&self, cmd: &Vec<String>) -> (r: Option<usize>)
        ensures
            match r {
                Some(i) => i < self.entries_by_cmd.len() && strs(self.entries_by_cmd@[i as int].0@)
                    == strs(cmd@),
                None => forall|i: int|
                    0 <= i < self.entries_by_cmd.len() ==> strs(
                        (#[trigger] self.entries_by_cmd@[i]).0@,
                    ) != strs(cmd@),
            },
    {
        let mut i: usize = 0;
        while i < self.entries_by_cmd.len()
            invariant
                i <= self.entries_by_cmd.len(),
                forall|k: int|
                    0 <= k < i ==> strs((#[trigger] self.entries_by_cmd@[k]).0@) != strs(cmd@),
            decreases self.entries_by_cmd.len() - i,
        {
            if same_strings(&self.entries_by_cmd[i].0, cmd) {
                return Some(i);
            }
            i += 1;
        }
        None
    }

    /// Adds `ent` as the last root entry. Each node of it, in walk order, is
    /// fingerprinted at its place in the forest and run through the
    /// duplicate rule of its command's bucket (a new bucket for a new
    /// command); the paths of redundant nodes are queued for deletion, which
    /// happens later. `ent` must be at most `MAX_DEPTH` levels deep.
    pub fn ingest(&mut self, ent: ListEntry)
        requires
            old(self).wf(),
            fits(ent, 1, 1024),
        ensures
            final(self).wf(),
            final(self).forest() == old(self).forest().push(ent),
            ingest_effect(
                old(self).index(),
                old(self).pending(),
                old(self).forest().len(),
                ent,
                final(self).index(),
                final(self).pending(),
            ),
            old(self).clean() ==> final(self).clean(),
    {
        let n = self.entries.len();
        let ghost held0 = self.held();
        let root = EntryPath::new().child(n);
        let tmp: Vec<ListEntry> = vec![ent];
        proof {
            assert(tmp@ =~= seq![ent]);
            assert(forest_fits(tmp@, 1024));
        }
        let walked = entry_tree_with_paths(tmp.as_slice(), 1024);
        let ghost items = rebased(walk(seq![ent], 1024), n as nat);
        let ghost ix0 = self.index();
        let ghost q0 = self.pending();
        let ghost mut metas: Seq<DedupMetadata> = Seq::empty();
        proof {
            assert(walk_view(walked@) == walk(seq![ent], 1024));
            assert(walked@.len() == walk(seq![ent], 1024).len());
        }
        let mut k: usize = 0;
        proof {
            broadcast use vstd::multiset::group_multiset_axioms,
                vstd::seq_lib::group_to_multiset_ensures;

            let e = item_paths(items).subrange(0, 0);
            assert(e =~= Seq::<Seq<usize>>::empty());
            assert(Seq::<Seq<usize>>::empty().to_multiset() =~= Multiset::empty());
            assert(held0.add(e.to_multiset()) =~= held0);
        }
        while k < walked.len()
            invariant
                self.wf(),
                root@ == seq![n],
                n == old(self).entries.len(),
                k <= walked.len(),
                items.len() == walked.len(),
                items == rebased(walk_view(walked@), n as nat),
                self.entries == old(self).entries,
                metas.len() == k,
                held0 == old(self).held(),
                self.held() == held0.add(item_paths(items).subrange(0, k as int).to_multiset()),
                forall|i: int| 0 <= i < k ==> fingerprint(#[trigger] metas[i], items[i].0, items[i].1),
                (self.index(), self.pending()) == ingest_fold(ix0, q0, items, metas, k as nat),
            decreases walked.len() - k,
        {
            let p = walked[k].0;
            let node = walked[k].1;
            let depth = p.level();
            let tail = p.tail_from(1);
            assert(tail@.len() < depth || tail@.len() == 0);
            let full = root.concat(&tail);
            proof {
                assert(walk_view(walked@)[k as int] == (p@, *node));
                if p@.len() >= 1 {
                    assert(tail@ == p@.subrange(1, p@.len() as int));
                } else {
                    assert(tail@ =~= Seq::<usize>::empty());
                }
                assert(full@ == items[k as int].0);
                assert(*node == items[k as int].1);
            }
            let meta = DedupMetadata::new(full, node);
            let ghost key = strs(node.exec_command@);
            let ghost ix1 = self.index();
            let ghost q1 = self.pending();
            let b = match self.bucket_index(&node.exec_command) {
                Some(b) => {
                    proof {
                        lemma_bucket_of_unique(self.entries_by_cmd@, b as int, key);
                    }
                    b
                },
                None => {
                    let ghost idx0 = self.entries_by_cmd@;
                    proof {
                        lemma_bucket_of_absent(self.entries_by_cmd@, key);
                    }
                    self.entries_by_cmd.push(
                        (crate::entry::copy_strings(&node.exec_command), Vec::new()),
                    );
                    proof {
                        let m = self.entries_by_cmd.len() - 1;
                        assert(bucket_ok(self.entries_by_cmd@[m].1@));
                        assert forall|i: int| 0 <= i < self.entries_by_cmd.len() implies bucket_ok(
                            (#[trigger] self.entries_by_cmd@[i]).1@,
                        ) by {
                            if i < m {
                                assert(self.entries_by_cmd@[i] == idx0[i]);
                            }
                        }
                        assert forall|i: int, j: int|
                            0 <= i < j < self.entries_by_cmd.len() implies strs(
                            (#[trigger] self.entries_by_cmd@[i]).0@,
                        ) != strs((#[trigger] self.entries_by_cmd@[j]).0@) by {
                            assert(self.entries_by_cmd@[i] == idx0[i]);
                            if j < m {
                                assert(self.entries_by_cmd@[j] == idx0[j]);
                            }
                        }
                        assert(self.index() =~= ix1.push((key, Seq::<DedupMetadata>::empty())));
                    }
                    self.entries_by_cmd.len() - 1
                },
            };
            proof {
                assert(bucket_ok(self.entries_by_cmd@[b as int].1@));
            }
            let ghost idx0 = self.entries_by_cmd@;
            let ghost ixb = self.index();
            let ghost qb = self.pending();
            let ghost bucket0 = self.entries_by_cmd@[b as int].1@;
            let ghost meta_v = meta;
            dedup_insert(&mut self.entries_by_cmd[b].1, meta, &mut self.delete_queue);
            proof {
                assert forall|i: int| 0 <= i < self.entries_by_cmd.len() implies bucket_ok(
                    (#[trigger] self.entries_by_cmd@[i]).1@,
                ) by {
                    if i != b {
                        assert(self.entries_by_cmd@[i] == idx0[i]);
                    }
                }
                assert forall|i: int, j: int| 0 <= i < j < self.entries_by_cmd.len() implies strs(
                    (#[trigger] self.entries_by_cmd@[i]).0@,
                ) != strs((#[trigger] self.entries_by_cmd@[j]).0@) by {
                    assert(self.entries_by_cmd@[i].0 == idx0[i].0);
                    assert(self.entries_by_cmd@[j].0 == idx0[j].0);
                }
                let sc = dedup_scan(bucket0, meta_v, bucket0.len());
                assert(self.index() =~= ixb.update(b as int, (key, sc.0)));
                let m_old = metas;
                metas = metas.push(meta_v);
                assert(fingerprint(metas[k as int], items[k as int].0, items[k as int].1));
                assert forall|i: int| 0 <= i < k + 1 implies fingerprint(
                    #[trigger] metas[i],
                    items[i].0,
                    items[i].1,
                ) by {}
                lemma_fold_prefix(ix0, q0, items, metas, m_old, k as nat);
                let st = index_step(ix1, key, meta_v);
                assert(items[k as int].1.exec_command@ == node.exec_command@);
                assert(st.0 =~= self.index());
                assert(q1 + st.1 =~= self.pending());
                assert(metas[k as int] == meta_v);
                assert(ingest_fold(ix0, q0, items, metas, (k + 1) as nat) == (st.0, q1 + st.1));
                {
                    broadcast use vstd::seq_lib::group_to_multiset_ensures,
                        vstd::multiset::group_multiset_axioms;

                    let ip1 = index_paths(ix1);
                    assert(index_paths(ixb) =~= ip1) by {
                        if ixb != ix1 {
                            assert(ixb == ix1.push((key, Seq::<DedupMetadata>::empty())));
                            assert(ixb.drop_last() =~= ix1);
                            assert(bucket_paths(Seq::<DedupMetadata>::empty()).to_multiset()
                                =~= Multiset::empty());
                        }
                    }
                    assert(ixb[b as int].1 == bucket0);
                    lemma_index_paths_update(ixb, b as int, (key, sc.0));
                    lemma_scan_paths(bucket0, meta_v, bucket0.len());
                    vstd::seq_lib::lemma_multiset_commutative(q1, sc.1);
                    assert(self.pending() == q1 + sc.1);
                    let mp = meta_v.path@;
                    let before_items = item_paths(items).subrange(0, k as int);
                    let after_items = item_paths(items).subrange(0, k + 1);
                    assert(after_items =~= before_items.push(mp));
                    assert(after_items.to_multiset() == before_items.push(mp).to_multiset());
                    assert(after_items.to_multiset() =~= before_items.to_multiset().insert(mp));
                    let h1 = ip1.add(q1.to_multiset());
                    assert(h1 == held0.add(before_items.to_multiset()));
                    assert forall|p: Seq<usize>| self.held().count(p) == held0.add(
                        after_items.to_multiset(),
                    ).count(p) by {
                        assert(index_paths(self.index()).add(bucket_paths(bucket0).to_multiset()).count(p)
                            == index_paths(ixb).add(bucket_paths(sc.0).to_multiset()).count(p));
                        assert(bucket_paths(sc.0).to_multiset().add(sc.1.to_multiset()).count(p)
                            == bucket_paths(bucket0).to_multiset().insert(mp).count(p));
                        assert((q1 + sc.1).to_multiset().count(p) == q1.to_multiset().count(p)
                            + sc.1.to_multiset().count(p));
                        assert(self.held().count(p) == index_paths(self.index()).count(p)
                            + self.pending().to_multiset().count(p));
                        assert(h1.count(p) == ip1.count(p) + q1.to_multiset().count(p));
                        assert(held0.add(after_items.to_multiset()).count(p) == held0.count(p)
                            + after_items.to_multiset().count(p));
                        assert(held0.add(before_items.to_multiset()).count(p) == held0.count(p)
                            + before_items.to_multiset().count(p));
                        assert(before_items.to_multiset().insert(mp).count(p)
                            == before_items.to_multiset().count(p) + if p == mp { 1int } else { 0int });
                        assert(bucket_paths(bucket0).to_multiset().insert(mp).count(p)
                            == bucket_paths(bucket0).to_multiset().count(p) + if p == mp { 1int } else { 0int });
                    }
                    assert(self.held() =~= held0.add(after_items.to_multiset()));
                }
            }
            k += 1;
        }
        proof {
            assert(fingerprints(metas, items));
            assert(item_paths(items).subrange(0, items.len() as int) =~= item_paths(items));
            if old(self).clean() {
                lemma_fresh_paths(held0, old(self).forest(), ent);
            }
        }
        let mut tmp = tmp;
        let ent = tmp.pop().unwrap();
        self.entries.push(ent);
    }

    /// Takes out the node at `path`, if there is one.
    pub fn delete_path(&mut self, path: EntryPath) -> (r: Option<ListEntry>)
        requires
            old(self).wf(),
        ensures
            final(self).wf(),
            final(self).queue() == old(self).queue(),
            final(self).index() == old(self).index(),
            r.is_some() == crate::forest::tree_get(old(self).forest(), path@).is_some(),
            r.is_some() ==> crate::forest::tree_get(old(self).forest(), path@) == r
                && removed_at(old(self).forest(), final(self).forest(), path@, r.unwrap()),
            r.is_none() ==> final(self).forest() == old(self).forest(),
    {
        if crate::forest::entry_tree_get(self.entries.as_slice(), path).is_none() {
            return None;
        }
        let offsets = path.iter();
        assert(offsets@.subrange(0, offsets@.len() as int) =~= path@);
        remove_in(&mut self.entries, &offsets, 0)
    }

    /// Deletes every queued path, deepest and latest first, so that no
    /// deletion moves a node whose path is still waiting. Returns false,
    /// and stops, on a path that addresses no node: the queue then did not
    /// match the forest.
    pub fn delete_queued(&mut self) -> (ok: bool)
        requires
            old(self).wf(),
        ensures
            final(self).wf(),
            ok ==> final(self).queue().len() == 0,
            final(self).index() == old(self).index(),
            deleted_in_order(old(self).queue(), old(self).forest(), final(self).forest(), ok),
            queue_consistent(old(self).queue(), old(self).forest()) ==> ok,
    {
        sort_depth_first(&mut self.delete_queue);
        let ghost s = self.delete_queue@;
        let ghost f0 = self.entries@;
        let ghost n = s.len();
        let ghost consistent = queue_consistent(old(self).queue(), old(self).forest());
        proof {
            if consistent {
                lemma_sorted_consistent(old(self).queue(), s, f0);
            }
            assert(s.subrange(0, n as int) =~= s);
            assert(last_first(s, 0) =~= Seq::<Seq<usize>>::empty());
        }
        while self.delete_queue.len() > 0
            invariant
                self.wf(),
                n == s.len(),
                self.delete_queue.len() <= n,
                self.delete_queue@ == s.subrange(0, self.delete_queue.len() as int),
                ascending(s),
                s.to_multiset() == old(self).queue().to_multiset(),
                f0 == old(self).forest(),
                self.index() == old(self).index(),
                consistent == queue_consistent(old(self).queue(), old(self).forest()),
                consistent ==> forall|k: int|
                    0 <= k < self.delete_queue.len() ==> crate::forest::tree_get(
                        self.entries@,
                        (#[trigger] s[k])@,
                    ).is_some(),
                consistent ==> forall|i: int, j: int|
                    0 <= i < j < n ==> crate::path::depth_first_cmp(
                        (#[trigger] s[i])@,
                        (#[trigger] s[j])@,
                    ) == core::cmp::Ordering::Less,
                removed_all(f0, self.entries@, last_first(s, (n - self.delete_queue.len()) as nat)),
            decreases self.delete_queue.len(),
        {
            let m = self.delete_queue.len();
            let nxt = self.delete_queue.pop().unwrap();
            assert(nxt == s[m - 1]);
            assert(self.delete_queue@ =~= s.subrange(0, m - 1));
            let ghost before = self.entries@;
            match self.delete_path(nxt) {
                Some(g) => {
                    proof {
                        lemma_removed_all_push(
                            f0,
                            before,
                            self.entries@,
                            last_first(s, (n - m) as nat),
                            nxt@,
                            g,
                        );
                        assert(last_first(s, (n - m) as nat).push(nxt@) =~= last_first(
                            s,
                            (n - m + 1) as nat,
                        ));
                        if consistent {
                            assert forall|k: int| 0 <= k < self.delete_queue.len() implies crate::forest::tree_get(
                                self.entries@,
                                (#[trigger] s[k])@,
                            ).is_some() by {
                                assert(crate::path::depth_first_cmp(s[k]@, s[m - 1]@)
                                    == core::cmp::Ordering::Less);
                                law_delete_keeps_earlier_paths(before, self.entries@, nxt@, g, s[k]@);
                            }
                        }
                    }
                },
                None => {
                    proof {
                        let mm = (n - m) as nat;
                        assert(s[n - 1 - mm] == nxt);
                        assert(s.to_multiset() == old(self).queue().to_multiset() && ascending(s) && mm
                            < s.len() && removed_all(old(self).forest(), self.forest(), last_first(s, mm))
                            && crate::forest::tree_get(self.forest(), s[s.len() - 1 - mm]@).is_none());
                    }
                    return false;
                },
            }
        }
        true
    }

    /// The entries that a search for `key` shows, within a budget of
    /// `max_height` nodes: see `search_results`.
    pub fn search_loaded(&self, key: &str, max_height: usize) -> (r: Vec<ListEntry>)
        ensures
            same_forest(r@, search_results(self.forest(), query_key(key@), max_height as nat)),
    {
        let lkey = lower_query(key);
        let cands = self.hits(lkey.as_str());
        let ghost c = hit_views(cands@);
        let ghost total = budget_take(c, max_height as nat, 0);
        assert(total == search_results(self.forest(), query_key(key@), max_height as nat));
        let mut r: Vec<ListEntry> = Vec::new();
        let mut height: usize = 0;
        let mut i: usize = 0;
        assert(c.subrange(0, c.len() as int) =~= c);
        assert(c.subrange(0, 0) + c.subrange(0, c.len() as int) =~= c);
        while i < cands.len()
            invariant
                c == hit_views(cands@),
                total == budget_take(c, max_height as nat, 0),
                total == search_results(self.forest(), query_key(key@), max_height as nat),
                i <= cands.len(),
                r.len() == i,
                height < max_height || i == 0,
                forall|k: int| 0 <= k < i ==> same_entry(#[trigger] r@[k], c[k]),
                total == c.subrange(0, i as int) + budget_take(
                    c.subrange(i as int, c.len() as int),
                    max_height as nat,
                    height as nat,
                ),
            decreases cands.len() - i,
        {
            let ghost rest = c.subrange(i as int, c.len() as int);
            let ent = cands[i];
            r.push(ent.duplicate());
            let w = count_nodes(ent, 1, 1024);
            let ghost wn = node_count(*ent, 1, 1024);
            let ghost h0 = height;
            height = height.saturating_add(w);
            i += 1;
            assert(rest[0] == *ent);
            assert(rest.drop_first() =~= c.subrange(i as int, c.len() as int));
            if height >= max_height {
                assert(h0 + wn >= max_height);
                assert(budget_take(rest, max_height as nat, h0 as nat) =~= seq![*ent]);
                assert(total =~= c.subrange(0, i as int));
                assert(same_forest(r@, total));
                assert(total == search_results(self.forest(), query_key(key@), max_height as nat));
                return r;
            }
            assert(c.subrange(0, (i - 1) as int) + seq![*ent] =~= c.subrange(0, i as int));
            assert(total =~= c.subrange(0, i as int) + budget_take(
                c.subrange(i as int, c.len() as int),
                max_height as nat,
                height as nat,
            ));
        }
        assert(total =~= c);
        r
    }

    /// The entries a search for the lower-case `key` can show, in order.
    fn hits<'a>(&'a self, key: &str) -> (r: Vec<&'a ListEntry>)
        ensures
            hit_views(r@) == hits(self.forest(), key@, self.forest().len()),
    {
        let mut r: Vec<&'a ListEntry> = Vec::new();
        let mut i: usize = 0;
        assert(hit_views(r@) =~= Seq::<ListEntry>::empty());
        while i < self.entries.len()
            invariant
                i <= self.entries.len(),
                hit_views(r@) == hits(self.entries@, key@, i as nat),
            decreases self.entries.len() - i,
        {
            let ent = &self.entries[i];
            let ghost before = hit_views(r@);
            if matches_search(key, ent) {
                r.push(ent);
                assert(hit_views(r@) =~= before + seq![*ent]);
            } else {
                let mut j: usize = 0;
                assert(hit_views(r@) =~= before + child_hits(ent.children@, key@, 0));
                while j < ent.children.len()
                    invariant
                        j <= ent.children.len(),
                        hit_views(r@) == before + child_hits(ent.children@, key@, j as nat),
                    decreases ent.children.len() - j,
                {
                    let child = &ent.children[j];
                    let ghost mid = hit_views(r@);
                    if matches_search(key, child) {
                        r.push(child);
                        assert(hit_views(r@) =~= mid + seq![*child]);
                    }
                    j += 1;
                    assert(hit_views(r@) =~= before + child_hits(ent.children@, key@, j as nat));
                }
            }
            i += 1;
            assert(hit_views(r@) =~= hits(self.entries@, key@, i as nat));
        }
        r
    }

    /// How many nodes the entries a search for `key` can show hold, all
    /// levels counted, saturating at `usize::MAX`.
    pub fn cur_search_height(&self, key: &str) -> (r: usize)
        ensures
            r as nat == capped(total_weight(search_hits(self.forest(), query_key(key@)))),
    {
        let lkey = lower_query(key);
        let cands = self.hits(lkey.as_str());
        let ghost c = hit_views(cands@);
        let mut total: usize = 0;
        let mut i: usize = 0;
        while i < cands.len()
            invariant
                c == hit_views(cands@),
                i <= cands.len(),
                total as nat == capped(total_weight(c.subrange(0, i as int))),
            decreases cands.len() - i,
        {
            let w = count_nodes(cands[i], 1, 1024);
            total = total.saturating_add(w);
            i += 1;
            assert(c.subrange(0, i as int).drop_last() =~= c.subrange(0, i - 1));
        }
        assert(c.subrange(0, c.len() as int) =~= c);
        total
    }

    /// Ingests each entry of `entries` in order, then deletes what the
    /// duplicate rule queued, latest first in depth-first order. Returns
    /// false where a queued path addressed no node at its turn, which
    /// cannot happen on a clean catalog such as a new one.
    pub fn start(&mut self, entries: Vec<ListEntry>) -> (ok: bool)
        requires
            old(self).wf(),
            forall|i: int| 0 <= i < entries.len() ==> fits(#[trigger] entries@[i], 1, 1024),
        ensures
            final(self).wf(),
            old(self).clean() ==> ok,
            ok ==> final(self).queue().len() == 0,
            exists|q: Seq<EntryPath>|
                #![trigger deleted_in_order(q, old(self).forest() + entries@, final(self).forest(), ok)]
                ingest_all_effect(
                    old(self).index(),
                    old(self).pending(),
                    old(self).forest().len(),
                    entries@,
                    final(self).index(),
                    path_views(q),
                ) && deleted_in_order(q, old(self).forest() + entries@, final(self).forest(), ok),
    {
        self.ingest_all(entries);
        let ghost q = self.queue();
        proof {
            if old(self).clean() {
                self.lemma_clean_queue();
            }
        }
        let ok = self.delete_queued();
        assert(deleted_in_order(q, old(self).forest() + entries@, self.forest(), ok));
        ok
    }

    fn ingest_all(&mut self, entries: Vec<ListEntry>)
        requires
            old(self).wf(),
            forall|i: int| 0 <= i < entries.len() ==> fits(#[trigger] entries@[i], 1, 1024),
        ensures
            final(self).wf(),
            final(self).forest() == old(self).forest() + entries@,
            ingest_all_effect(
                old(self).index(),
                old(self).pending(),
                old(self).forest().len(),
                entries@,
                final(self).index(),
                final(self).pending(),
            ),
            old(self).clean() ==> final(self).clean(),
    {
        let mut entries = entries;
        let ghost ix0 = self.index();
        let ghost q0 = self.pending();
        let ghost all = entries@;
        let ghost f0 = self.forest();
        let mut taken: usize = 0;
        assert(f0 + all.subrange(0, 0) =~= f0);
        assert(all.len() == entries.len());
        assert(all.subrange(0, 0).len() == 0);
        while entries.len() > 0
            invariant
                self.wf(),
                taken + entries.len() == all.len(),
                all.len() <= usize::MAX,
                entries@ == all.subrange(taken as int, all.len() as int),
                self.forest() == f0 + all.subrange(0, taken as int),
                forall|i: int| 0 <= i < all.len() ==> fits(#[trigger] all[i], 1, 1024),
                ingest_all_effect(
                    ix0,
                    q0,
                    f0.len(),
                    all.subrange(0, taken as int),
                    self.index(),
                    self.pending(),
                ),
                old(self).clean() ==> self.clean(),
            decreases entries.len(),
        {
            let e = entries.remove(0);
            assert(e == all[taken as int]);
            let ghost ixm = self.index();
            let ghost qm = self.pending();
            self.ingest(e);
            taken += 1;
            proof {
                let pre = all.subrange(0, taken as int);
                assert(pre.drop_last() =~= all.subrange(0, taken - 1));
                assert(pre.last() == e);
                assert(ingest_effect(
                    ixm,
                    qm,
                    (f0.len() + pre.len() - 1) as nat,
                    pre.last(),
                    self.index(),
                    self.pending(),
                ));
            }
            assert(entries@ =~= all.subrange(taken as int, all.len() as int));
            assert(self.forest() =~= f0 + all.subrange(0, taken as int));
        }
        assert(all.subrange(0, all.len() as int) =~= all);
    }

    /// One round of an interactive search: ingests `batch`, the next entries
    /// the sources gave, and deletes what that made redundant. When the
    /// sources are `exhausted`, or the matches already hold `max_height`
    /// nodes, the results are returned; otherwise none, and the caller
    /// fetches another batch. Fails, after deleting what it could, where a
    /// queued path addressed no node at its turn; not on a clean catalog.
    pub fn search(
        &mut self,
        key: &str,
        max_height: usize,
        batch: Vec<ListEntry>,
        exhausted: bool,
    ) -> (r: Result<Option<Vec<ListEntry>>, CatalogError>)
        requires
            old(self).wf(),
            forall|i: int| 0 <= i < batch.len() ==> fits(#[trigger] batch@[i], 1, 1024),
        ensures
            final(self).wf(),
            match r {
                Ok(Some(found)) => (exhausted || capped(
                    total_weight(search_hits(final(self).forest(), query_key(key@))),
                ) >= max_height) && same_forest(
                    found@,
                    search_results(final(self).forest(), query_key(key@), max_height as nat),
                ),
                Ok(None) => !exhausted && capped(
                    total_weight(search_hits(final(self).forest(), query_key(key@))),
                ) < max_height,
                Err(_) => true,
            },
            old(self).clean() ==> r is Ok,
            r is Ok ==> final(self).queue().len() == 0,
            exists|q: Seq<EntryPath>|
                #![trigger deleted_in_order(q, old(self).forest() + batch@, final(self).forest(), r is Ok)]
                ingest_all_effect(
                    old(self).index(),
                    old(self).pending(),
                    old(self).forest().len(),
                    batch@,
                    final(self).index(),
                    path_views(q),
                ) && deleted_in_order(q, old(self).forest() + batch@, final(self).forest(), r is Ok),
    {
        let ghost b = batch@;
        self.ingest_all(batch);
        let ghost q = self.queue();
        proof {
            if old(self).clean() {
                self.lemma_clean_queue();
            }
        }
        if !self.delete_queued() {
            assert(deleted_in_order(q, old(self).forest() + b, self.forest(), false));
            return Err(CatalogError::MissingPath);
        }
        assert(deleted_in_order(q, old(self).forest() + b, self.forest(), true));
        if exhausted || self.cur_search_height(key) >= max_height {
            Ok(Some(self.search_loaded(key, max_height)))
        } else {
            Ok(None)
        }
    }
}

/// A failure of the catalog's own bookkeeping.
#[derive(Debug, PartialEq, Eq, Structural, Clone, Copy)]
pub enum CatalogError {
    /// A path queued for deletion addressed no node.
    MissingPath,
}

/// The text a query is matched with: the empty query as it is, any other
/// lower-cased.
pub open spec fn query_key(key: Seq<char>) -> Seq<char> {
    if key.len() == 0 {
        key
    } else {
        lower_of(key)
    }
}

fn lower_query(key: &str) -> (r: String)
    ensures
        r@ == query_key(key@),
{
    if key.unicode_len() == 0 {
        String::from_str(key)
    } else {
        to_lower(key)
    }
}

/// A search with the empty query shows every root, in order.
pub proof fn law_empty_query_shows_roots(forest: Seq<ListEntry>)
    ensures
        search_hits(forest, query_key(Seq::empty())) == forest,
{
    lemma_empty_hits(forest, forest.len());
    assert(forest.subrange(0, forest.len() as int) =~= forest);
}

proof fn lemma_empty_hits(forest: Seq<ListEntry>, k: nat)
    requires
        k <= forest.len(),
    ensures
        hits(forest, Seq::empty(), k) == forest.subrange(0, k as int),
    decreases k,
{
    if k > 0 {
        lemma_empty_hits(forest, (k - 1) as nat);
        assert(forest.subrange(0, k - 1) + seq![forest[k - 1]] =~= forest.subrange(0, k as int));
    }
}

/// Within a budget that the matches cannot reach, a search shows all of
/// them: with the empty query, every root in order.
pub proof fn law_unreached_budget_shows_all(c: Seq<ListEntry>, max: nat)
    requires
        total_weight(c) < max,
    ensures
        budget_take(c, max, 0) == c,
{
    lemma_budget_all(c, max, 0);
}

proof fn lemma_total_weight_first(c: Seq<ListEntry>)
    requires
        c.len() > 0,
    ensures
        total_weight(c) == node_count(c[0], 1, 1024) + total_weight(c.drop_first()),
    decreases c.len(),
{
    if c.len() > 1 {
        lemma_total_weight_first(c.drop_last());
        assert(c.drop_last().drop_first() =~= c.drop_first().drop_last());
        assert(c.drop_last()[0] == c[0]);
        assert(c.drop_first().last() == c.last());
        assert(total_weight(c) == total_weight(c.drop_last()) + node_count(c.last(), 1, 1024));
        assert(total_weight(c.drop_first()) == total_weight(c.drop_first().drop_last()) + node_count(
            c.drop_first().last(),
            1,
            1024,
        ));
    } else {
        assert(c.drop_last().len() == 0);
        assert(c.drop_first().len() == 0);
        assert(total_weight(c.drop_last()) == 0);
        assert(total_weight(c.drop_first()) == 0);
        assert(c.last() == c[0]);
    }
}

proof fn lemma_budget_all(c: Seq<ListEntry>, max: nat, acc: nat)
    requires
        acc + total_weight(c) < max,
    ensures
        budget_take(c, max, acc) == c,
    decreases c.len(),
{
    if c.len() > 0 {
        lemma_total_weight_first(c);
        lemma_budget_all(c.drop_first(), max, acc + node_count(c[0], 1, 1024));
        assert(seq![c[0]] + c.drop_first() =~= c);
    }
}

/// A root that does not match shows only its matching direct children, each
/// as a result of its own; nothing deeper is searched.
pub proof fn law_unmatched_root_shows_children(e: ListEntry, key: Seq<char>)
    requires
        !matches(key, e),
    ensures
        search_hits(seq![e], key) == child_hits(e.children@, key, e.children.len() as nat),
        forall|i: int|
            0 <= i < search_hits(seq![e], key).len() ==> e.children@.contains(
                #[trigger] search_hits(seq![e], key)[i],
            ) && matches(key, search_hits(seq![e], key)[i]),
{
    assert(hits(seq![e], key, 0) =~= Seq::<ListEntry>::empty());
    assert(search_hits(seq![e], key) =~= child_hits(e.children@, key, e.children.len() as nat));
    lemma_child_hits_from(e.children@, key, e.children.len() as nat);
}

proof fn lemma_child_hits_from(cs: Seq<ListEntry>, key: Seq<char>, j: nat)
    requires
        j <= cs.len(),
    ensures
        forall|i: int|
            0 <= i < child_hits(cs, key, j).len() ==> cs.contains(#[trigger] child_hits(cs, key, j)[i])
                && matches(key, child_hits(cs, key, j)[i]),
    decreases j,
{
    if j > 0 {
        lemma_child_hits_from(cs, key, (j - 1) as nat);
        let prev = child_hits(cs, key, (j - 1) as nat);
        assert forall|i: int| 0 <= i < child_hits(cs, key, j).len() implies cs.contains(
            #[trigger] child_hits(cs, key, j)[i],
        ) && matches(key, child_hits(cs, key, j)[i]) by {
            if i < prev.len() {
                assert(child_hits(cs, key, j)[i] == prev[i]);
            } else {
                assert(child_hits(cs, key, j)[i] == cs[j - 1]);
            }
        }
    }
}

/// Whether a search for the lower-case `key` shows `e`: an empty key shows
/// everything; otherwise the key must occur in the lower-cased name or in a
/// lower-cased search term.
pub open spec fn matches(key: Seq<char>, e: ListEntry) -> bool {
    ||| key.len() == 0
    ||| occurs_in(key, lower_of(name_of(e)))
    ||| exists|i: int|
        0 <= i < e.search_terms.len() && occurs_in(key, lower_of(#[trigger] e.search_terms@[i]@))
}

/// Whether a search for the lower-case `key` shows `ent`.
pub fn matches_search(key: &str, ent: &ListEntry) -> (r: bool)
    ensures
        r == matches(key@, *ent),
{
    if key.unicode_len() == 0 {
        return true;
    }
    let name = to_lower(ent.name().as_str());
    if contains_str(name.as_str(), key) {
        return true;
    }
    let mut i: usize = 0;
    while i < ent.search_terms.len()
        invariant
            i <= ent.search_terms.len(),
            forall|k: int| 0 <= k < i ==> !occurs_in(key@, lower_of(#[trigger] ent.search_terms@[k]@)),
        decreases ent.search_terms.len() - i,
    {
        let term = to_lower(ent.search_terms[i].as_str());
        if contains_str(term.as_str(), key) {
            return true;
        }
        i += 1;
    }
    false
}

/// The matching ones among the first `j` entries of `cs`, in order.
pub open spec fn child_hits(cs: Seq<ListEntry>, key: Seq<char>, j: nat) -> Seq<ListEntry>
    decreases j,
{
    if j == 0 || j > cs.len() {
        Seq::empty()
    } else {
        child_hits(cs, key, (j - 1) as nat) + if matches(key, cs[j - 1]) {
            seq![cs[j - 1]]
        } else {
            Seq::empty()
        }
    }
}

/// What a root shows: itself, with all below it, if it matches; else its
/// matching direct children, each with all below it.
pub open spec fn root_hits(e: ListEntry, key: Seq<char>) -> Seq<ListEntry> {
    if matches(key, e) {
        seq![e]
    } else {
        child_hits(e.children@, key, e.children.len() as nat)
    }
}

/// What the first `k` roots show, in order.
pub open spec fn hits(forest: Seq<ListEntry>, key: Seq<char>, k: nat) -> Seq<ListEntry>
    decreases k,
{
    if k == 0 || k > forest.len() {
        Seq::empty()
    } else {
        hits(forest, key, (k - 1) as nat) + root_hits(forest[k - 1], key)
    }
}

/// What the whole forest shows for the lower-case `key`.
pub open spec fn search_hits(forest: Seq<ListEntry>, key: Seq<char>) -> Seq<ListEntry> {
    hits(forest, key, forest.len())
}

/// `x`, or `usize::MAX` where it is larger.
pub open spec fn capped(x: nat) -> nat {
    if x > usize::MAX {
        usize::MAX as nat
    } else {
        x
    }
}

/// The weights of all of `c`, each entry counted to any depth.
pub open spec fn total_weight(c: Seq<ListEntry>) -> nat
    decreases c.len(),
{
    if c.len() == 0 {
        0
    } else {
        total_weight(c.drop_last()) + node_count(c.last(), 1, 1024)
    }
}

/// The entries of `c` taken in order until their weights, added to `acc`,
/// reach `max`: the entry that reaches it is the last one taken.
pub open spec fn budget_take(c: Seq<ListEntry>, max: nat, acc: nat) -> Seq<ListEntry>
    decreases c.len(),
{
    if c.len() == 0 {
        Seq::empty()
    } else if acc + node_count(c[0], 1, 1024) >= max {
        seq![c[0]]
    } else {
        seq![c[0]] + budget_take(c.drop_first(), max, acc + node_count(c[0], 1, 1024))
    }
}

/// What a search for the lower-case `key` shows within a budget of `max`
/// nodes.
pub open spec fn search_results(forest: Seq<ListEntry>, key: Seq<char>, max: nat) -> Seq<ListEntry> {
    budget_take(search_hits(forest, key), max, 0)
}

/// The entries a sequence of references points at.
pub open spec fn hit_views<'a>(v: Seq<&'a ListEntry>) -> Seq<ListEntry> {
    v.map_values(|e: &'a ListEntry| *e)
}

/// The weight of `e` at `level`, saturating at `usize::MAX`.
pub fn count_nodes(e: &ListEntry, level: usize, max: usize) -> (r: usize)
    ensures
        r as nat == capped(node_count(*e, level as nat, max as nat)),
    decreases e, e.children.len() + 1,
{
    let mut total: usize = 1;
    if level <= max {
        let mut j: usize = 0;
        while j < e.children.len()
            invariant
                level <= max,
                j <= e.children.len(),
                total as nat == capped(1 + children_count(*e, level as nat, max as nat, j as nat)),
            decreases e.children.len() - j,
        {
            let ghost wc = children_count(*e, level as nat, max as nat, j as nat);
            let ghost wn = node_count(e.children@[j as int], (level + 1) as nat, max as nat);
            let w = if level < max {
                count_nodes(&e.children[j], level + 1, max)
            } else {
                assert(wn == 1);
                1
            };
            assert(w as nat == capped(wn));
            total = total.saturating_add(w);
            j += 1;
            assert(children_count(*e, level as nat, max as nat, j as nat) == wc + wn);
        }
    }
    total
}

} // verus!
