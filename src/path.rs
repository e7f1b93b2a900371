//! Addresses of nodes in a forest of entries.
use vstd::prelude::*;

verus! {

/// How many offsets a path can hold: the deepest level it can address.
pub const MAX_DEPTH: usize = 8;

/// Lexicographic order of two offset sequences, where a proper prefix comes
/// before every sequence that extends it.
pub open spec fn depth_first_cmp(a: Seq<usize>, b: Seq<usize>) -> core::cmp::Ordering
    decreases a.len(),
{
    if a.len() == 0 {
        if b.len() == 0 {
            core::cmp::Ordering::Equal
        } else {
            core::cmp::Ordering::Less
        }
    } else if b.len() == 0 {
        core::cmp::Ordering::Greater
    } else if a[0] < b[0] {
        core::cmp::Ordering::Less
    } else if a[0] > b[0] {
        core::cmp::Ordering::Greater
    } else {
        depth_first_cmp(a.drop_first(), b.drop_first())
    }
}

/// A path into a forest: the first offset picks a root, each further offset a
/// child of the node picked so far. Only the first `level` slots are
/// significant.
#[derive(Debug, Clone, Copy)]
pub struct EntryPath {
    offsets: [usize; 8],
    level: usize,
}

impl View for EntryPath {
    type V = Seq<usize>;

    closed spec fn view(&self) -> Seq<usize> {
        self.offsets@.subrange(0, self.level as int)
    }
}

impl PartialEq for EntryPath {
    fn eq(&self, other: &EntryPath) -> (r: bool)
        ensures
            r == (self@ == other@),
    {
        proof {
            use_type_invariant(self);
            use_type_invariant(other);
        }
        assert(self@.len() == self.level && other@.len() == other.level);
        if self.level != other.level {
            return false;
        }
        let mut i: usize = 0;
        while i < self.level
            invariant
                self.level == other.level <= 8,
                i <= self.level,
                forall|k: int| 0 <= k < i ==> self@[k] == other@[k],
            decreases self.level - i,
        {
            if self.offsets[i] != other.offsets[i] {
                assert(self@[i as int] != other@[i as int]);
                return false;
            }
            i += 1;
        }
        assert(self@ =~= other@);
        true
    }
}

impl vstd::std_specs::cmp::PartialEqSpecImpl for EntryPath {
    open spec fn obeys_eq_spec() -> bool {
        true
    }

    open spec fn eq_spec(&self, other: &EntryPath) -> bool {
        self@ == other@
    }
}

impl Eq for EntryPath {
}

impl EntryPath {
    #[verifier::type_invariant]
    closed spec fn inv(self) -> bool {
        self.level <= MAX_DEPTH
    }

    /// The empty path, at level 0.
    pub fn new() -> (r: Self)
        ensures
            r@ == Seq::<usize>::empty(),
    {
        let r = EntryPath { offsets: [0usize; 8], level: 0 };
        assert(r@ =~= Seq::<usize>::empty());
        r
    }

    /// Appends `next`: the path of the child at offset `next`.
    fn push(&mut self, next: usize)
        requires
            old(self)@.len() < MAX_DEPTH,
        ensures
            final(self)@ == old(self)@.push(next),
    {
        proof {
            use_type_invariant(&*self);
        }
        let lvl = self.level;
        self.offsets[lvl] = next;
        self.level = lvl + 1;
        assert(self@ =~= old(self)@.push(next));
    }

    /// The path of child `next` of the node at this path; the path must be
    /// below its maximal depth.
    pub fn child(&self, next: usize) -> (r: Self)
        requires
            self@.len() < MAX_DEPTH,
        ensures
            r@ == self@.push(next),
    {
        let mut nxt = *self;
        nxt.push(next);
        nxt
    }

    /// The number of offsets.
    pub fn level(&self) -> (r: usize)
        ensures
            r == self@.len(),
            r <= MAX_DEPTH,
    {
        proof {
            use_type_invariant(self);
        }
        self.level
    }

    /// The path with its last offset removed; the empty path stays empty.
    pub fn parent(&self) -> (r: Self)
        ensures
            self@.len() == 0 ==> r@ == self@,
            self@.len() > 0 ==> r@ == self@.drop_last(),
    {
        proof {
            use_type_invariant(self);
        }
        if self.level == 0 {
            *self
        } else {
            let mut next = *self;
            next.level = self.level - 1;
            assert(next@ =~= self@.drop_last());
            next
        }
    }

    /// The last offset, if there is one.
    fn last(&self) -> (r: Option<usize>)
        ensures
            self@.len() == 0 ==> r.is_none(),
            self@.len() > 0 ==> r == Some(self@.last()),
    {
        proof {
            use_type_invariant(self);
        }
        if self.level == 0 {
            None
        } else {
            Some(self.offsets[self.level - 1])
        }
    }

    /// The path of the previous sibling: none at level 0 or when the last
    /// offset is already 0.
    pub fn prev_sibling(&self) -> (r: Option<Self>)
        ensures
            (self@.len() == 0 || self@.last() == 0) ==> r.is_none(),
            (self@.len() > 0 && self@.last() > 0) ==> r.is_some() && r.unwrap()@
                == self@.drop_last().push((self@.last() - 1) as usize),
    {
        proof {
            use_type_invariant(self);
        }
        let tail = match self.last() {
            Some(n) => n,
            None => 0,
        };
        if tail == 0 {
            None
        } else {
            Some(self.parent().child(tail - 1))
        }
    }

    /// The path of the next sibling, whether or not a node stands there; none
    /// at level 0. The last offset must be below `usize::MAX`.
    pub fn next_sibling(&self) -> (r: Option<Self>)
        requires
            self@.len() > 0 ==> self@.last() < usize::MAX,
        ensures
            self@.len() == 0 ==> r.is_none(),
            self@.len() > 0 ==> r.is_some() && r.unwrap()@ == self@.drop_last().push(
                (self@.last() + 1) as usize,
            ),
    {
        proof {
            use_type_invariant(self);
        }
        let tail = self.last()?;
        Some(self.parent().child(tail + 1))
    }

    /// The offsets from `level` on, as a path of their own.
    pub fn tail_from(&self, level: usize) -> (r: Self)
        ensures
            level >= self@.len() ==> r@ == Seq::<usize>::empty(),
            level < self@.len() ==> r@ == self@.subrange(level as int, self@.len() as int),
    {
        proof {
            use_type_invariant(self);
        }
        let mut retvl = Self::new();
        if level >= self.level {
            return retvl;
        }
        let mut i: usize = level;
        while i < self.level
            invariant
                self.level <= MAX_DEPTH,
                level <= i <= self.level,
                retvl@ == self@.subrange(level as int, i as int),
            decreases self.level - i,
        {
            retvl.push(self.offsets[i]);
            i += 1;
            assert(retvl@ =~= self@.subrange(level as int, i as int));
        }
        retvl
    }

    /// Appends every offset of `rhs` to this path.
    pub fn concat(&self, rhs: &EntryPath) -> (r: Self)
        requires
            self@.len() + rhs@.len() <= MAX_DEPTH,
        ensures
            r@ == self@ + rhs@,
    {
        proof {
            use_type_invariant(rhs);
        }
        let mut nxt = *self;
        let mut i: usize = 0;
        while i < rhs.level
            invariant
                rhs.level <= MAX_DEPTH,
                self@.len() + rhs@.len() <= MAX_DEPTH,
                i <= rhs.level,
                nxt@ == self@ + rhs@.subrange(0, i as int),
            decreases rhs.level - i,
        {
            nxt.push(rhs.offsets[i]);
            i += 1;
            assert(nxt@ =~= self@ + rhs@.subrange(0, i as int));
        }
        assert(rhs@.subrange(0, rhs.level as int) =~= rhs@);
        nxt
    }

    /// A path holding the given offsets, at most `MAX_DEPTH` of them.
    pub fn from_offsets(raw: &Vec<usize>) -> (r: Self)
        requires
            raw@.len() <= MAX_DEPTH,
        ensures
            r@ == raw@,
    {
        let mut retvl = Self::new();
        let mut i: usize = 0;
        while i < raw.len()
            invariant
                raw@.len() <= MAX_DEPTH,
                i <= raw.len(),
                retvl@ == raw@.subrange(0, i as int),
            decreases raw.len() - i,
        {
            retvl = retvl.child(raw[i]);
            i += 1;
            assert(retvl@ =~= raw@.subrange(0, i as int));
        }
        assert(raw@.subrange(0, raw@.len() as int) =~= raw@);
        retvl
    }

    /// The offsets, in order.
    pub fn iter(&self) -> (r: Vec<usize>)
        ensures
            r@ == self@,
    {
        proof {
            use_type_invariant(self);
        }
        let mut r: Vec<usize> = Vec::new();
        let mut i: usize = 0;
        while i < self.level
            invariant
                self.level <= MAX_DEPTH,
                i <= self.level,
                r@ == self@.subrange(0, i as int),
            decreases self.level - i,
        {
            r.push(self.offsets[i]);
            i += 1;
            assert(r@ =~= self@.subrange(0, i as int));
        }
        assert(r@ =~= self@);
        r
    }

    /// Depth-first order: offsets compared in turn, and an ancestor before
    /// all of its descendants.
    pub fn cmp_depth_first(&self, other: &Self) -> (r: core::cmp::Ordering)
        ensures
            r == depth_first_cmp(self@, other@),
    {
        proof {
            use_type_invariant(self);
            use_type_invariant(other);
        }
        let mut i: usize = 0;
        assert(self@.subrange(0, self@.len() as int) =~= self@);
        assert(other@.subrange(0, other@.len() as int) =~= other@);
        loop
            invariant
                self.level <= MAX_DEPTH,
                other.level <= MAX_DEPTH,
                i <= self.level,
                i <= other.level,
                depth_first_cmp(self@, other@) == depth_first_cmp(
                    self@.subrange(i as int, self@.len() as int),
                    other@.subrange(i as int, other@.len() as int),
                ),
            decreases self.level - i,
        {
            let ghost a = self@.subrange(i as int, self@.len() as int);
            let ghost b = other@.subrange(i as int, other@.len() as int);
            if i == self.level {
                if i == other.level {
                    return core::cmp::Ordering::Equal;
                } else {
                    return core::cmp::Ordering::Less;
                }
            } else if i == other.level {
                return core::cmp::Ordering::Greater;
            }
            let x = self.offsets[i];
            let y = other.offsets[i];
            assert(a[0] == x && b[0] == y);
            if x < y {
                return core::cmp::Ordering::Less;
            } else if x > y {
                return core::cmp::Ordering::Greater;
            }
            assert(a.drop_first() =~= self@.subrange(i + 1, self@.len() as int));
            assert(b.drop_first() =~= other@.subrange(i + 1, other@.len() as int));
            i += 1;
        }
    }
}

/// A common prefix does not change the depth-first order.
pub proof fn lemma_cmp_common_prefix(p: Seq<usize>, x: Seq<usize>, y: Seq<usize>)
    ensures
        depth_first_cmp(p + x, p + y) == depth_first_cmp(x, y),
    decreases p.len(),
{
    if p.len() > 0 {
        assert((p + x).drop_first() =~= p.drop_first() + x);
        assert((p + y).drop_first() =~= p.drop_first() + y);
        lemma_cmp_common_prefix(p.drop_first(), x, y);
    } else {
        assert(p + x =~= x);
        assert(p + y =~= y);
    }
}

/// A path compares equal to itself.
pub proof fn lemma_cmp_refl(a: Seq<usize>)
    ensures
        depth_first_cmp(a, a) == core::cmp::Ordering::Equal,
    decreases a.len(),
{
    if a.len() > 0 {
        lemma_cmp_refl(a.drop_first());
    }
}

/// Only equal paths compare equal.
pub proof fn lemma_cmp_equal(a: Seq<usize>, b: Seq<usize>)
    requires
        depth_first_cmp(a, b) == core::cmp::Ordering::Equal,
    ensures
        a == b,
    decreases a.len(),
{
    if a.len() > 0 && b.len() > 0 {
        lemma_cmp_equal(a.drop_first(), b.drop_first());
        assert(a =~= seq![a[0]] + a.drop_first());
        assert(b =~= seq![b[0]] + b.drop_first());
    } else {
        assert(a =~= b);
    }
}

/// A path comes before each of its proper extensions.
pub proof fn lemma_cmp_extension(p: Seq<usize>, r: Seq<usize>)
    requires
        r.len() > 0,
    ensures
        depth_first_cmp(p, p + r) == core::cmp::Ordering::Less,
{
    lemma_cmp_common_prefix(p, Seq::empty(), r);
    assert(p + Seq::<usize>::empty() =~= p);
}

/// Below a common prefix, the branch with the smaller offset comes first.
pub proof fn lemma_cmp_branches(p: Seq<usize>, i: usize, j: usize, x: Seq<usize>, y: Seq<usize>)
    requires
        i < j,
    ensures
        depth_first_cmp(p.push(i) + x, p.push(j) + y) == core::cmp::Ordering::Less,
{
    assert(p.push(i) + x =~= p + (seq![i] + x));
    assert(p.push(j) + y =~= p + (seq![j] + y));
    lemma_cmp_common_prefix(p, seq![i] + x, seq![j] + y);
}

/// Going to child `i` and back to the parent gives the path back, for every
/// path below the maximal depth.
pub proof fn law_child_parent(p: EntryPath, i: usize)
    requires
        p@.len() < MAX_DEPTH,
    ensures
        p@.push(i).len() > 0,
        p@.push(i).drop_last() == p@,
{
    assert(p@.push(i).drop_last() =~= p@);
}

/// Stepping to the next sibling and back to the previous one gives the path
/// back, for every path of level at least 1.
pub proof fn law_next_prev_sibling(p: EntryPath)
    requires
        p@.len() > 0,
        p@.last() < usize::MAX,
    ensures
        ({
            let n = p@.drop_last().push((p@.last() + 1) as usize);
            &&& n.len() > 0
            &&& n.last() > 0
            &&& n.drop_last().push((n.last() - 1) as usize) == p@
        }),
{
    let n = p@.drop_last().push((p@.last() + 1) as usize);
    assert(n.drop_last() =~= p@.drop_last());
    assert(n.drop_last().push((n.last() - 1) as usize) =~= p@);
}

} // verus!
