//! Fingerprints of entries that share a command, and how two of them compare.
use vstd::prelude::*;

use crate::entry::{copy_strings, opt_str, strs, ListEntry};
use crate::path::EntryPath;

verus! {

/// How one fingerprint relates to another.
#[derive(Debug, PartialEq, Eq, Structural, Hash, Clone, Copy)]
pub enum SetCmp {
    Superset,
    Subset,
    Equal,
    Disjoint,
}

/// Chains two verdicts: disjoint wins, opposite directions give disjoint,
/// otherwise the stronger direction is kept.
pub open spec fn combine_spec(a: SetCmp, b: SetCmp) -> SetCmp {
    match (a, b) {
        (SetCmp::Disjoint, _) | (_, SetCmp::Disjoint) => SetCmp::Disjoint,
        (SetCmp::Superset, SetCmp::Subset) | (SetCmp::Subset, SetCmp::Superset) => SetCmp::Disjoint,
        (SetCmp::Subset, _) | (SetCmp::Equal, SetCmp::Subset) => SetCmp::Subset,
        (SetCmp::Superset, _) | (SetCmp::Equal, SetCmp::Superset) => SetCmp::Superset,
        (SetCmp::Equal, SetCmp::Equal) => SetCmp::Equal,
    }
}

/// How set `a` relates to set `b`.
pub open spec fn set_rel(a: Set<Seq<char>>, b: Set<Seq<char>>) -> SetCmp {
    if a == b {
        SetCmp::Equal
    } else if a.subset_of(b) {
        SetCmp::Subset
    } else if b.subset_of(a) {
        SetCmp::Superset
    } else {
        SetCmp::Disjoint
    }
}

/// The set of strings held by `v`.
pub open spec fn str_set(v: Seq<String>) -> Set<Seq<char>> {
    strs(v).to_set()
}

/// Whether `s` equals one of the strings of `v`.
fn holds_string(v: &Vec<String>, s: &String) -> (r: bool)
    ensures
        r == str_set(v@).contains(s@),
{
    let mut i: usize = 0;
    while i < v.len()
        invariant
            i <= v.len(),
            forall|k: int| 0 <= k < i ==> v@[k]@ != s@,
        decreases v.len() - i,
    {
        if v[i] == *s {
            assert(strs(v@)[i as int] == s@);
            return true;
        }
        i += 1;
    }
    assert(!strs(v@).contains(s@)) by {
        if strs(v@).contains(s@) {
            let k = choose|k: int| 0 <= k < strs(v@).len() && strs(v@)[k] == s@;
            assert(v@[k]@ == s@);
        }
    }
    false
}

/// Whether every string of `a` is one of `b`.
fn all_held(a: &Vec<String>, b: &Vec<String>) -> (r: bool)
    ensures
        r == str_set(a@).subset_of(str_set(b@)),
{
    let mut i: usize = 0;
    while i < a.len()
        invariant
            i <= a.len(),
            forall|k: int| 0 <= k < i ==> str_set(b@).contains(#[trigger] a@[k]@),
        decreases a.len() - i,
    {
        if !holds_string(b, &a[i]) {
            assert(str_set(a@).contains(a@[i as int]@)) by {
                assert(strs(a@)[i as int] == a@[i as int]@);
            }
            return false;
        }
        i += 1;
    }
    assert forall|x: Seq<char>| str_set(a@).contains(x) implies str_set(b@).contains(x) by {
        let k = choose|k: int| 0 <= k < strs(a@).len() && strs(a@)[k] == x;
        assert(a@[k]@ == x);
    }
    true
}

impl SetCmp {
    /// How the set of strings in `lhs` relates to the set of strings in `rhs`.
    pub fn set_relationship(lhs: &Vec<String>, rhs: &Vec<String>) -> (r: SetCmp)
        ensures
            r == set_rel(str_set(lhs@), str_set(rhs@)),
    {
        let sub = all_held(lhs, rhs);
        let sup = all_held(rhs, lhs);
        if sub && sup {
            assert(str_set(lhs@) =~= str_set(rhs@));
            SetCmp::Equal
        } else if sub {
            SetCmp::Subset
        } else if sup {
            SetCmp::Superset
        } else {
            SetCmp::Disjoint
        }
    }

    /// Chains this verdict with the verdict `next` of a further axis.
    pub fn combine(&self, next: SetCmp) -> (r: SetCmp)
        ensures
            r == combine_spec(*self, next),
    {
        match (*self, next) {
            (SetCmp::Disjoint, _) | (_, SetCmp::Disjoint) => SetCmp::Disjoint,
            (SetCmp::Superset, SetCmp::Subset) | (SetCmp::Subset, SetCmp::Superset) => {
                SetCmp::Disjoint
            },
            (SetCmp::Subset, _) | (SetCmp::Equal, SetCmp::Subset) => SetCmp::Subset,
            (SetCmp::Superset, _) | (SetCmp::Equal, SetCmp::Superset) => SetCmp::Superset,
            (SetCmp::Equal, SetCmp::Equal) => SetCmp::Equal,
        }
    }

    /// Like `combine`, computing the next verdict only when this one is not
    /// already disjoint.
    pub fn then_with<F: FnOnce() -> SetCmp>(&self, next: F) -> (r: SetCmp)
        requires
            *self != SetCmp::Disjoint ==> next.requires(()),
        ensures
            *self == SetCmp::Disjoint ==> r == SetCmp::Disjoint,
            *self != SetCmp::Disjoint ==> exists|n: SetCmp|
                next.ensures((), n) && r == combine_spec(*self, n),
    {
        if *self == SetCmp::Disjoint {
            SetCmp::Disjoint
        } else {
            let n = next();
            self.combine(n)
        }
    }
}

/// What is remembered of an entry of the catalog to find its duplicates.
#[derive(Debug)]
pub struct DedupMetadata {
    pub path: EntryPath,
    pub display_name: Option<String>,
    pub children: usize,
    pub search_terms: Vec<String>,
}

/// Display names: different names are unrelated, a name is more than none.
pub open spec fn name_cmp(a: Option<Seq<char>>, b: Option<Seq<char>>) -> SetCmp {
    match (a, b) {
        (Some(x), Some(y)) => if x != y {
            SetCmp::Disjoint
        } else {
            SetCmp::Equal
        },
        (Some(_), None) => SetCmp::Superset,
        (None, Some(_)) => SetCmp::Subset,
        (None, None) => SetCmp::Equal,
    }
}

/// Position: a child is more than a root, a root less than a child, two
/// children are unrelated, two roots equal.
pub open spec fn child_cmp(a: bool, b: bool) -> SetCmp {
    if a && b {
        SetCmp::Disjoint
    } else if a {
        SetCmp::Superset
    } else if b {
        SetCmp::Subset
    } else {
        SetCmp::Equal
    }
}

/// Children: having some is more than having none; two with children are
/// unrelated.
pub open spec fn breadth_cmp(a: bool, b: bool) -> SetCmp {
    if a && b {
        SetCmp::Disjoint
    } else if a {
        SetCmp::Superset
    } else if b {
        SetCmp::Subset
    } else {
        SetCmp::Equal
    }
}

impl DedupMetadata {
    /// Whether the fingerprinted entry is below the root level.
    pub open spec fn child_spec(&self) -> bool {
        self.path@.len() > 1
    }

    /// The verdict of fingerprint `self` against `other`, axis by axis.
    pub open spec fn compare_spec(&self, other: &DedupMetadata) -> SetCmp {
        combine_spec(
            combine_spec(
                combine_spec(
                    name_cmp(opt_str(self.display_name), opt_str(other.display_name)),
                    child_cmp(self.child_spec(), other.child_spec()),
                ),
                breadth_cmp(self.children != 0, other.children != 0),
            ),
            set_rel(str_set(self.search_terms@), str_set(other.search_terms@)),
        )
    }

    /// The fingerprint of `entry`, which stands at `path`.
    pub fn new(path: EntryPath, entry: &ListEntry) -> (r: Self)
        ensures
            r.path@ == path@,
            opt_str(r.display_name) == opt_str(entry.display_name),
            r.children == entry.children.len(),
            strs(r.search_terms@) == strs(entry.search_terms@),
    {
        DedupMetadata {
            path,
            display_name: match &entry.display_name {
                Some(s) => Some(s.clone()),
                None => None,
            },
            children: entry.children.len(),
            search_terms: copy_strings(&entry.search_terms),
        }
    }

    /// Whether the entry had children.
    pub fn has_children(&self) -> (r: bool)
        ensures
            r == (self.children != 0),
    {
        self.children != 0
    }

    /// The entry's depth below the root level.
    pub fn level(&self) -> (r: usize)
        requires
            self.path@.len() > 0,
        ensures
            r == self.path@.len() - 1,
    {
        self.path.level() - 1
    }

    /// Whether the entry is below the root level.
    pub fn is_child(&self) -> (r: bool)
        requires
            self.path@.len() > 0,
        ensures
            r == self.child_spec(),
    {
        self.level() != 0
    }

    /// The verdict of this fingerprint against `other`.
    pub fn compare(&self, other: &Self) -> (r: SetCmp)
        requires
            self.path@.len() > 0,
            other.path@.len() > 0,
        ensures
            r == self.compare_spec(other),
    {
        let by_name = match (&self.display_name, &other.display_name) {
            (Some(a), Some(b)) => if *a != *b {
                SetCmp::Disjoint
            } else {
                SetCmp::Equal
            },
            (Some(_), None) => SetCmp::Superset,
            (None, Some(_)) => SetCmp::Subset,
            (None, None) => SetCmp::Equal,
        };
        let a = self.is_child();
        let b = other.is_child();
        let by_position = if a && b {
            SetCmp::Disjoint
        } else if a {
            SetCmp::Superset
        } else if b {
            SetCmp::Subset
        } else {
            SetCmp::Equal
        };
        let c = by_name.combine(by_position);
        let a = self.has_children();
        let b = other.has_children();
        let by_breadth = if a && b {
            SetCmp::Disjoint
        } else if a {
            SetCmp::Superset
        } else if b {
            SetCmp::Subset
        } else {
            SetCmp::Equal
        };
        let c = c.combine(by_breadth);
        if c == SetCmp::Disjoint {
            return SetCmp::Disjoint;
        }
        c.combine(SetCmp::set_relationship(&self.search_terms, &other.search_terms))
    }
}

} // verus!
