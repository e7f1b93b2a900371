//! Launchable entries, the forest they form, and walks over it.
use vstd::prelude::*;

use crate::path::{depth_first_cmp, EntryPath, MAX_DEPTH};
use crate::text::{file_name, file_name_of};

verus! {

/// Launch hints: whether the command needs a terminal around it, and whether
/// the launcher should fork before running it.
#[derive(Debug, Clone, Copy, PartialEq, Eq, Structural, Hash, PartialOrd, Ord, Default)]
pub struct RunFlags(u16);

impl RunFlags {
    /// Whether the terminal bit is set.
    pub closed spec fn term(self) -> bool {
        self.0 & 1u16 != 0
    }

    /// Whether the fork bit is set.
    pub closed spec fn fork(self) -> bool {
        self.0 & 2u16 != 0
    }

    /// No flag set.
    pub fn new() -> (r: Self)
        ensures
            !r.term(),
            !r.fork(),
    {
        assert(0u16 & 1u16 == 0 && 0u16 & 2u16 == 0) by (bit_vector);
        RunFlags(0)
    }

    /// Whether the command needs a terminal.
    pub fn is_term(self) -> (r: bool)
        ensures
            r == self.term(),
    {
        self.0 & 1 != 0
    }

    /// Sets or clears the terminal bit, leaving the fork bit as it was.
    pub fn set_term(&mut self, value: bool)
        ensures
            final(self).term() == value,
            final(self).fork() == old(self).fork(),
    {
        let x = self.0;
        if value {
            assert((x | 1u16) & 1u16 != 0 && ((x | 1u16) & 2u16 != 0) == (x & 2u16 != 0))
                by (bit_vector);
            self.0 = x | 1;
        } else {
            assert((x & !1u16) & 1u16 == 0 && ((x & !1u16) & 2u16 != 0) == (x & 2u16 != 0))
                by (bit_vector);
            self.0 = x & !1u16;
        }
    }

    /// These flags with the terminal bit set to `value`.
    pub fn with_term(self, value: bool) -> (r: Self)
        ensures
            r.term() == value,
            r.fork() == self.fork(),
    {
        let mut r = self;
        r.set_term(value);
        r
    }

    /// Whether the launcher should fork first.
    pub fn should_fork(&self) -> (r: bool)
        ensures
            r == self.fork(),
    {
        self.0 & 2 != 0
    }

    /// Sets or clears the fork bit, leaving the terminal bit as it was.
    pub fn set_should_fork(&mut self, value: bool)
        ensures
            final(self).fork() == value,
            final(self).term() == old(self).term(),
    {
        let x = self.0;
        if value {
            assert((x | 2u16) & 2u16 != 0 && ((x | 2u16) & 1u16 != 0) == (x & 1u16 != 0))
                by (bit_vector);
            self.0 = x | 2;
        } else {
            assert((x & !2u16) & 2u16 == 0 && ((x & !2u16) & 1u16 != 0) == (x & 1u16 != 0))
                by (bit_vector);
            self.0 = x & !2u16;
        }
    }

    /// These flags with the fork bit set to `value`.
    pub fn with_should_fork(self, value: bool) -> (r: Self)
        ensures
            r.fork() == value,
            r.term() == self.term(),
    {
        let mut r = self;
        r.set_should_fork(value);
        r
    }
}

/// One launchable item, with the related items nested under it.
#[derive(Debug, Default)]
pub struct ListEntry {
    pub display_name: Option<String>,
    pub search_terms: Vec<String>,
    pub exec_command: Vec<String>,
    pub exec_flags: RunFlags,
    pub children: Vec<ListEntry>,
}

/// The characters of each string.
pub open spec fn strs(v: Seq<String>) -> Seq<Seq<char>> {
    v.map_values(|s: String| s@)
}

/// The characters of an optional string.
pub open spec fn opt_str(o: Option<String>) -> Option<Seq<char>> {
    match o {
        Some(s) => Some(s@),
        None => None,
    }
}

/// Two entries hold the same text, flags and children, all the way down.
pub open spec fn same_entry(a: ListEntry, b: ListEntry) -> bool
    decreases a,
{
    &&& opt_str(a.display_name) == opt_str(b.display_name)
    &&& strs(a.search_terms@) == strs(b.search_terms@)
    &&& strs(a.exec_command@) == strs(b.exec_command@)
    &&& a.exec_flags == b.exec_flags
    &&& a.children.len() == b.children.len()
    &&& forall|i: int|
        0 <= i < a.children.len() ==> same_entry(#[trigger] a.children@[i], b.children@[i])
}

/// Two forests hold the same entries in the same order.
pub open spec fn same_forest(a: Seq<ListEntry>, b: Seq<ListEntry>) -> bool {
    &&& a.len() == b.len()
    &&& forall|i: int| 0 <= i < a.len() ==> same_entry(#[trigger] a[i], b[i])
}

/// The name of the program that an entry launches: the last component of the
/// first word of its command, or that word itself if it has none.
pub open spec fn exec_name_of(e: ListEntry) -> Option<Seq<char>> {
    if e.exec_command.len() == 0 {
        None
    } else {
        let raw = e.exec_command@[0]@;
        match file_name_of(raw) {
            Some(n) => Some(n),
            None => Some(raw),
        }
    }
}

/// The name shown for an entry: its display name, else its program's name,
/// else nothing.
pub open spec fn name_of(e: ListEntry) -> Seq<char> {
    match e.display_name {
        Some(n) => n@,
        None => match exec_name_of(e) {
            Some(n) => n,
            None => Seq::empty(),
        },
    }
}

/// A copy of each string.
pub fn copy_strings(v: &Vec<String>) -> (r: Vec<String>)
    ensures
        strs(r@) == strs(v@),
{
    let mut r: Vec<String> = Vec::new();
    let mut i: usize = 0;
    while i < v.len()
        invariant
            i <= v.len(),
            r.len() == i,
            forall|k: int| 0 <= k < i ==> #[trigger] r@[k]@ == v@[k]@,
        decreases v.len() - i,
    {
        r.push(v[i].clone());
        i += 1;
    }
    assert(strs(r@) =~= strs(v@));
    r
}

impl ListEntry {
    /// A copy of this entry and everything under it.
    pub fn duplicate(&self) -> (r: ListEntry)
        ensures
            same_entry(r, *self),
        decreases self,
    {
        let display_name = match &self.display_name {
            Some(s) => Some(s.clone()),
            None => None,
        };
        let mut children: Vec<ListEntry> = Vec::new();
        let mut j: usize = 0;
        while j < self.children.len()
            invariant
                j <= self.children.len(),
                children.len() == j,
                forall|k: int|
                    0 <= k < j ==> same_entry(#[trigger] children@[k], self.children@[k]),
            decreases self.children.len() - j,
        {
            children.push(self.children[j].duplicate());
            j += 1;
        }
        ListEntry {
            display_name,
            search_terms: copy_strings(&self.search_terms),
            exec_command: copy_strings(&self.exec_command),
            exec_flags: self.exec_flags,
            children,
        }
    }

    /// The name shown for this entry.
    pub fn name(&self) -> (r: String)
        ensures
            r@ == name_of(*self),
    {
        match &self.display_name {
            Some(n) => n.clone(),
            None => match self.exec_name() {
                Some(n) => n,
                None => String::new(),
            },
        }
    }

    /// The name of the program this entry launches, if it has a command.
    pub fn exec_name(&self) -> (r: Option<String>)
        ensures
            opt_str(r) == exec_name_of(*self),
    {
        if self.exec_command.len() == 0 {
            return None;
        }
        let raw = &self.exec_command[0];
        match file_name(raw.as_str()) {
            Some(n) => Some(n),
            None => Some(raw.clone()),
        }
    }
}

} // verus!
