//! Desktop-entry files: lines, the sections they form, and the entries
//! made from sections.
use vstd::prelude::*;

use crate::entry::{opt_str, strs, ListEntry, RunFlags};
use crate::text::{find_char, first_at, has_char, trim, trim_of};

verus! {

/// The first of the first `n` pairs of `s` whose key is `k`.
pub open spec fn first_key<V>(s: Seq<(String, V)>, k: Seq<char>, n: nat) -> Option<int>
    decreases n,
{
    if n == 0 || n > s.len() {
        None
    } else {
        match first_key(s, k, (n - 1) as nat) {
            Some(i) => Some(i),
            None => if s[n - 1].0@ == k {
                Some((n - 1) as int)
            } else {
                None
            },
        }
    }
}

/// The value of the first pair of `s` whose key is `k`.
pub open spec fn value_of<V>(s: Seq<(String, V)>, k: Seq<char>) -> Option<V> {
    match first_key(s, k, s.len()) {
        Some(i) => Some(s[i].1),
        None => None,
    }
}

proof fn lemma_first_key_found<V>(s: Seq<(String, V)>, k: Seq<char>, i: int, n: nat)
    requires
        0 <= i < n <= s.len(),
        first_key(s, k, (i + 1) as nat) == Some(i),
    ensures
        first_key(s, k, n) == Some(i),
    decreases n,
{
    if n > i + 1 {
        lemma_first_key_found(s, k, i, (n - 1) as nat);
    }
}

proof fn lemma_first_key_in_range<V>(s: Seq<(String, V)>, k: Seq<char>, n: nat)
    ensures
        match first_key(s, k, n) {
            Some(i) => 0 <= i < n && i < s.len(),
            None => true,
        },
    decreases n,
{
    if n > 0 {
        lemma_first_key_in_range(s, k, (n - 1) as nat);
    }
}

proof fn lemma_first_key_is_match<V>(s: Seq<(String, V)>, k: Seq<char>, n: nat)
    ensures
        match first_key(s, k, n) {
            Some(i) => 0 <= i < s.len() && s[i].0@ == k,
            None => true,
        },
    decreases n,
{
    if n > 0 {
        lemma_first_key_is_match(s, k, (n - 1) as nat);
    }
}

proof fn lemma_first_key_push<V>(s: Seq<(String, V)>, x: (String, V), k: Seq<char>, n: nat)
    requires
        n <= s.len(),
    ensures
        first_key(s.push(x), k, n) == first_key(s, k, n),
    decreases n,
{
    if n > 0 {
        lemma_first_key_push(s, x, k, (n - 1) as nat);
    }
}

proof fn lemma_first_key_update<V>(s: Seq<(String, V)>, idx: int, x: (String, V), k: Seq<char>, n: nat)
    requires
        0 <= idx < s.len(),
        n <= s.len(),
        x.0@ == s[idx].0@,
    ensures
        first_key(s.update(idx, x), k, n) == first_key(s, k, n),
    decreases n,
{
    if n > 0 {
        lemma_first_key_update(s, idx, x, k, (n - 1) as nat);
    }
}

/// The position of the first pair of `s` whose key is `k`.
fn position<V>(s: &Vec<(String, V)>, k: &str) -> (r: Option<usize>)
    ensures
        match r {
            Some(i) => i < s@.len() && first_key(s@, k@, s@.len()) == Some(i as int),
            None => first_key(s@, k@, s@.len()).is_none(),
        },
{
    let key = String::from_str(k);
    let mut i: usize = 0;
    while i < s.len()
        invariant
            i <= s.len(),
            key@ == k@,
            first_key(s@, k@, i as nat).is_none(),
        decreases s.len() - i,
    {
        proof {
            assert(first_key(s@, k@, (i + 1) as nat) == if s@[i as int].0@ == k@ {
                Some(i as int)
            } else {
                None
            });
        }
        if s[i].0 == key {
            proof {
                lemma_first_key_found(s@, k@, i as int, s@.len());
            }
            return Some(i);
        }
        i += 1;
    }
    None
}

/// The value of one key: a plain value and values for attributes such as
/// languages.
#[derive(Debug, Default)]
pub struct FieldValue {
    pub default: Option<String>,
    pub attributes: Vec<(String, String)>,
}

/// One `[header]` section and its fields.
#[derive(Debug, Default)]
pub struct Section {
    pub header: String,
    pub fields: Vec<(String, FieldValue)>,
}

/// The value that `key`, with or without an attribute, has in `s`.
pub open spec fn field_value(s: Section, key: Seq<char>, attr: Option<Seq<char>>) -> Option<Seq<char>> {
    match value_of(s.fields@, key) {
        Some(f) => match attr {
            Some(a) => match value_of(f.attributes@, a) {
                Some(v) => Some(v@),
                None => None,
            },
            None => opt_str(f.default),
        },
        None => None,
    }
}

/// The name a section gives in language `lang`, else its plain name.
pub open spec fn section_name(s: Section, lang: Option<Seq<char>>) -> Option<Seq<char>> {
    match lang {
        Some(l) => match field_value(s, "Name"@, Some(l)) {
            Some(v) => Some(v),
            None => field_value(s, "Name"@, None),
        },
        None => field_value(s, "Name"@, None),
    }
}

/// Whether a section asks for a terminal: its `Terminal` value starts with
/// `t` or `T`.
pub open spec fn section_term(s: Section) -> bool {
    match field_value(s, "Terminal"@, None) {
        Some(v) => v.len() > 0 && (v[0] == 't' || v[0] == 'T'),
        None => false,
    }
}

/// An `Exec` value without a trailing field code such as ` %u`: where the
/// last character but one is `%`, the last three characters go; a value
/// that is nothing but a field code becomes empty.
pub open spec fn strip_field_code(e: Seq<char>) -> Seq<char> {
    if e.len() >= 3 && e[e.len() - 2] == '%' {
        e.subrange(0, e.len() - 3)
    } else if e.len() == 2 && e[0] == '%' {
        Seq::empty()
    } else {
        e
    }
}

/// The command of a section: its `TryExec` value, else its `Exec` value
/// without a trailing field code.
pub open spec fn section_cmd(s: Section) -> Option<Seq<char>> {
    match field_value(s, "TryExec"@, None) {
        Some(t) => Some(t),
        None => match field_value(s, "Exec"@, None) {
            Some(e) => Some(strip_field_code(e)),
            None => None,
        },
    }
}

impl Section {
    /// An empty section under `header`.
    pub fn new(header: String) -> (r: Self)
        ensures
            r.header@ == header@,
            r.fields@.len() == 0,
    {
        Section { header, fields: Vec::new() }
    }

    /// Whether the section has neither a header nor fields.
    pub fn is_blank(&self) -> (r: bool)
        ensures
            r == (self.header@.len() == 0 && self.fields@.len() == 0),
    {
        self.header.unicode_len() == 0 && self.fields.len() == 0
    }

    /// The plain value of field `name`.
    pub fn get_field(&self, name: &str) -> (r: Option<String>)
        ensures
            opt_str(r) == field_value(*self, name@, None),
    {
        match position(&self.fields, name) {
            Some(i) => match &self.fields[i].1.default {
                Some(d) => Some(d.clone()),
                None => None,
            },
            None => None,
        }
    }

    /// Whether the section asks for a terminal: its `Terminal` value starts
    /// with `t` or `T`.
    pub fn is_term(&self) -> (r: bool)
        ensures
            r == section_term(*self),
    {
        proof {
            reveal_strlit("Terminal");
        }
        match self.get_field("Terminal") {
            Some(v) => {
                if v.unicode_len() == 0 {
                    false
                } else {
                    let c = v.as_str().get_char(0);
                    c == 't' || c == 'T'
                }
            },
            None => false,
        }
    }

    /// The command the section runs.
    pub fn get_cmd(&self) -> (r: Option<String>)
        ensures
            opt_str(r) == section_cmd(*self),
    {
        proof {
            reveal_strlit("TryExec");
            reveal_strlit("Exec");
        }
        if let Some(t) = self.get_field("TryExec") {
            return Some(t);
        }
        let exec = self.get_field("Exec")?;
        let n = exec.unicode_len();
        if n >= 3 && exec.as_str().get_char(n - 2) == '%' {
            Some(String::from_str(exec.as_str().substring_char(0, n - 3)))
        } else if n == 2 && exec.as_str().get_char(0) == '%' {
            Some(String::new())
        } else {
            Some(exec)
        }
    }

    /// The name in language `lang` if the section has one, else the plain
    /// name.
    pub fn name(&self, lang: Option<&str>) -> (r: Option<String>)
        ensures
            opt_str(r) == section_name(*self, match lang {
                Some(l) => Some(l@),
                None => None,
            }),
    {
        proof {
            reveal_strlit("Name");
        }
        let i = position(&self.fields, "Name")?;
        let f = &self.fields[i].1;
        if let Some(l) = lang {
            if let Some(j) = position(&f.attributes, l) {
                return Some(f.attributes[j].1.clone());
            }
        }
        match &f.default {
            Some(d) => Some(d.clone()),
            None => None,
        }
    }
}

/// What a line of a desktop-entry file is.
#[derive(Debug)]
pub enum LineKind {
    SectionHeader(String),
    KeyValue { key: String, value: String, attribute: Option<String> },
    Comment(String),
    Whitespace,
}

/// A line as values.
pub enum LineView {
    Header(Seq<char>),
    Pair(Seq<char>, Seq<char>, Option<Seq<char>>),
    Remark(Seq<char>),
    Blank,
}

/// The view of a parsed line.
pub open spec fn line_view(k: LineKind) -> LineView {
    match k {
        LineKind::SectionHeader(h) => LineView::Header(h@),
        LineKind::KeyValue { key, value, attribute } => LineView::Pair(
            key@,
            value@,
            opt_str(attribute),
        ),
        LineKind::Comment(c) => LineView::Remark(c@),
        LineKind::Whitespace => LineView::Blank,
    }
}

/// A key as written, `name[attribute]` or `name`.
pub open spec fn key_view(raw_key: Seq<char>, value: Seq<char>) -> LineView {
    if has_char(raw_key, '[') && raw_key.len() >= 1 && raw_key.last() == ']' && (exists|j: int|
        first_at(raw_key, '[', j) && j + 2 <= raw_key.len()) {
        let j = choose|j: int| first_at(raw_key, '[', j);
        LineView::Pair(
            raw_key.subrange(0, j),
            value,
            Some(raw_key.subrange(j + 1, raw_key.len() - 1)),
        )
    } else {
        LineView::Pair(raw_key, value, None)
    }
}

/// What a line is, once trimmed: blank; `#` and a comment; `[header]`; or
/// `key = value`, with both sides trimmed. Anything else is no line of the
/// format.
pub open spec fn line_spec(raw: Seq<char>) -> Option<LineView> {
    let t = trim_of(raw);
    if t.len() == 0 {
        Some(LineView::Blank)
    } else if t[0] == '#' {
        Some(LineView::Remark(t.drop_first()))
    } else if t.len() >= 2 && t[0] == '[' && t.last() == ']' {
        Some(LineView::Header(t.subrange(1, t.len() - 1)))
    } else if has_char(t, '=') {
        let i = choose|i: int| first_at(t, '=', i);
        Some(key_view(trim_of(t.subrange(0, i)), trim_of(t.subrange(i + 1, t.len() as int))))
    } else {
        None
    }
}

proof fn lemma_first_unique(s: Seq<char>, c: char, i: int, j: int)
    requires
        first_at(s, c, i),
        first_at(s, c, j),
    ensures
        i == j,
{
}

/// Splits a `name[attribute]` key.
fn split_key(raw_key: String, value: String) -> (r: LineKind)
    ensures
        line_view(r) == key_view(raw_key@, value@),
{
    let n = raw_key.unicode_len();
    match find_char(raw_key.as_str(), '[') {
        Some(j) => {
            if j < n - 1 && raw_key.as_str().get_char(n - 1) == ']' {
                let key = String::from_str(raw_key.as_str().substring_char(0, j));
                let attr = String::from_str(raw_key.as_str().substring_char(j + 1, n - 1));
                proof {
                    let jj = choose|jj: int| first_at(raw_key@, '[', jj);
                    lemma_first_unique(raw_key@, '[', j as int, jj);
                }
                return LineKind::KeyValue { key, value, attribute: Some(attr) };
            }
            proof {
                assert forall|k: int| first_at(raw_key@, '[', k) implies !(k + 2 <= raw_key@.len()
                    && raw_key@.last() == ']') by {
                    lemma_first_unique(raw_key@, '[', j as int, k);
                }
            }
            LineKind::KeyValue { key: raw_key, value, attribute: None }
        },
        None => LineKind::KeyValue { key: raw_key, value, attribute: None },
    }
}

/// Reads one line of a desktop-entry file; an unreadable line is returned,
/// trimmed, as the error.
pub fn parse_line(raw: &str) -> (r: Result<LineKind, String>)
    ensures
        match r {
            Ok(k) => line_spec(raw@) == Some(line_view(k)),
            Err(e) => line_spec(raw@).is_none() && e@ == trim_of(raw@),
        },
{
    let t = trim(raw);
    let n = t.unicode_len();
    if n == 0 {
        return Ok(LineKind::Whitespace);
    }
    let first = t.as_str().get_char(0);
    if first == '#' {
        return Ok(LineKind::Comment(String::from_str(t.as_str().substring_char(1, n))));
    }
    if n >= 2 && first == '[' && t.as_str().get_char(n - 1) == ']' {
        return Ok(LineKind::SectionHeader(String::from_str(t.as_str().substring_char(1, n - 1))));
    }
    match find_char(t.as_str(), '=') {
        Some(i) => {
            proof {
                let ii = choose|ii: int| first_at(t@, '=', ii);
                lemma_first_unique(t@, '=', i as int, ii);
            }
            let raw_key = trim(t.as_str().substring_char(0, i));
            let value = trim(t.as_str().substring_char(i + 1, n));
            Ok(split_key(raw_key, value))
        },
        None => Err(t),
    }
}

/// Why a line could not be taken in.
#[derive(Debug, PartialEq, Eq, Clone)]
pub enum LineError {
    /// The line, trimmed, is none of the forms of the format.
    Unreadable(String),
    /// The key, with that attribute, already has a value in the section.
    Duplicate(String),
}

/// Reads a file line by line, handing out each section once it is
/// complete.
#[derive(Default)]
pub struct SectionReader {
    cur_section: Section,
}

impl SectionReader {
    /// The section being read.
    pub closed spec fn current(&self) -> Section {
        self.cur_section
    }

    /// A reader that has read nothing.
    pub fn new() -> (r: Self)
        ensures
            r.current().header@.len() == 0,
            r.current().fields@.len() == 0,
    {
        SectionReader { cur_section: Section::new(String::new()) }
    }

    /// Takes in one line. A header starts a new section and hands out the
    /// one before unless it was blank; a `key = value` line gives the key
    /// (with its attribute) its value, and fails if it had one; comments
    /// and blank lines change nothing; any other line fails. A failed line
    /// changes nothing.
    pub fn push(&mut self, raw_line: &str) -> (r: Result<Option<Section>, LineError>)
        ensures
            match line_spec(raw_line@) {
                None => r is Err && final(self).current() == old(self).current(),
                Some(LineView::Blank) | Some(LineView::Remark(_)) => r == Ok::<
                    Option<Section>,
                    LineError,
                >(None) && final(self).current() == old(self).current(),
                Some(LineView::Header(h)) => {
                    &&& final(self).current().header@ == h
                    &&& final(self).current().fields@.len() == 0
                    &&& match r {
                        Ok(Some(s)) => s == old(self).current() && !(s.header@.len() == 0
                            && s.fields@.len() == 0),
                        Ok(None) => old(self).current().header@.len() == 0
                            && old(self).current().fields@.len() == 0,
                        Err(_) => false,
                    }
                },
                Some(LineView::Pair(k, v, a)) => if field_value(old(self).current(), k, a).is_some() {
                    &&& r is Err
                    &&& final(self).current().header == old(self).current().header
                    &&& final(self).current().fields@ == old(self).current().fields@
                } else {
                    &&& r == Ok::<Option<Section>, LineError>(None)
                    &&& final(self).current().header == old(self).current().header
                    &&& forall|k2: Seq<char>, a2: Option<Seq<char>>|
                        #[trigger] field_value(final(self).current(), k2, a2) == if k2 == k && a2
                            == a {
                            Some(v)
                        } else {
                            field_value(old(self).current(), k2, a2)
                        }
                },
            },
    {
        match parse_line(raw_line) {
            Err(e) => Err(LineError::Unreadable(e)),
            Ok(LineKind::SectionHeader(header)) => {
                let mut old_section = Section::new(header);
                core::mem::swap(&mut self.cur_section, &mut old_section);
                if !old_section.is_blank() {
                    Ok(Some(old_section))
                } else {
                    Ok(None)
                }
            },
            Ok(LineKind::Comment(_)) | Ok(LineKind::Whitespace) => Ok(None),
            Ok(LineKind::KeyValue { key, value, attribute }) => {
                self.set_value(key, value, attribute)
            },
        }
    }

    fn set_value(&mut self, key: String, value: String, attribute: Option<String>) -> (r: Result<
        Option<Section>,
        LineError,
    >)
        ensures
            if field_value(old(self).current(), key@, opt_str(attribute)).is_some() {
                &&& r is Err
                &&& final(self).current().header == old(self).current().header
                &&& final(self).current().fields@ == old(self).current().fields@
            } else {
                &&& r == Ok::<Option<Section>, LineError>(None)
                &&& final(self).current().header == old(self).current().header
                &&& forall|k2: Seq<char>, a2: Option<Seq<char>>|
                    #[trigger] field_value(final(self).current(), k2, a2) == if k2 == key@ && a2
                        == opt_str(attribute) {
                        Some(value@)
                    } else {
                        field_value(old(self).current(), k2, a2)
                    }
            },
    {
        let ghost s0 = self.cur_section;
        let ghost fs0 = s0.fields@;
        let idx = match position(&self.cur_section.fields, key.as_str()) {
            Some(i) => i,
            None => {
                let fresh = FieldValue { default: None, attributes: Vec::new() };
                let entry = (key.clone(), fresh);
                self.cur_section.fields.push(entry);
                proof {
                    let n = fs0.len();
                    assert forall|k2: Seq<char>|
                        #[trigger] first_key(self.cur_section.fields@, k2, (n + 1) as nat) == (if k2
                            == key@ {
                            Some(n as int)
                        } else {
                            first_key(fs0, k2, n)
                        }) by {
                        lemma_first_key_push(fs0, entry, k2, n);
                    }
                    let s_new = self.cur_section;
                    assert(entry.1.attributes@.len() == 0);
                    assert forall|k2: Seq<char>, a2: Option<Seq<char>>|
                        #[trigger] field_value(s_new, k2, a2) == field_value(s0, k2, a2) by {
                        if k2 == key@ {
                            assert(value_of(s_new.fields@, k2) == Some(entry.1));
                            match a2 {
                                Some(a) => {
                                    assert(first_key(entry.1.attributes@, a, 0).is_none());
                                },
                                None => {},
                            }
                        } else {
                            assert(first_key(s_new.fields@, k2, (n + 1) as nat) == first_key(fs0, k2, n));
                            match first_key(fs0, k2, n) {
                                Some(i) => {
                                    lemma_first_key_in_range(fs0, k2, n);
                                    assert(s_new.fields@[i] == fs0[i]);
                                },
                                None => {},
                            }
                            assert(value_of(s_new.fields@, k2) == value_of(fs0, k2));
                        }
                    }
                }
                self.cur_section.fields.len() - 1
            },
        };
        let ghost s1 = self.cur_section;
        let ghost fs1 = s1.fields@;
        proof {
            assert(first_key(fs1, key@, fs1.len()) == Some(idx as int));
            assert(forall|k2: Seq<char>, a2: Option<Seq<char>>|
                #[trigger] field_value(s1, k2, a2) == field_value(s0, k2, a2));
        }
        let (k, mut f) = self.cur_section.fields.remove(idx);
        let ghost f0 = f;
        assert(f0 == fs1[idx as int].1);
        match attribute {
            Some(a) => {
                if position(&f.attributes, a.as_str()).is_some() {
                    self.cur_section.fields.insert(idx, (k, f));
                    proof {
                        assert(self.cur_section.fields@ =~= fs1);
                    }
                    return Err(LineError::Duplicate(key));
                }
                let ghost at0 = f.attributes@;
                let pair = (a, value);
                f.attributes.push(pair);
                proof {
                    assert forall|a2: Seq<char>|
                        #[trigger] first_key(f.attributes@, a2, (at0.len() + 1) as nat) == (if a2
                            == pair.0@ {
                            Some(at0.len() as int)
                        } else {
                            first_key(at0, a2, at0.len())
                        }) by {
                        lemma_first_key_push(at0, pair, a2, at0.len());
                    }
                }
            },
            None => {
                if f.default.is_some() {
                    self.cur_section.fields.insert(idx, (k, f));
                    proof {
                        assert(self.cur_section.fields@ =~= fs1);
                    }
                    return Err(LineError::Duplicate(key));
                }
                f.default = Some(value);
            },
        }
        self.cur_section.fields.insert(idx, (k, f));
        proof {
            let fs2 = self.cur_section.fields@;
            assert(fs2 =~= fs1.update(idx as int, (k, f)));
            assert forall|k2: Seq<char>| #[trigger] first_key(fs2, k2, fs1.len()) == first_key(
                fs1,
                k2,
                fs1.len(),
            ) by {
                lemma_first_key_update(fs1, idx as int, (k, f), k2, fs1.len());
            }
            assert(s0.header == self.cur_section.header);
            lemma_first_key_is_match(fs1, key@, fs1.len());
            assert(fs1[idx as int].0@ == key@);
            assert(value_of(fs2, key@) == Some(f));
            assert forall|k2: Seq<char>, a2: Option<Seq<char>>|
                #[trigger] field_value(self.cur_section, k2, a2) == if k2 == key@ && a2 == opt_str(
                    attribute,
                ) {
                    Some(value@)
                } else {
                    field_value(s1, k2, a2)
                } by {
                if k2 != key@ {
                    lemma_first_key_in_range(fs1, k2, fs1.len());
                    match first_key(fs1, k2, fs1.len()) {
                        Some(i) => {
                            assert(fs1[i].0@ == k2) by {
                                lemma_first_key_is_match(fs1, k2, fs1.len());
                            }
                            assert(i != idx);
                            assert(fs2[i] == fs1[i]);
                        },
                        None => {},
                    }
                } else {
                    match a2 {
                        Some(a) => {
                            match attribute {
                                Some(at) => {
                                    let at0 = f0.attributes@;
                                    lemma_first_key_in_range(at0, a, at0.len());
                                    if a != at@ {
                                        match first_key(at0, a, at0.len()) {
                                            Some(j) => {
                                                assert(f.attributes@[j] == at0[j]);
                                            },
                                            None => {},
                                        }
                                    }
                                },
                                None => {
                                    assert(f.attributes == f0.attributes);
                                },
                            }
                        },
                        None => {},
                    }
                }
            }
        }
        Ok(None)
    }

    /// The section being read, unless it is blank.
    pub fn finish(self) -> (r: Option<Section>)
        ensures
            match r {
                Some(s) => s == self.current() && !(s.header@.len() == 0 && s.fields@.len()
                    == 0),
                None => self.current().header@.len() == 0 && self.current().fields@.len() == 0,
            },
    {
        if !self.cur_section.is_blank() {
            Some(self.cur_section)
        } else {
            None
        }
    }
}

/// The words found in the first `k` characters of `s`, and the word being
/// read, when every space ends a word.
pub open spec fn split_scan(s: Seq<char>, k: nat) -> (Seq<Seq<char>>, Seq<char>)
    decreases k,
{
    if k == 0 || k > s.len() {
        (Seq::empty(), Seq::empty())
    } else {
        let (w, cur) = split_scan(s, (k - 1) as nat);
        if s[k - 1] == ' ' {
            (w.push(cur), Seq::empty())
        } else {
            (w, cur.push(s[k - 1]))
        }
    }
}

/// The parts of `s` between single spaces, empty parts included: always at
/// least one.
pub open spec fn space_split(s: Seq<char>) -> Seq<Seq<char>> {
    split_scan(s, s.len()).0.push(split_scan(s, s.len()).1)
}

/// Splits `s` at every space, keeping empty parts.
pub fn split_spaces(s: &str) -> (r: Vec<String>)
    ensures
        strs(r@) == space_split(s@),
{
    let n = s.unicode_len();
    let mut words: Vec<String> = Vec::new();
    let mut cur = String::new();
    let mut i: usize = 0;
    while i < n
        invariant
            n == s@.len(),
            i <= n,
            split_scan(s@, i as nat) == (strs(words@), cur@),
        decreases n - i,
    {
        let c = s.get_char(i);
        let ghost w0 = strs(words@);
        let ghost c0 = cur@;
        if c == ' ' {
            let done = cur;
            words.push(done);
            cur = String::new();
            assert(strs(words@) =~= w0.push(c0));
        } else {
            let one = s.substring_char(i, i + 1);
            cur.append(one);
            assert(cur@ =~= c0.push(c));
        }
        i += 1;
    }
    let ghost w0 = strs(words@);
    let ghost c0 = cur@;
    words.push(cur);
    assert(strs(words@) =~= w0.push(c0));
    words
}

/// Why a section gives no entry.
#[derive(Debug, PartialEq, Eq, Structural, Clone, Copy)]
pub enum EntryError {
    /// The section has no name.
    NoName,
    /// The section has neither `TryExec` nor `Exec`.
    NoCommand,
}

/// The entry for a section: its name (in `language` where it has one),
/// its command split at spaces, the terminal flag it asks for, and the name
/// and the program as search terms.
pub fn section_to_entry(section: &Section, language: Option<&str>) -> (r: Result<
    ListEntry,
    EntryError,
>)
    ensures
        ({
            let lang = match language {
                Some(l) => Some(l@),
                None => None,
            };
            match r {
                Ok(e) => {
                    &&& section_name(*section, lang).is_some()
                    &&& section_cmd(*section).is_some()
                    &&& opt_str(e.display_name) == section_name(*section, lang)
                    &&& strs(e.exec_command@) == space_split(section_cmd(*section).unwrap())
                    &&& strs(e.search_terms@) == seq![
                        section_name(*section, lang).unwrap(),
                        space_split(section_cmd(*section).unwrap())[0],
                    ]
                    &&& e.exec_flags.term() == section_term(*section)
                    &&& !e.exec_flags.fork()
                    &&& e.children@.len() == 0
                },
                Err(EntryError::NoName) => section_name(*section, lang).is_none(),
                Err(EntryError::NoCommand) => section_name(*section, lang).is_some()
                    && section_cmd(*section).is_none(),
            }
        }),
{
    let display_name = match section.name(language) {
        Some(n) => n,
        None => match section.name(None) {
            Some(n) => n,
            None => {
                return Err(EntryError::NoName);
            },
        },
    };
    let exec_flags = RunFlags::new().with_term(section.is_term());
    let cmd = match section.get_cmd() {
        Some(c) => c,
        None => {
            return Err(EntryError::NoCommand);
        },
    };
    let exec_command = split_spaces(cmd.as_str());
    assert(strs(exec_command@).len() == exec_command@.len());
    let mut search_terms: Vec<String> = Vec::new();
    search_terms.push(display_name.clone());
    search_terms.push(exec_command[0].clone());
    proof {
        assert(strs(search_terms@) =~= seq![display_name@, strs(exec_command@)[0]]);
    }
    Ok(ListEntry {
        display_name: Some(display_name),
        exec_command,
        exec_flags,
        search_terms,
        children: Vec::new(),
    })
}

} // verus!
