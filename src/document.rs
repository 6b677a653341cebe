use vstd::prelude::*;
use vstd::string::StrSliceExecFns;

use crate::text::{chars_of, trim, trim_bounds};
use crate::value::{infer, infer_value, IniValue, IniValueView};

verus! {

/// Why a document could not be read.
#[derive(Debug, Clone, Copy, PartialEq, Eq, Structural)]
pub enum IniError {
    /// A line opens a section header with `[` but does not end with `]`.
    UnterminatedSectionHeader,
    /// A key-value line holds no `=`.
    MalformedKeyValue,
}

/// The keys of a section, each with its typed value.
pub type SectionModel = Map<Seq<char>, IniValueView>;

/// The sections of a document by name.
pub type DocModel = Map<Seq<char>, SectionModel>;

/// No two entries of `s` have the same name.
pub open spec fn keys_unique<V>(s: Seq<(String, V)>) -> bool {
    forall|i: int, j: int|
        0 <= i < s.len() && 0 <= j < s.len() && i != j ==> (#[trigger] s[i]).0@ != (
        #[trigger] s[j]).0@
}

/// The map from name to value that a list of named entries stands for.
pub open spec fn assoc_map<V: View>(s: Seq<(String, V)>) -> Map<Seq<char>, V::V>
    decreases s.len(),
{
    if s.len() == 0 {
        Map::empty()
    } else {
        assoc_map(s.drop_last()).insert(s.last().0@, s.last().1@)
    }
}

proof fn lemma_assoc_lookup<V: View>(s: Seq<(String, V)>, i: int)
    requires
        keys_unique(s),
        0 <= i < s.len(),
    ensures
        assoc_map(s).contains_key(s[i].0@),
        assoc_map(s)[s[i].0@] == s[i].1@,
    decreases s.len(),
{
    if i < s.len() - 1 {
        let d = s.drop_last();
        assert(d[i] == s[i]);
        assert(keys_unique(d)) by {
            assert forall|a: int, b: int|
                0 <= a < d.len() && 0 <= b < d.len() && a != b implies (#[trigger] d[a]).0@ != (
                #[trigger] d[b]).0@ by {
                assert(d[a] == s[a] && d[b] == s[b]);
            }
        }
        lemma_assoc_lookup(d, i);
        assert(s[s.len() - 1].0@ != s[i].0@);
    }
}

proof fn lemma_assoc_absent<V: View>(s: Seq<(String, V)>, k: Seq<char>)
    requires
        forall|i: int| 0 <= i < s.len() ==> (#[trigger] s[i]).0@ != k,
    ensures
        !assoc_map(s).contains_key(k),
    decreases s.len(),
{
    if s.len() > 0 {
        let d = s.drop_last();
        assert forall|i: int| 0 <= i < d.len() implies (#[trigger] d[i]).0@ != k by {
            assert(d[i] == s[i]);
        }
        lemma_assoc_absent(d, k);
        assert(s[s.len() - 1].0@ != k);
    }
}

proof fn lemma_assoc_update<V: View>(s: Seq<(String, V)>, i: int, e: (String, V))
    requires
        keys_unique(s),
        0 <= i < s.len(),
        e.0@ == s[i].0@,
    ensures
        keys_unique(s.update(i, e)),
        assoc_map(s.update(i, e)) == assoc_map(s).insert(e.0@, e.1@),
    decreases s.len(),
{
    let u = s.update(i, e);
    assert forall|a: int, b: int|
        0 <= a < u.len() && 0 <= b < u.len() && a != b implies (#[trigger] u[a]).0@ != (
        #[trigger] u[b]).0@ by {
        assert(u[a].0@ == s[a].0@ && u[b].0@ == s[b].0@);
    }
    let d = s.drop_last();
    let last = s.len() - 1;
    if i == last {
        assert(u.drop_last() =~= d);
        assert(assoc_map(u) =~= assoc_map(s).insert(e.0@, e.1@));
    } else {
        assert(keys_unique(d)) by {
            assert forall|a: int, b: int|
                0 <= a < d.len() && 0 <= b < d.len() && a != b implies (#[trigger] d[a]).0@ != (
                #[trigger] d[b]).0@ by {
                assert(d[a] == s[a] && d[b] == s[b]);
            }
        }
        lemma_assoc_update(d, i, e);
        assert(u.drop_last() =~= d.update(i, e));
        assert(u.last() == s.last());
        assert(s[last].0@ != s[i].0@);
        assert(assoc_map(u) =~= assoc_map(s).insert(e.0@, e.1@));
    }
}

proof fn lemma_assoc_push<V: View>(s: Seq<(String, V)>, e: (String, V))
    requires
        keys_unique(s),
        forall|i: int| 0 <= i < s.len() ==> (#[trigger] s[i]).0@ != e.0@,
    ensures
        keys_unique(s.push(e)),
        assoc_map(s.push(e)) == assoc_map(s).insert(e.0@, e.1@),
{
    let p = s.push(e);
    assert(p.drop_last() =~= s);
    assert forall|a: int, b: int|
        0 <= a < p.len() && 0 <= b < p.len() && a != b implies (#[trigger] p[a]).0@ != (
        #[trigger] p[b]).0@ by {
        if a < s.len() {
            assert(p[a] == s[a]);
        }
        if b < s.len() {
            assert(p[b] == s[b]);
        }
    }
}

/// The keys of one section, each with its typed value.
#[derive(Debug, Clone)]
pub struct Section {
    entries: Vec<(String, IniValue)>,
}

impl View for Section {
    type V = SectionModel;

    closed spec fn view(&self) -> SectionModel {
        assoc_map(self.entries@)
    }
}

impl Section {
    /// Each key stands in the section once.
    pub closed spec fn well_formed(&self) -> bool {
        keys_unique(self.entries@)
    }

    /// A section with no keys.
    pub fn new() -> (r: Section)
        ensures
            r.well_formed(),
            r@ == SectionModel::empty(),
    {
        Section { entries: Vec::new() }
    }

    /// The position of `key` among the entries, if it is there.
    fn position(&self, key: &String) -> (r: Option<usize>)
        requires
            self.well_formed(),
        ensures
            match r {
                Some(i) => i < self.entries@.len() && self.entries@[i as int].0@ == key@,
                None => !self@.contains_key(key@),
            },
    {
        let mut i: usize = 0;
        while i < self.entries.len()
            invariant
                i <= self.entries@.len(),
                forall|j: int| 0 <= j < i ==> (#[trigger] self.entries@[j]).0@ != key@,
            decreases self.entries@.len() - i,
        {
            if self.entries[i].0 == *key {
                return Some(i);
            }
            i = i + 1;
        }
        proof {
            lemma_assoc_absent(self.entries@, key@);
        }
        None
    }

    /// The value of `key`, if the section has it.
    pub fn get(&self, key: &str) -> (r: Option<&IniValue>)
        requires
            self.well_formed(),
        ensures
            match r {
                Some(v) => self@.contains_key(key@) && self@[key@] == v@,
                None => !self@.contains_key(key@),
            },
    {
        let k = key.to_owned();
        match self.position(&k) {
            Some(i) => {
                proof {
                    lemma_assoc_lookup(self.entries@, i as int);
                }
                Some(&self.entries[i].1)
            },
            None => None,
        }
    }

    /// Whether the section has no keys.
    pub fn is_empty(&self) -> (r: bool)
        requires
            self.well_formed(),
        ensures
            r == (self@ == SectionModel::empty()),
    {
        if self.entries.len() == 0 {
            assert(self@ =~= SectionModel::empty());
            true
        } else {
            proof {
                lemma_assoc_lookup(self.entries@, 0);
            }
            assert(!(self@ =~= SectionModel::empty()));
            false
        }
    }

    /// The entries, each key once, in the order in which the keys first came.
    pub fn entries(&self) -> (r: &Vec<(String, IniValue)>)
        requires
            self.well_formed(),
        ensures
            keys_unique(r@),
            assoc_map(r@) == self@,
    {
        &self.entries
    }

    /// Sets `key` to `value`, replacing the value it had.
    fn insert(&mut self, key: String, value: IniValue)
        requires
            old(self).well_formed(),
        ensures
            final(self).well_formed(),
            final(self)@ == old(self)@.insert(key@, value@),
    {
        match self.position(&key) {
            Some(i) => {
                proof {
                    lemma_assoc_update(self.entries@, i as int, (key, value));
                }
                self.entries.set(i, (key, value));
            },
            None => {
                proof {
                    assert forall|j: int| 0 <= j < self.entries@.len() implies (
                    #[trigger] self.entries@[j]).0@ != key@ by {
                        if self.entries@[j].0@ == key@ {
                            lemma_assoc_lookup(self.entries@, j);
                        }
                    }
                    lemma_assoc_push(self.entries@, (key, value));
                }
                self.entries.push((key, value));
            },
        }
    }
}

/// The section named `name` in `doc`, or an empty one if there is none.
pub open spec fn section_of(doc: DocModel, name: Seq<char>) -> SectionModel {
    if doc.contains_key(name) {
        doc[name]
    } else {
        SectionModel::empty()
    }
}

/// A parsed document: its sections by name.
#[derive(Debug, Clone)]
pub struct Ini {
    sections: Vec<(String, Section)>,
}

impl View for Ini {
    type V = DocModel;

    closed spec fn view(&self) -> DocModel {
        assoc_map(self.sections@)
    }
}

impl Ini {
    /// Each section name stands once, and each section is well formed.
    pub closed spec fn well_formed(&self) -> bool {
        &&& keys_unique(self.sections@)
        &&& forall|i: int| 0 <= i < self.sections@.len() ==> (#[trigger] self.sections@[i]).1.well_formed()
    }

    fn empty() -> (r: Ini)
        ensures
            r.well_formed(),
            r@ == DocModel::empty(),
    {
        Ini { sections: Vec::new() }
    }

    /// The position of the section `name`, if it is there.
    fn position(&self, name: &String) -> (r: Option<usize>)
        requires
            self.well_formed(),
        ensures
            match r {
                Some(i) => i < self.sections@.len() && self.sections@[i as int].0@ == name@,
                None => !self@.contains_key(name@),
            },
    {
        let mut i: usize = 0;
        while i < self.sections.len()
            invariant
                i <= self.sections@.len(),
                forall|j: int| 0 <= j < i ==> (#[trigger] self.sections@[j]).0@ != name@,
            decreases self.sections@.len() - i,
        {
            if self.sections[i].0 == *name {
                return Some(i);
            }
            i = i + 1;
        }
        proof {
            lemma_assoc_absent(self.sections@, name@);
        }
        None
    }

    /// The section `name`, if the document has it.
    pub fn section(&self, name: &str) -> (r: Option<&Section>)
        requires
            self.well_formed(),
        ensures
            match r {
                Some(s) => s.well_formed() && self@.contains_key(name@) && self@[name@] == s@,
                None => !self@.contains_key(name@),
            },
    {
        let n = name.to_owned();
        match self.position(&n) {
            Some(i) => {
                proof {
                    lemma_assoc_lookup(self.sections@, i as int);
                }
                Some(&self.sections[i].1)
            },
            None => None,
        }
    }

    /// The value of `key` in the section `name`, if there is one.
    pub fn get(&self, name: &str, key: &str) -> (r: Option<&IniValue>)
        requires
            self.well_formed(),
        ensures
            match r {
                Some(v) => self@.contains_key(name@) && self@[name@].contains_key(key@)
                    && self@[name@][key@] == v@,
                None => !(self@.contains_key(name@) && self@[name@].contains_key(key@)),
            },
    {
        match self.section(name) {
            Some(s) => s.get(key),
            None => None,
        }
    }

    /// The sections, each name once, in the order in which the names first
    /// received a key.
    pub fn sections(&self) -> (r: &Vec<(String, Section)>)
        requires
            self.well_formed(),
        ensures
            keys_unique(r@),
            forall|i: int| 0 <= i < r@.len() ==> (#[trigger] r@[i]).1.well_formed(),
            assoc_map(r@) == self@,
    {
        &self.sections
    }

    /// Sets `key` to `value` in the section `name`, which is made if it is
    /// not there yet.
    fn insert_value(&mut self, name: &String, key: String, value: IniValue)
        requires
            old(self).well_formed(),
        ensures
            final(self).well_formed(),
            final(self)@ == old(self)@.insert(
                name@,
                section_of(old(self)@, name@).insert(key@, value@),
            ),
    {
        match self.position(name) {
            Some(i) => {
                let ghost before = self.sections@;
                proof {
                    lemma_assoc_lookup(self.sections@, i as int);
                }
                self.sections[i].1.insert(key, value);
                proof {
                    lemma_assoc_update(before, i as int, self.sections@[i as int]);
                    assert(self.sections@ =~= before.update(i as int, self.sections@[i as int]));
                }
            },
            None => {
                let mut sec = Section::new();
                sec.insert(key, value);
                proof {
                    assert forall|j: int| 0 <= j < self.sections@.len() implies (
                    #[trigger] self.sections@[j]).0@ != name@ by {
                        if self.sections@[j].0@ == name@ {
                            lemma_assoc_lookup(self.sections@, j);
                        }
                    }
                }
                let entry = (name.clone(), sec);
                proof {
                    lemma_assoc_push(self.sections@, entry);
                }
                self.sections.push(entry);
            },
        }
    }
}

/// `p` is the position of the first `=` in `line`.
pub open spec fn first_equals(line: Seq<char>, p: int) -> bool {
    &&& 0 <= p < line.len()
    &&& line[p] == '='
    &&& forall|k: int| 0 <= k < p ==> line[k] != '='
}

/// The line holds an `=`.
pub open spec fn has_equals(line: Seq<char>) -> bool {
    exists|p: int| first_equals(line, p)
}

/// The trimmed key and value text of a line that holds an `=`, split at its
/// first `=`.
pub open spec fn split_key_value(line: Seq<char>) -> (Seq<char>, Seq<char>) {
    let p = choose|p: int| first_equals(line, p);
    (trim(line.take(p)), trim(line.skip(p + 1)))
}

/// A blank line or a comment.
pub open spec fn is_ignored(line: Seq<char>) -> bool {
    line.len() == 0 || line[0] == '#'
}

pub open spec fn is_header(line: Seq<char>) -> bool {
    line.len() > 0 && line[0] == '['
}

pub open spec fn is_closed_header(line: Seq<char>) -> bool {
    is_header(line) && line.len() >= 2 && line.last() == ']'
}

/// The name between the brackets of a section header.
pub open spec fn header_name(line: Seq<char>) -> Seq<char> {
    line.subrange(1, line.len() - 1)
}

/// What one line does to the current section name and the document.
pub open spec fn step(current: Seq<char>, doc: DocModel, line: Seq<char>) -> Result<
    (Seq<char>, DocModel),
    IniError,
> {
    if is_ignored(line) {
        Ok((current, doc))
    } else if is_header(line) {
        if is_closed_header(line) {
            Ok((header_name(line), doc))
        } else {
            Err(IniError::UnterminatedSectionHeader)
        }
    } else if has_equals(line) {
        let (key, text) = split_key_value(line);
        Ok((current, doc.insert(current, section_of(doc, current).insert(key, infer(text)))))
    } else {
        Err(IniError::MalformedKeyValue)
    }
}

/// The current section name and the document after `lines`, read from the
/// top, or the first error.
pub open spec fn parse_state(lines: Seq<Seq<char>>) -> Result<(Seq<char>, DocModel), IniError>
    decreases lines.len(),
{
    if lines.len() == 0 {
        Ok((Seq::empty(), DocModel::empty()))
    } else {
        match parse_state(lines.drop_last()) {
            Ok((current, doc)) => step(current, doc, lines.last()),
            Err(e) => Err(e),
        }
    }
}

/// The document that `lines` describe, or the first error in them.
pub open spec fn parse(lines: Seq<Seq<char>>) -> Result<DocModel, IniError> {
    match parse_state(lines) {
        Ok((_, doc)) => Ok(doc),
        Err(e) => Err(e),
    }
}

/// The text of each line.
pub open spec fn texts(lines: Seq<String>) -> Seq<Seq<char>> {
    lines.map_values(|l: String| l@)
}

/// `r` is what reading `lines` gives.
pub open spec fn read_result(lines: Seq<Seq<char>>, r: Result<Ini, IniError>) -> bool {
    match r {
        Ok(ini) => ini.well_formed() && parse(lines) == Ok::<DocModel, IniError>(ini@),
        Err(e) => parse(lines) == Err::<DocModel, IniError>(e),
    }
}

/// Applies one line to the current section name and the document.
fn apply_line(ini: &mut Ini, current: &mut String, line: &str) -> (r: Result<(), IniError>)
    requires
        old(ini).well_formed(),
    ensures
        match r {
            Ok(()) => final(ini).well_formed() && step(old(current)@, old(ini)@, line@) == Ok::<
                (Seq<char>, DocModel),
                IniError,
            >((final(current)@, final(ini)@)),
            Err(e) => step(old(current)@, old(ini)@, line@) == Err::<
                (Seq<char>, DocModel),
                IniError,
            >(e),
        },
{
    let cs = chars_of(line);
    let n = cs.len();
    if n == 0 || cs[0] == '#' {
        return Ok(());
    }
    if cs[0] == '[' {
        if n >= 2 && cs[n - 1] == ']' {
            *current = line.substring_char(1, n - 1).to_owned();
            return Ok(());
        } else {
            return Err(IniError::UnterminatedSectionHeader);
        }
    }
    let mut p: usize = 0;
    while p < n && cs[p] != '='
        invariant
            p <= n == cs@.len(),
            forall|k: int| 0 <= k < p ==> cs@[k] != '=',
        decreases n - p,
    {
        p = p + 1;
    }
    if p == n {
        assert(!has_equals(line@)) by {
            assert forall|q: int| !first_equals(line@, q) by {
                if 0 <= q < n {
                    assert(cs@[q] != '=');
                }
            }
        }
        return Err(IniError::MalformedKeyValue);
    }
    proof {
        assert(first_equals(line@, p as int));
        let q = choose|q: int| first_equals(line@, q);
        assert(q == p);
        assert(line@.take(p as int) =~= cs@.subrange(0, p as int));
        assert(line@.skip(p + 1) =~= cs@.subrange(p + 1, n as int));
    }
    let (ka, kb) = trim_bounds(&cs, 0, p);
    let (va, vb) = trim_bounds(&cs, p + 1, n);
    let key = line.substring_char(ka, kb).to_owned();
    let value = infer_value(line.substring_char(va, vb));
    ini.insert_value(current, key, value);
    Ok(())
}

/// Once a prefix of the lines fails, the whole parse fails with the same
/// error, whatever follows.
pub proof fn error_ends_the_parse(lines: Seq<Seq<char>>, k: int)
    requires
        0 <= k <= lines.len(),
        parse_state(lines.take(k)) is Err,
    ensures
        parse_state(lines) == parse_state(lines.take(k)),
        parse(lines) == Err::<DocModel, IniError>(parse_state(lines.take(k))->Err_0),
    decreases lines.len() - k,
{
    if k == lines.len() {
        assert(lines.take(k) =~= lines);
    } else {
        assert(lines.take(k + 1).drop_last() =~= lines.take(k));
        error_ends_the_parse(lines, k + 1);
    }
}

impl Ini {
    /// Reads a document from its lines, in order, with their line breaks left
    /// out. Blank lines and lines that begin with `#` are skipped. A line that
    /// begins with `[` must end with `]`, and names the section that the
    /// key-value lines after it go to; before the first such line they go to the
    /// section named by the empty string. Any other line is split at its first
    /// `=` into a key and a value text, each trimmed of whitespace, and the
    /// key's typed value replaces the one it had. The first line that breaks
    /// these rules ends the reading with its error.
    pub fn read(lines: &[String]) -> (r: Result<Ini, IniError>)
        ensures
            read_result(texts(lines@), r),
    {
        let ghost all = texts(lines@);
        let mut ini = Ini::empty();
        let mut current = String::new();
        let mut i: usize = 0;
        assert(all.take(0) =~= Seq::<Seq<char>>::empty());
        while i < lines.len()
            invariant
                i <= lines@.len(),
                all == texts(lines@),
                ini.well_formed(),
                parse_state(all.take(i as int)) == Ok::<(Seq<char>, DocModel), IniError>(
                    (current@, ini@),
                ),
            decreases lines@.len() - i,
        {
            let line = lines[i].as_str();
            assert(all.take(i + 1).drop_last() =~= all.take(i as int));
            assert(all.take(i + 1).last() == line@);
            match apply_line(&mut ini, &mut current, line) {
                Ok(()) => {},
                Err(e) => {
                    proof {
                        error_ends_the_parse(all, i + 1);
                    }
                    return Err(e);
                },
            }
            i = i + 1;
        }
        assert(all.take(i as int) =~= all);
        Ok(ini)
    }
}

} // verus!
