//! An INI configuration store: ordered sections of ordered key/value options
//! with their comment blocks, parsed from lines of text and serialized back,
//! with typed accessors and structural mutators.
//!
//! The laws relating these operations - the parse/serialize round trip,
//! strict insertion order, idempotence of `set`, and the agreement of
//! `has_option` with `get` - are stated and proved in [`crate::ini_model`].

use vstd::prelude::*;
use crate::ini_model::EntryModel;
use crate::ini_model::SectionModel;
use crate::ini_model::sec_names;
use crate::ini_model::entry_keys;
use crate::ini_model::has_sec;
use crate::ini_model::sec_idx;
use crate::ini_model::has_key;
use crate::ini_model::ent_idx;
use crate::ini_model::lookup;
use crate::ini_model::doc_inv;
use crate::ini_model::lemma_sec_idx_is;
use crate::ini_model::lemma_ent_idx_is;
use crate::ini_model::add_section_m;
use crate::ini_model::set_m;
use crate::ini_model::set_entries_m;
use crate::ini_model::remove_section_m;
use crate::ini_model::remove_option_m;
use crate::ini_model::lemma_mutators_keep_inv;
use crate::text::str_eq;
use crate::text::find_char;
use crate::text::spec_find;
use crate::ini_model::ParseState;
use crate::ini_model::init_state;
use crate::ini_model::run;
use crate::ini_model::step;
use crate::ini_model::line_trim;
use crate::ini_model::line_good;
use crate::ini_model::is_comment_line;
use crate::ini_model::is_header_line;
use crate::ini_model::header_name;
use crate::ini_model::empty_section;
use crate::ini_model::lemma_run_good;
use crate::ini_model::lemma_run_bad;
use crate::ini_model::lemma_run_snoc;
use crate::ini_model::lemma_step_inv;
use crate::ini_model::entry_keys_unique;
use crate::text::lemma_find_char;
use crate::ini_model::entry_line;
use crate::ini_model::entry_lines;
use crate::ini_model::entries_lines;
use crate::ini_model::header_line_of;
use crate::ini_model::section_lines;
use crate::ini_model::doc_lines;
use crate::ini_model::join_lines;
use crate::ini_model::spec_render;
use crate::ini_model::lemma_join_snoc;
use crate::ini_model::lemma_entries_lines_snoc;
use crate::ini_model::lemma_doc_lines_snoc;
use crate::ini_model::lemma_join_append;
use crate::text::spec_trim;
use crate::text::is_int_literal;
use crate::text::int_literal_value;
use crate::text::trim;
use crate::text::parse_isize;

verus! {

/// Everything that can go wrong in the store: a malformed option line while
/// parsing, structural misuse, a failed typed coercion, or a filesystem
/// failure reported by a caller doing the reading and writing.
#[derive(Debug, Clone, PartialEq, Eq)]
pub enum IniError {
    MissingDelimiter,
    SectionExists,
    NoSuchSection,
    MissingOption,
    NotABoolean,
    NotAnInteger,
    NotAFloat,
    IoError(String),
}

/// One option: key, value, and the comment block that preceded it.
pub struct IniEntry {
    pub key: String,
    pub value: String,
    pub comment: Vec<String>,
}

/// One section: name, the comment block before its header, and its options.
pub struct IniSection {
    pub name: String,
    pub comment: Vec<String>,
    pub entries: Vec<IniEntry>,
}

/// The store: a path to read from and write to, and the sections in order.
pub struct IniFile {
    pub path: String,
    pub sections: Vec<IniSection>,
}

/// The character sequences of a list of strings.
pub open spec fn views_of_lines(v: Seq<String>) -> Seq<Seq<char>> {
    Seq::new(v.len(), |i: int| v[i]@)
}

/// The models of a list of entries.
pub open spec fn views_of_entries(v: Seq<IniEntry>) -> Seq<EntryModel> {
    Seq::new(v.len(), |i: int| v[i]@)
}

/// The models of a list of sections.
pub open spec fn views_of_sections(v: Seq<IniSection>) -> Seq<SectionModel> {
    Seq::new(v.len(), |i: int| v[i]@)
}

impl View for IniEntry {
    type V = EntryModel;

    open spec fn view(&self) -> EntryModel {
        EntryModel { key: self.key@, value: self.value@, comment: views_of_lines(self.comment@) }
    }
}

impl View for IniSection {
    type V = SectionModel;

    open spec fn view(&self) -> SectionModel {
        SectionModel {
            name: self.name@,
            comment: views_of_lines(self.comment@),
            entries: views_of_entries(self.entries@),
        }
    }
}

impl View for IniFile {
    type V = Seq<SectionModel>;

    open spec fn view(&self) -> Seq<SectionModel> {
        views_of_sections(self.sections@)
    }
}

/// The boolean a stored string stands for, if any: the accepted spellings
/// are fixed and case-sensitive.
pub open spec fn bool_of(v: Seq<char>) -> Option<bool> {
    if v == "1"@ || v == "yes"@ || v == "true"@ || v == "T"@ || v == "on"@ {
        Some(true)
    } else if v == "0"@ || v == "no"@ || v == "false"@ || v == "F"@ || v == "off"@ {
        Some(false)
    } else {
        None
    }
}

impl IniFile {
    /// The structural invariant: section names unique, keys unique within
    /// each section.
    pub open spec fn wf(&self) -> bool {
        doc_inv(self@)
    }

    /// A fresh store: no sections, and an empty path.
    pub fn new() -> (r: IniFile)
        ensures
            r@ == Seq::<SectionModel>::empty(),
            r.path@ == Seq::<char>::empty(),
            r.wf(),
    {
        let r = IniFile { path: String::new(), sections: Vec::new() };
        proof {
            assert(r@ =~= Seq::<SectionModel>::empty());
        }
        r
    }

    /// The stored file path.
    pub fn filepath(&self) -> (r: String)
        ensures
            r@ == self.path@,
    {
        self.path.clone()
    }

    /// Replaces the stored file path.
    pub fn set_path(&mut self, filepath: &str)
        ensures
            final(self).path@ == filepath@,
            final(self)@ == old(self)@,
            final(self).sections == old(self).sections,
    {
        self.path = String::from_str(filepath);
    }

    /// The index of the named section, scanning from the front.
    fn find_section(&self, section: &str) -> (r: Option<usize>)
        ensures
            match r {
                Some(i) => i < self.sections@.len() && self@[i as int].name == section@,
                None => !has_sec(self@, section@),
            },
    {
        let mut k: usize = 0;
        while k < self.sections.len()
            invariant
                k <= self.sections@.len(),
                forall|j: int| 0 <= j < k ==> self@[j].name != section@,
            decreases self.sections@.len() - k,
        {
            if str_eq(self.sections[k].name.as_str(), section) {
                return Some(k);
            }
            k = k + 1;
        }
        None
    }

    /// Whether the named section exists.
    pub fn has_section(&self, section: &str) -> (r: bool)
        ensures
            r == has_sec(self@, section@),
    {
        match self.find_section(section) {
            Some(_) => true,
            None => false,
        }
    }

    /// Whether the named section exists and holds the named option.
    pub fn has_option(&self, section: &str, option: &str) -> (r: bool)
        requires
            self.wf(),
        ensures
            r == (has_sec(self@, section@) && has_key(
                self@[sec_idx(self@, section@)].entries,
                option@,
            )),
    {
        match self.find_section(section) {
            Some(i) => {
                proof {
                    lemma_sec_idx_is(self@, section@, i as int);
                }
                match find_entry(&self.sections[i], option) {
                    Some(_) => true,
                    None => false,
                }
            },
            None => false,
        }
    }

    /// The value of the named option, or `MissingOption` when the section or
    /// the option is absent.
    pub fn get(&self, section: &str, option: &str) -> (r: Result<String, IniError>)
        requires
            self.wf(),
        ensures
            match r {
                Ok(v) => lookup(self@, section@, option@) == Some(v@),
                Err(e) => lookup(self@, section@, option@) is None && e
                    == IniError::MissingOption,
            },
    {
        match self.find_section(section) {
            Some(i) => {
                proof {
                    lemma_sec_idx_is(self@, section@, i as int);
                }
                let sec = &self.sections[i];
                match find_entry(sec, option) {
                    Some(j) => {
                        proof {
                            lemma_ent_idx_is(sec@.entries, option@, j as int);
                        }
                        Ok(sec.entries[j].value.clone())
                    },
                    None => Err(IniError::MissingOption),
                }
            },
            None => Err(IniError::MissingOption),
        }
    }

    /// The boolean coercion of the named option: exactly `1`, `yes`, `true`,
    /// `T` and `on` are true, exactly `0`, `no`, `false`, `F` and `off` are
    /// false, and anything else is `NotABoolean`.
    pub fn get_bool(&self, section: &str, option: &str) -> (r: Result<bool, IniError>)
        requires
            self.wf(),
        ensures
            match lookup(self@, section@, option@) {
                None => r == Err::<bool, IniError>(IniError::MissingOption),
                Some(v) => match bool_of(v) {
                    Some(b) => r == Ok::<bool, IniError>(b),
                    None => r == Err::<bool, IniError>(IniError::NotABoolean),
                },
            },
    {
        let value = match self.get(section, option) {
            Ok(v) => v,
            Err(e) => {
                return Err(e);
            },
        };
        let v = value.as_str();
        if str_eq(v, "1") || str_eq(v, "yes") || str_eq(v, "true") || str_eq(v, "T") || str_eq(
            v,
            "on",
        ) {
            Ok(true)
        } else if str_eq(v, "0") || str_eq(v, "no") || str_eq(v, "false") || str_eq(v, "F")
            || str_eq(v, "off") {
            Ok(false)
        } else {
            Err(IniError::NotABoolean)
        }
    }

    /// The integer coercion of the named option: the stored string, freed of
    /// surrounding whitespace, read as an optionally signed decimal number;
    /// anything else, or a number beyond the machine word, is `NotAnInteger`.
    pub fn get_int(&self, section: &str, option: &str) -> (r: Result<isize, IniError>)
        requires
            self.wf(),
        ensures
            match lookup(self@, section@, option@) {
                None => r == Err::<isize, IniError>(IniError::MissingOption),
                Some(v) => {
                    let t = spec_trim(v);
                    if is_int_literal(t) && isize::MIN <= int_literal_value(t) <= isize::MAX {
                        r == Ok::<isize, IniError>(int_literal_value(t) as isize)
                    } else {
                        r == Err::<isize, IniError>(IniError::NotAnInteger)
                    }
                },
            },
    {
        let value = match self.get(section, option) {
            Ok(v) => v,
            Err(e) => {
                return Err(e);
            },
        };
        match parse_isize(trim(value.as_str())) {
            Some(x) => Ok(x),
            None => Err(IniError::NotAnInteger),
        }
    }

    /// The section names, in insertion order.
    pub fn sections(&self) -> (r: Vec<String>)
        ensures
            views_of_lines(r@) == sec_names(self@),
    {
        let mut out: Vec<String> = Vec::new();
        let mut k: usize = 0;
        while k < self.sections.len()
            invariant
                k <= self.sections@.len(),
                views_of_lines(out@) =~= sec_names(self@).take(k as int),
            decreases self.sections@.len() - k,
        {
            let ghost prev = out@;
            proof {
                assert(views_of_lines(prev).len() == prev.len());
                assert(prev.len() == k as int);
            }
            let cl = self.sections[k].name.clone();
            let ghost clv = cl@;
            proof {
                assert(clv == self@[k as int].name);
            }
            out.push(cl);
            proof {
                assert(out@.len() == k + 1);
                assert forall|j: int| 0 <= j < out@.len() implies views_of_lines(out@)[j]
                    == sec_names(self@).take(k + 1 as int)[j] by {
                    assert(views_of_lines(out@)[j] == out@[j]@);
                    if j < k {
                        assert(out@[j] == prev[j]);
                        assert(views_of_lines(prev)[j] == prev[j]@);
                    } else {
                        assert(out@[j]@ == clv);
                    }
                }
                assert(views_of_lines(out@) =~= sec_names(self@).take(k + 1 as int));
            }
            k = k + 1;
        }
        proof {
            assert(sec_names(self@).take(self@.len() as int) =~= sec_names(self@));
        }
        out
    }

    /// The option keys of the named section in insertion order, or an empty
    /// list when the section is unknown.
    pub fn options(&self, section: String) -> (r: Vec<String>)
        requires
            self.wf(),
        ensures
            views_of_lines(r@) == if has_sec(self@, section@) {
                entry_keys(self@[sec_idx(self@, section@)].entries)
            } else {
                Seq::<Seq<char>>::empty()
            },
    {
        match self.find_section(section.as_str()) {
            None => {
                let out: Vec<String> = Vec::new();
                proof {
                    assert(views_of_lines(out@) =~= Seq::<Seq<char>>::empty());
                }
                out
            },
            Some(i) => {
                proof {
                    lemma_sec_idx_is(self@, section@, i as int);
                }
                let sec = &self.sections[i];
                let mut out: Vec<String> = Vec::new();
                let mut k: usize = 0;
                while k < sec.entries.len()
                    invariant
                        k <= sec.entries@.len(),
                        views_of_lines(out@) =~= entry_keys(sec@.entries).take(k as int),
                    decreases sec.entries@.len() - k,
                {
                    let ghost prev = out@;
                    proof {
                        assert(views_of_lines(prev).len() == prev.len());
                        assert(prev.len() == k as int);
                    }
                    let cl = sec.entries[k].key.clone();
                    let ghost clv = cl@;
                    proof {
                        assert(clv == sec@.entries[k as int].key);
                    }
                    out.push(cl);
                    proof {
                        assert(out@.len() == k + 1);
                        assert forall|j: int| 0 <= j < out@.len() implies views_of_lines(out@)[j]
                            == entry_keys(sec@.entries).take(k + 1 as int)[j] by {
                            assert(views_of_lines(out@)[j] == out@[j]@);
                            if j < k {
                                assert(out@[j] == prev[j]);
                                assert(views_of_lines(prev)[j] == prev[j]@);
                            } else {
                                assert(out@[j]@ == clv);
                            }
                        }
                        assert(views_of_lines(out@) =~= entry_keys(sec@.entries).take(
                            k + 1 as int,
                        ));
                    }
                    k = k + 1;
                }
                proof {
                    assert(entry_keys(sec@.entries).take(sec@.entries.len() as int) =~= entry_keys(
                        sec@.entries,
                    ));
                }
                out
            },
        }
    }

    /// Appends an empty section of that name, or `SectionExists` when one is
    /// already there.
    pub fn add_section(&mut self, section: &str) -> (r: Result<(), IniError>)
        requires
            old(self).wf(),
        ensures
            final(self).wf(),
            final(self).path == old(self).path,
            match r {
                Ok(()) => !has_sec(old(self)@, section@) && final(self)@ == add_section_m(
                    old(self)@,
                    section@,
                ),
                Err(e) => e == IniError::SectionExists && has_sec(old(self)@, section@) && *final(self) == *old(self),
            },
    {
        match self.find_section(section) {
            Some(_) => Err(IniError::SectionExists),
            None => {
                proof {
                    lemma_mutators_keep_inv(self@, section@, Seq::empty(), Seq::empty());
                }
                let sec = IniSection {
                    name: String::from_str(section),
                    comment: Vec::new(),
                    entries: Vec::new(),
                };
                proof {
                    assert(sec@.comment =~= Seq::<Seq<char>>::empty());
                    assert(sec@.entries =~= Seq::<EntryModel>::empty());
                }
                self.sections.push(sec);
                proof {
                    assert(self@ =~= add_section_m(old(self)@, section@));
                }
                Ok(())
            },
        }
    }

    /// Sets the named option in the named section: a known key keeps its
    /// place and takes the new value, a fresh key is appended. Fails with
    /// `NoSuchSection` when the section is absent, leaving the store as it
    /// was.
    pub fn set(&mut self, section: String, option: String, value: String) -> (r: Result<
        (),
        IniError,
    >)
        requires
            old(self).wf(),
        ensures
            final(self).wf(),
            final(self).path == old(self).path,
            match r {
                Ok(()) => has_sec(old(self)@, section@) && final(self)@ == set_m(
                    old(self)@,
                    section@,
                    option@,
                    value@,
                ),
                Err(e) => e == IniError::NoSuchSection && !has_sec(old(self)@, section@) && *final(self) == *old(self),
            },
    {
        let ghost okey = option@;
        let ghost oval = value@;
        match self.find_section(section.as_str()) {
            None => Err(IniError::NoSuchSection),
            Some(i) => {
                proof {
                    lemma_sec_idx_is(old(self)@, section@, i as int);
                    lemma_mutators_keep_inv(old(self)@, section@, okey, oval);
                }
                let ghost d0 = self@;
                let mut sec = self.sections.remove(i);
                match find_entry(&sec, option.as_str()) {
                    Some(j) => {
                        proof {
                            lemma_ent_idx_is(sec@.entries, okey, j as int);
                        }
                        let mut e = sec.entries.remove(j);
                        e.value = value;
                        sec.entries.insert(j, e);
                        proof {
                            assert(sec@.entries =~= set_entries_m(d0[i as int].entries, okey, oval));
                        }
                    },
                    None => {
                        let e = IniEntry { key: option, value: value, comment: Vec::new() };
                        proof {
                            assert(e@.comment =~= Seq::<Seq<char>>::empty());
                        }
                        sec.entries.push(e);
                        proof {
                            assert(sec@.entries =~= set_entries_m(d0[i as int].entries, okey, oval));
                        }
                    },
                }
                self.sections.insert(i, sec);
                proof {
                    assert(self@ =~= set_m(d0, section@, okey, oval));
                }
                Ok(())
            },
        }
    }

    /// Removes the named section with its options and comments; tells
    /// whether it was there.
    pub fn remove_section(&mut self, section: String) -> (r: bool)
        requires
            old(self).wf(),
        ensures
            final(self).wf(),
            final(self).path == old(self).path,
            r == has_sec(old(self)@, section@),
            final(self)@ == remove_section_m(old(self)@, section@),
    {
        proof {
            lemma_mutators_keep_inv(old(self)@, section@, Seq::empty(), Seq::empty());
        }
        match self.find_section(section.as_str()) {
            None => false,
            Some(i) => {
                proof {
                    lemma_sec_idx_is(old(self)@, section@, i as int);
                }
                self.sections.remove(i);
                proof {
                    assert(self@ =~= remove_section_m(old(self)@, section@));
                }
                true
            },
        }
    }

    /// Removes the named option from the named section, comment included;
    /// tells whether it was there. Fails with `NoSuchSection` when the
    /// section is absent, leaving the store as it was.
    pub fn remove_option(&mut self, section: String, option: String) -> (r: Result<
        bool,
        IniError,
    >)
        requires
            old(self).wf(),
        ensures
            final(self).wf(),
            final(self).path == old(self).path,
            match r {
                Ok(existed) => has_sec(old(self)@, section@) && existed == has_key(
                    old(self)@[sec_idx(old(self)@, section@)].entries,
                    option@,
                ) && final(self)@ == remove_option_m(old(self)@, section@, option@),
                Err(e) => e == IniError::NoSuchSection && !has_sec(old(self)@, section@) && *final(self) == *old(self),
            },
    {
        match self.find_section(section.as_str()) {
            None => Err(IniError::NoSuchSection),
            Some(i) => {
                proof {
                    lemma_sec_idx_is(old(self)@, section@, i as int);
                    lemma_mutators_keep_inv(old(self)@, section@, option@, Seq::empty());
                }
                let ghost d0 = self@;
                let mut sec = self.sections.remove(i);
                let existed = match find_entry(&sec, option.as_str()) {
                    Some(j) => {
                        proof {
                            lemma_ent_idx_is(sec@.entries, option@, j as int);
                        }
                        sec.entries.remove(j);
                        proof {
                            assert(sec@.entries =~= d0[i as int].entries.remove(ent_idx(
                                d0[i as int].entries,
                                option@,
                            )));
                        }
                        true
                    },
                    None => false,
                };
                self.sections.insert(i, sec);
                proof {
                    assert(self@ =~= remove_option_m(d0, section@, option@));
                }
                Ok(existed)
            },
        }
    }
}

/// The index of the entry with that key, scanning from the front.
fn find_entry(sec: &IniSection, option: &str) -> (r: Option<usize>)
    ensures
        match r {
            Some(j) => j < sec.entries@.len() && sec@.entries[j as int].key == option@,
            None => !has_key(sec@.entries, option@),
        },
{
    let mut k: usize = 0;
    while k < sec.entries.len()
        invariant
            k <= sec.entries@.len(),
            forall|j: int| 0 <= j < k ==> sec@.entries[j].key != option@,
        decreases sec.entries@.len() - k,
    {
        if str_eq(sec.entries[k].key.as_str(), option) {
            return Some(k);
        }
        k = k + 1;
    }
    None
}


/// Whether the parser can take this line: blank, comment, header, or an
/// option line with its delimiter.
fn line_ok(line: &str) -> (r: bool)
    ensures
        r == line_good(line@),
{
    let ghost t = line_trim(line@);
    let len = line.unicode_len();
    let tend = if len > 0 && line.get_char(len - 1) == '\n' {
        len - 1
    } else {
        len
    };
    proof {
        assert(t =~= line@.subrange(0, tend as int));
    }
    if tend == 0 {
        return true;
    }
    let c0 = line.get_char(0);
    proof {
        assert(t[0] == line@[0]);
    }
    if c0 == '#' || c0 == ';' || c0 == '[' {
        return true;
    }
    let mut i: usize = 0;
    while i < tend
        invariant
            i <= tend <= line@.len(),
            t == line@.subrange(0, tend as int),
            t == line_trim(line@),
            forall|j: int| 0 <= j < i ==> line@[j] != '=',
        decreases tend - i,
    {
        if line.get_char(i) == '=' {
            proof {
                assert(t[i as int] == '=');
                lemma_find_char(t, '=');
                if spec_find(t, '=') is None {
                    assert(false);
                }
            }
            return true;
        }
        i = i + 1;
    }
    proof {
        lemma_find_char(t, '=');
        match spec_find(t, '=') {
            None => {
            },
            Some(j) => {
                assert(t[j] == line@[j]);
                assert(false);
            },
        }
    }
    false
}

impl IniFile {
    /// Parses configuration lines into the store, continuing from what it
    /// already holds: comment-shaped lines gather into a block that attaches
    /// to the next header or option, `[name]` opens or reopens a section,
    /// `key=value` lands in the current section (the implicit `Default`
    /// section before any header), and an option line without `=` is a
    /// `MissingDelimiter` error that leaves the store untouched.
    pub fn read_string(&mut self, lines: Vec<String>) -> (r: Result<(), IniError>)
        requires
            old(self).wf(),
        ensures
            final(self).wf(),
            final(self).path == old(self).path,
            match run(init_state(old(self)@), views_of_lines(lines@)) {
                None => r == Err::<(), IniError>(IniError::MissingDelimiter) && *final(self)
                    == *old(self),
                Some(st) => r == Ok::<(), IniError>(()) && final(self)@ == st.doc,
            },
    {
        let ghost lv = views_of_lines(lines@);
        let ghost st0 = init_state(old(self)@);
        let mut k: usize = 0;
        while k < lines.len()
            invariant
                k <= lines@.len(),
                lv == views_of_lines(lines@),
                st0 == init_state(old(self)@),
                old(self).wf(),
                *self == *old(self),
                forall|j: int| 0 <= j < k ==> line_good(#[trigger] lv[j]),
            decreases lines@.len() - k,
        {
            if !line_ok(lines[k].as_str()) {
                proof {
                    assert(lv[k as int] == lines@[k as int]@);
                    lemma_run_bad(st0, lv, k as int);
                }
                return Err(IniError::MissingDelimiter);
            }
            proof {
                assert(lv[k as int] == lines@[k as int]@);
            }
            k = k + 1;
        }
        proof {
            lemma_run_good(st0, lv);
        }
        let mut buf: Vec<String> = Vec::new();
        let mut cur: String = String::from_str("Default");
        let mut k2: usize = 0;
        proof {
            assert(lv.take(0) =~= Seq::<Seq<char>>::empty());
            assert(views_of_lines(buf@) =~= Seq::<Seq<char>>::empty());
            assert(ParseState { doc: self@, buf: views_of_lines(buf@), cur: cur@ } =~= st0);
        }
        while k2 < lines.len()
            invariant
                k2 <= lines@.len(),
                lv == views_of_lines(lines@),
                st0 == init_state(old(self)@),
                forall|j: int| 0 <= j < lines@.len() ==> line_good(#[trigger] lv[j]),
                run(st0, lv.take(k2 as int)) == Some(
                    ParseState { doc: self@, buf: views_of_lines(buf@), cur: cur@ },
                ),
                doc_inv(self@),
                self.path == old(self).path,
            decreases lines@.len() - k2,
        {
            let ghost stk = ParseState { doc: self@, buf: views_of_lines(buf@), cur: cur@ };
            let ghost l = lv[k2 as int];
            proof {
                assert(l == lines@[k2 as int]@);
                lemma_run_snoc(st0, lv.take(k2 as int), l);
                assert(lv.take(k2 as int).push(l) =~= lv.take(k2 + 1 as int));
                lemma_step_inv(stk, l);
            }
            let line = &lines[k2];
            let len = line.as_str().unicode_len();
            let tend = if len > 0 && line.as_str().get_char(len - 1) == '\n' {
                len - 1
            } else {
                len
            };
            let t = line.as_str().substring_char(0, tend);
            proof {
                assert(t@ =~= line_trim(l));
            }
            let tlen = tend;
            proof {
                assert(t@.len() == tlen as int);
            }
            let is_comment = if tlen == 0 {
                true
            } else {
                let c0 = t.get_char(0);
                c0 == '#' || c0 == ';'
            };
            if is_comment {
                proof {
                    assert(is_comment_line(t@));
                }
                let ghost prevb = buf@;
                buf.push(String::from_str(t));
                proof {
                    assert(views_of_lines(buf@) =~= stk.buf.push(t@));
                    assert(ParseState { doc: self@, buf: views_of_lines(buf@), cur: cur@ }
                        =~= step(stk, l).unwrap());
                }
            } else if t.get_char(0) == '[' {
                proof {
                    assert(t@[0] == '[');
                    assert(!is_comment_line(t@));
                    assert(is_header_line(t@));
                }
                let name: String = if tlen >= 2 {
                    String::from_str(t.substring_char(1, tlen - 1))
                } else {
                    String::new()
                };
                proof {
                    if tlen >= 2 {
                        assert(name@ =~= header_name(t@));
                    } else {
                        assert(name@ =~= header_name(t@));
                    }
                }
                match self.find_section(name.as_str()) {
                    Some(_) => {
                        proof {
                            assert(has_sec(self@, name@));
                        }
                        cur = name;
                        proof {
                            assert(ParseState { doc: self@, buf: views_of_lines(buf@), cur: cur@ }
                                =~= step(stk, l).unwrap());
                        }
                    },
                    None => {
                        cur = name.clone();
                        let ghost prevd = self.sections@;
                        let sec = IniSection { name: name, comment: buf, entries: Vec::new() };
                        buf = Vec::new();
                        proof {
                            assert(sec@.entries =~= Seq::<EntryModel>::empty());
                            assert(sec@ =~= SectionModel {
                                name: header_name(line_trim(l)),
                                comment: stk.buf,
                                entries: Seq::empty(),
                            });
                        }
                        self.sections.push(sec);
                        proof {
                            assert(self@ =~= stk.doc.push(SectionModel {
                                name: header_name(line_trim(l)),
                                comment: stk.buf,
                                entries: Seq::empty(),
                            }));
                            assert(views_of_lines(buf@) =~= Seq::<Seq<char>>::empty());
                            assert(ParseState { doc: self@, buf: views_of_lines(buf@), cur: cur@ }
                                =~= step(stk, l).unwrap());
                        }
                    },
                }
            } else {
                proof {
                    assert(t@[0] == line_trim(l)[0]);
                    assert(!is_comment_line(t@));
                    assert(!is_header_line(t@));
                    assert(line_good(l));
                }
                let eq = match find_char(t, '=') {
                    Some(i) => i,
                    None => unreached(),
                };
                proof {
                    lemma_find_char(t@, '=');
                }
                let key = String::from_str(t.substring_char(0, eq));
                let value = String::from_str(t.substring_char(eq + 1, tlen));
                let ghost keyv = key@;
                let ghost valv = value@;
                proof {
                    assert(keyv =~= line_trim(l).subrange(0, eq as int));
                    assert(valv =~= line_trim(l).subrange(eq + 1, line_trim(l).len() as int));
                }
                let si = match self.find_section(cur.as_str()) {
                    Some(i) => {
                        proof {
                            assert(has_sec(stk.doc, cur@));
                            lemma_sec_idx_is(self@, cur@, i as int);
                        }
                        i
                    },
                    None => {
                        proof {
                            assert(!has_sec(stk.doc, cur@));
                        }
                        let sec = IniSection {
                            name: cur.clone(),
                            comment: Vec::new(),
                            entries: Vec::new(),
                        };
                        proof {
                            assert(sec@.comment =~= Seq::<Seq<char>>::empty());
                            assert(sec@.entries =~= Seq::<EntryModel>::empty());
                            assert(sec@ =~= empty_section(cur@));
                        }
                        self.sections.push(sec);
                        proof {
                            assert(self@ =~= stk.doc.push(empty_section(cur@)));
                            assert forall|a: int, b: int| 0 <= a < b < self@.len() implies self@[a].name != self@[b].name by {
                                if b < stk.doc.len() {
                                    assert(self@[a] == stk.doc[a] && self@[b] == stk.doc[b]);
                                } else {
                                    assert(self@[a] == stk.doc[a]);
                                    assert(!(stk.doc[a].name == cur@));
                                }
                            }
                            lemma_sec_idx_is(self@, cur@, self@.len() - 1);
                        }
                        self.sections.len() - 1
                    },
                };
                let ghost doc0 = self@;
                proof {
                    assert(si as int == sec_idx(doc0, cur@));
                    assert(doc0 == if has_sec(stk.doc, stk.cur) {
                        stk.doc
                    } else {
                        stk.doc.push(empty_section(stk.cur))
                    });
                }
                let mut sec = self.sections.remove(si);
                let ghost secv = sec@;
                proof {
                    assert(secv == doc0[si as int]);
                }
                match find_entry(&sec, key.as_str()) {
                    Some(j) => {
                        proof {
                            assert(has_key(secv.entries, keyv));
                            assert(entry_keys_unique(secv.entries));
                            lemma_ent_idx_is(secv.entries, keyv, j as int);
                        }
                        let mut e = sec.entries.remove(j);
                        e.value = value;
                        e.comment = buf;
                        buf = Vec::new();
                        sec.entries.insert(j, e);
                        proof {
                            assert(sec@.entries =~= secv.entries.update(
                                ent_idx(secv.entries, keyv),
                                EntryModel { key: keyv, value: valv, comment: stk.buf },
                            ));
                        }
                    },
                    None => {
                        proof {
                            assert(!has_key(secv.entries, keyv));
                        }
                        sec.entries.push(IniEntry { key: key, value: value, comment: buf });
                        buf = Vec::new();
                        proof {
                            assert(sec@.entries =~= secv.entries.push(
                                EntryModel { key: keyv, value: valv, comment: stk.buf },
                            ));
                        }
                    },
                }
                self.sections.insert(si, sec);
                proof {
                    let e = EntryModel { key: keyv, value: valv, comment: stk.buf };
                    let es = if has_key(secv.entries, keyv) {
                        secv.entries.update(ent_idx(secv.entries, keyv), e)
                    } else {
                        secv.entries.push(e)
                    };
                    assert(self@ =~= doc0.update(
                        si as int,
                        SectionModel { name: secv.name, comment: secv.comment, entries: es },
                    ));
                    assert(views_of_lines(buf@) =~= Seq::<Seq<char>>::empty());
                    assert(ParseState { doc: self@, buf: views_of_lines(buf@), cur: cur@ }
                        =~= step(stk, l).unwrap());
                }
            }
            proof {
                assert(run(st0, lv.take(k2 + 1 as int)) == Some(
                    ParseState { doc: self@, buf: views_of_lines(buf@), cur: cur@ },
                ));
            }
            k2 = k2 + 1;
        }
        proof {
            assert(lv.take(lines@.len() as int) =~= lv);
        }
        Ok(())
    }
}

/// Cuts text into lines at newlines, dropping trailing carriage returns
/// from each line; a final fragment without a newline is a line of its own.
pub fn split_lines(text: &str) -> (r: Vec<String>)
    ensures
        views_of_lines(r@) == crate::ini_model::split_lines_s(text@),
{
    let n = text.unicode_len();
    let mut out: Vec<String> = Vec::new();
    let mut pos: usize = 0;
    proof {
        assert(views_of_lines(out@) =~= Seq::<Seq<char>>::empty());
        assert(text@.skip(0) =~= text@);
        assert(views_of_lines(out@) + crate::ini_model::split_lines_s(text@.skip(0))
            =~= crate::ini_model::split_lines_s(text@));
    }
    while pos < n
        invariant
            pos <= n,
            n == text@.len(),
            views_of_lines(out@) + crate::ini_model::split_lines_s(text@.skip(pos as int))
                == crate::ini_model::split_lines_s(text@),
        decreases n - pos,
    {
        let ghost rem = text@.skip(pos as int);
        // scan to the next newline, or the end
        let mut i: usize = pos;
        while i < n
            invariant
                pos <= i <= n,
                n == text@.len(),
                forall|j: int| pos <= j < i ==> text@[j] != '\n',
            ensures
                pos <= i <= n,
                forall|j: int| pos <= j < i ==> text@[j] != '\n',
                i < n ==> text@[i as int] == '\n',
            decreases n - i,
        {
            if text.get_char(i) == '\n' {
                break;
            }
            i = i + 1;
        }
        // drop trailing carriage returns of the piece
        let mut e: usize = i;
        while e > pos && text.get_char(e - 1) == '\r'
            invariant
                pos <= e <= i <= n,
                n == text@.len(),
                crate::ini_model::strip_cr(text@.subrange(pos as int, i as int))
                    == crate::ini_model::strip_cr(text@.subrange(pos as int, e as int)),
            decreases e,
        {
            proof {
                let cure = text@.subrange(pos as int, e as int);
                assert(cure.last() == '\r');
                assert(cure.drop_last() =~= text@.subrange(pos as int, e - 1));
            }
            e = e - 1;
        }
        let piece = String::from_str(text.substring_char(pos, e));
        proof {
            let sub = text@.subrange(pos as int, e as int);
            assert(piece@ == sub);
            assert(crate::ini_model::strip_cr(sub) == sub);
            assert(piece@ == crate::ini_model::strip_cr(text@.subrange(pos as int, i as int)));
        }
        let ghost prevo = out@;
        out.push(piece);
        proof {
            // relate one splitting step on the remainder
            assert(rem.len() > 0);
            if i < n {
                assert(rem[i - pos] == '\n');
                assert forall|j: int| 0 <= j < i - pos implies rem[j] != '\n' by {
                    assert(rem[j] == text@[pos + j]);
                }
                crate::text::lemma_find_unique(rem, '\n', i - pos);
                assert(rem.subrange(0, i - pos) =~= text@.subrange(pos as int, i as int));
                assert(rem.subrange(i - pos + 1, rem.len() as int) =~= text@.skip(i + 1 as int));
                assert(crate::ini_model::split_lines_s(rem) == seq![
                    crate::ini_model::strip_cr(text@.subrange(pos as int, i as int))
                ] + crate::ini_model::split_lines_s(text@.skip(i + 1 as int)));
            } else {
                crate::text::lemma_find_char(rem, '\n');
                match spec_find(rem, '\n') {
                    None => {
                    },
                    Some(j) => {
                        assert(rem[j] == text@[pos + j]);
                        assert(false);
                    },
                }
                assert(rem =~= text@.subrange(pos as int, i as int));
                assert(crate::ini_model::split_lines_s(rem) == seq![
                    crate::ini_model::strip_cr(text@.subrange(pos as int, i as int))
                ]);
                assert(text@.skip(n as int) =~= Seq::<char>::empty());
                assert(crate::ini_model::split_lines_s(text@.skip(n as int))
                    =~= Seq::<Seq<char>>::empty());
            }
            let nextpos: int = if i < n {
                i + 1
            } else {
                n as int
            };
            assert(views_of_lines(out@) =~= views_of_lines(prevo).push(piece@));
            assert(views_of_lines(out@) + crate::ini_model::split_lines_s(text@.skip(nextpos))
                =~= crate::ini_model::split_lines_s(text@));
        }
        if i < n {
            pos = i + 1;
        } else {
            pos = n;
        }
    }
    proof {
        assert(text@.skip(n as int) =~= Seq::<char>::empty());
        assert(crate::ini_model::split_lines_s(text@.skip(pos as int))
            =~= Seq::<Seq<char>>::empty());
        assert(views_of_lines(out@) + Seq::<Seq<char>>::empty() =~= views_of_lines(out@));
    }
    out
}


/// Appends the lines of a comment block, each closed by a newline.
fn append_comment_lines(out: &mut String, comment: &Vec<String>)
    ensures
        final(out)@ == old(out)@ + join_lines(views_of_lines(comment@)),
{
    let ghost base = out@;
    let mut k: usize = 0;
    proof {
        assert(views_of_lines(comment@).take(0) =~= Seq::<Seq<char>>::empty());
        assert(base + join_lines(views_of_lines(comment@).take(0)) =~= base);
    }
    while k < comment.len()
        invariant
            k <= comment@.len(),
            out@ == base + join_lines(views_of_lines(comment@).take(k as int)),
        decreases comment@.len() - k,
    {
        let ghost cv = views_of_lines(comment@);
        out.append(comment[k].as_str());
        out.append("\n");
        proof {
            reveal_strlit("\n");
            assert(cv.take(k + 1 as int) =~= cv.take(k as int).push(comment@[k as int]@));
            lemma_join_snoc(cv.take(k as int), comment@[k as int]@);
            assert("\n"@ =~= seq!['\n']);
            assert(out@ =~= base + join_lines(cv.take(k + 1 as int)));
        }
        k = k + 1;
    }
    proof {
        assert(views_of_lines(comment@).take(comment@.len() as int) =~= views_of_lines(comment@));
    }
}

/// Serializes one entry: its comment block, then `key=value`.
fn render_entry(out: &mut String, e: &IniEntry)
    ensures
        final(out)@ == old(out)@ + join_lines(entry_lines(e@)),
{
    let ghost base = out@;
    append_comment_lines(out, &e.comment);
    out.append(e.key.as_str());
    out.append("=");
    out.append(e.value.as_str());
    out.append("\n");
    proof {
        reveal_strlit("=");
        reveal_strlit("\n");
        lemma_join_snoc(e@.comment, entry_line(e@));
        assert(entry_line(e@) =~= e.key@ + "="@ + e.value@);
        assert(out@ =~= base + join_lines(entry_lines(e@)));
    }
}

/// Serializes one section: its comment block, its header, then its entries.
fn render_section(out: &mut String, s: &IniSection)
    ensures
        final(out)@ == old(out)@ + join_lines(section_lines(s@)),
{
    let ghost base = out@;
    append_comment_lines(out, &s.comment);
    out.append("[");
    out.append(s.name.as_str());
    out.append("]");
    out.append("\n");
    let ghost hdr = base + join_lines(s@.comment) + header_line_of(s@.name) + seq!['\n'];
    proof {
        reveal_strlit("[");
        reveal_strlit("]");
        reveal_strlit("\n");
        assert(header_line_of(s@.name) =~= "["@ + s.name@ + "]"@);
        assert(out@ =~= hdr);
    }
    let mut k: usize = 0;
    proof {
        assert(entries_lines(s@.entries.take(0)) =~= Seq::<Seq<char>>::empty());
        assert(hdr + join_lines(entries_lines(s@.entries.take(0))) =~= hdr);
    }
    while k < s.entries.len()
        invariant
            k <= s.entries@.len(),
            out@ == hdr + join_lines(entries_lines(s@.entries.take(k as int))),
            hdr == base + join_lines(s@.comment) + header_line_of(s@.name) + seq!['\n'],
        decreases s.entries@.len() - k,
    {
        render_entry(out, &s.entries[k]);
        proof {
            let es = s@.entries;
            assert(es.take(k + 1 as int) =~= es.take(k as int).push(es[k as int]));
            lemma_entries_lines_snoc(es.take(k as int), es[k as int]);
            lemma_join_append(entries_lines(es.take(k as int)), entry_lines(es[k as int]));
            assert(s.entries@[k as int]@ == es[k as int]);
            assert(out@ =~= hdr + join_lines(entries_lines(es.take(k + 1 as int))));
        }
        k = k + 1;
    }
    proof {
        let es = s@.entries;
        assert(es.take(es.len() as int) =~= es);
        assert(section_lines(s@) =~= s@.comment + seq![header_line_of(s@.name)] + entries_lines(es));
        lemma_join_append(s@.comment + seq![header_line_of(s@.name)], entries_lines(es));
        lemma_join_snoc(s@.comment, header_line_of(s@.name));
        assert(s@.comment.push(header_line_of(s@.name)) =~= s@.comment + seq![header_line_of(s@.name)]);
        assert(out@ =~= base + join_lines(section_lines(s@)));
    }
}

impl IniFile {
    /// Serializes the whole store to INI text: sections in stored order, each
    /// as its comment block, its header, and its options in stored order with
    /// their comment blocks. The parser reads this text back to an equal
    /// store.
    pub fn to_string(&self) -> (r: String)
        ensures
            r@ == spec_render(self@),
    {
        let mut out = String::new();
        let mut k: usize = 0;
        proof {
            assert(doc_lines(self@.take(0)) =~= Seq::<Seq<char>>::empty());
            assert(out@ =~= join_lines(doc_lines(self@.take(0))));
        }
        while k < self.sections.len()
            invariant
                k <= self.sections@.len(),
                self@.len() == self.sections@.len(),
                out@ == join_lines(doc_lines(self@.take(k as int))),
            decreases self.sections@.len() - k,
        {
            render_section(&mut out, &self.sections[k]);
            proof {
                let d = self@;
                assert(d.take(k + 1 as int) =~= d.take(k as int).push(d[k as int]));
                lemma_doc_lines_snoc(d.take(k as int), d[k as int]);
                lemma_join_append(doc_lines(d.take(k as int)), section_lines(d[k as int]));
                assert(self.sections@[k as int]@ == d[k as int]);
                assert(out@ =~= join_lines(doc_lines(d.take(k + 1 as int))));
            }
            k = k + 1;
        }
        proof {
            assert(self@.take(self@.len() as int) =~= self@);
        }
        out
    }
}

} // verus!
