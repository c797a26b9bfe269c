//! The mathematical model of an INI document: sections in order, each with
//! its options in order, values, and the comment blocks that preceded them in
//! the source text; plus the line-level meaning of parsing and serializing,
//! and the laws that relate them.

use vstd::prelude::*;
use crate::text::spec_find;
use crate::text::lemma_find_char;
use crate::text::lemma_find_unique;

verus! {

/// One option of a section: its key, its value, and the comment block that
/// stood before it in the source, one line per element.
#[verifier::ext_equal]
pub struct EntryModel {
    pub key: Seq<char>,
    pub value: Seq<char>,
    pub comment: Seq<Seq<char>>,
}

/// One section: its name, the comment block before its header, and its
/// options in insertion order.
#[verifier::ext_equal]
pub struct SectionModel {
    pub name: Seq<char>,
    pub comment: Seq<Seq<char>>,
    pub entries: Seq<EntryModel>,
}

/// The names of the sections, in order.
pub open spec fn sec_names(d: Seq<SectionModel>) -> Seq<Seq<char>> {
    d.map_values(|s: SectionModel| s.name)
}

/// The keys of a section's entries, in order.
pub open spec fn entry_keys(es: Seq<EntryModel>) -> Seq<Seq<char>> {
    es.map_values(|e: EntryModel| e.key)
}

/// Whether a section of that name exists.
pub open spec fn has_sec(d: Seq<SectionModel>, name: Seq<char>) -> bool {
    exists|i: int| 0 <= i < d.len() && d[i].name == name
}

/// The index of the section of that name; meaningful when it exists and
/// names are unique.
pub open spec fn sec_idx(d: Seq<SectionModel>, name: Seq<char>) -> int {
    choose|i: int| 0 <= i < d.len() && d[i].name == name
}

/// Whether an entry with that key exists.
pub open spec fn has_key(es: Seq<EntryModel>, key: Seq<char>) -> bool {
    exists|j: int| 0 <= j < es.len() && es[j].key == key
}

/// The index of the entry with that key; meaningful when it exists and keys
/// are unique.
pub open spec fn ent_idx(es: Seq<EntryModel>, key: Seq<char>) -> int {
    choose|j: int| 0 <= j < es.len() && es[j].key == key
}

/// The stored value of an option, when the section and the option exist.
pub open spec fn lookup(d: Seq<SectionModel>, name: Seq<char>, key: Seq<char>) -> Option<
    Seq<char>,
> {
    if has_sec(d, name) && has_key(d[sec_idx(d, name)].entries, key) {
        let es = d[sec_idx(d, name)].entries;
        Some(es[ent_idx(es, key)].value)
    } else {
        None
    }
}

/// Section names occur at most once.
pub open spec fn sec_names_unique(d: Seq<SectionModel>) -> bool {
    forall|i: int, j: int| 0 <= i < j < d.len() ==> d[i].name != d[j].name
}

/// Keys occur at most once within the section.
pub open spec fn entry_keys_unique(es: Seq<EntryModel>) -> bool {
    forall|i: int, j: int| 0 <= i < j < es.len() ==> es[i].key != es[j].key
}

/// The structural invariant of a document: unique section names, and unique
/// keys within each section.
pub open spec fn doc_inv(d: Seq<SectionModel>) -> bool {
    &&& sec_names_unique(d)
    &&& forall|i: int| 0 <= i < d.len() ==> entry_keys_unique(#[trigger] d[i].entries)
}

/// Under unique names, an index holding the name is the index the document
/// associates with it.
pub proof fn lemma_sec_idx_is(d: Seq<SectionModel>, name: Seq<char>, i: int)
    requires
        sec_names_unique(d),
        0 <= i < d.len(),
        d[i].name == name,
    ensures
        has_sec(d, name),
        sec_idx(d, name) == i,
{
    assert(has_sec(d, name));
    let j = sec_idx(d, name);
    assert(0 <= j < d.len() && d[j].name == name);
}

/// Under unique keys, an index holding the key is the index the section
/// associates with it.
pub proof fn lemma_ent_idx_is(es: Seq<EntryModel>, key: Seq<char>, j: int)
    requires
        entry_keys_unique(es),
        0 <= j < es.len(),
        es[j].key == key,
    ensures
        has_key(es, key),
        ent_idx(es, key) == j,
{
    assert(has_key(es, key));
    let j2 = ent_idx(es, key);
    assert(0 <= j2 < es.len() && es[j2].key == key);
}

/// A fresh, empty section of the given name.
pub open spec fn empty_section(name: Seq<char>) -> SectionModel {
    SectionModel { name: name, comment: Seq::empty(), entries: Seq::empty() }
}

/// What `add_section` does to a document without that section: appends an
/// empty section of the name.
pub open spec fn add_section_m(d: Seq<SectionModel>, name: Seq<char>) -> Seq<SectionModel> {
    d.push(empty_section(name))
}

/// What `set` does to a section's entries: replaces the value in place when
/// the key exists, otherwise appends a fresh entry with no comment.
pub open spec fn set_entries_m(es: Seq<EntryModel>, key: Seq<char>, value: Seq<char>) -> Seq<
    EntryModel,
> {
    if has_key(es, key) {
        let j = ent_idx(es, key);
        es.update(j, EntryModel { key: key, value: value, comment: es[j].comment })
    } else {
        es.push(EntryModel { key: key, value: value, comment: Seq::empty() })
    }
}

/// What `set` does to a document holding the section.
pub open spec fn set_m(
    d: Seq<SectionModel>,
    name: Seq<char>,
    key: Seq<char>,
    value: Seq<char>,
) -> Seq<SectionModel> {
    let i = sec_idx(d, name);
    let s = d[i];
    d.update(
        i,
        SectionModel { name: s.name, comment: s.comment, entries: set_entries_m(s.entries, key, value) },
    )
}

/// What `remove_section` does: drops the section when present.
pub open spec fn remove_section_m(d: Seq<SectionModel>, name: Seq<char>) -> Seq<SectionModel> {
    if has_sec(d, name) {
        d.remove(sec_idx(d, name))
    } else {
        d
    }
}

/// What `remove_option` does to a document holding the section: drops the
/// entry when present, comment included.
pub open spec fn remove_option_m(d: Seq<SectionModel>, name: Seq<char>, key: Seq<char>) -> Seq<
    SectionModel,
> {
    let i = sec_idx(d, name);
    let s = d[i];
    if has_key(s.entries, key) {
        d.update(
            i,
            SectionModel {
                name: s.name,
                comment: s.comment,
                entries: s.entries.remove(ent_idx(s.entries, key)),
            },
        )
    } else {
        d
    }
}

/// Appending a section appends its name and nothing else: the order of
/// `sections()` is strict insertion order.
pub proof fn lemma_add_section_order(d: Seq<SectionModel>, name: Seq<char>)
    requires
        !has_sec(d, name),
    ensures
        sec_names(add_section_m(d, name)) == sec_names(d).push(name),
{
    assert(sec_names(add_section_m(d, name)) =~= sec_names(d).push(name));
}

/// Setting an option keeps every other section untouched and either keeps
/// the key order (key present) or appends the key (key fresh): the order of
/// `options()` is strict insertion order.
pub proof fn lemma_set_order(
    d: Seq<SectionModel>,
    name: Seq<char>,
    key: Seq<char>,
    value: Seq<char>,
)
    requires
        doc_inv(d),
        has_sec(d, name),
    ensures
        sec_names(set_m(d, name, key, value)) == sec_names(d),
        entry_keys(set_m(d, name, key, value)[sec_idx(d, name)].entries) == if has_key(
            d[sec_idx(d, name)].entries,
            key,
        ) {
            entry_keys(d[sec_idx(d, name)].entries)
        } else {
            entry_keys(d[sec_idx(d, name)].entries).push(key)
        },
{
    let i = sec_idx(d, name);
    let es = d[i].entries;
    assert(sec_names(set_m(d, name, key, value)) =~= sec_names(d));
    if has_key(es, key) {
        assert(entry_keys(set_entries_m(es, key, value)) =~= entry_keys(es));
    } else {
        assert(entry_keys(set_entries_m(es, key, value)) =~= entry_keys(es).push(key));
    }
}

/// Setting the same key to the same value twice is the same as setting it
/// once: the second call changes nothing at all.
pub proof fn lemma_set_idempotent(
    d: Seq<SectionModel>,
    name: Seq<char>,
    key: Seq<char>,
    value: Seq<char>,
)
    requires
        doc_inv(d),
        has_sec(d, name),
    ensures
        set_m(set_m(d, name, key, value), name, key, value) == set_m(d, name, key, value),
{
    let i = sec_idx(d, name);
    let d1 = set_m(d, name, key, value);
    let es1 = set_entries_m(d[i].entries, key, value);
    assert(d1[i].name == d[i].name);
    lemma_sec_idx_is(d1, name, i);
    if has_key(d[i].entries, key) {
        let j = ent_idx(d[i].entries, key);
        lemma_ent_idx_is_weak(es1, key, j);
        assert(set_entries_m(es1, key, value) =~= es1);
    } else {
        lemma_ent_idx_is_weak(es1, key, d[i].entries.len() as int);
        assert(set_entries_m(es1, key, value) =~= es1);
    }
    assert(set_m(d1, name, key, value) =~= d1);
}

/// As `lemma_ent_idx_is`, but needing uniqueness only among the other keys.
proof fn lemma_ent_idx_is_weak(es: Seq<EntryModel>, key: Seq<char>, j: int)
    requires
        0 <= j < es.len(),
        es[j].key == key,
        forall|i: int| 0 <= i < es.len() && i != j ==> es[i].key != key,
    ensures
        has_key(es, key),
        ent_idx(es, key) == j,
{
    assert(has_key(es, key));
    let j2 = ent_idx(es, key);
    assert(0 <= j2 < es.len() && es[j2].key == key);
}

/// An option exists exactly when a lookup of it yields a value: existence
/// and retrievability agree.
pub proof fn lemma_has_option_get(d: Seq<SectionModel>, name: Seq<char>, key: Seq<char>)
    ensures
        (has_sec(d, name) && has_key(d[sec_idx(d, name)].entries, key)) <==> lookup(
            d,
            name,
            key,
        ) is Some,
{
}

/// Removing a section removes exactly its name from the order.
pub proof fn lemma_remove_section_order(d: Seq<SectionModel>, name: Seq<char>)
    requires
        doc_inv(d),
        has_sec(d, name),
    ensures
        sec_names(remove_section_m(d, name)) == sec_names(d).remove(sec_idx(d, name)),
{
    assert(sec_names(remove_section_m(d, name)) =~= sec_names(d).remove(sec_idx(d, name)));
}

/// The structural invariant survives every mutator.
pub proof fn lemma_mutators_keep_inv(
    d: Seq<SectionModel>,
    name: Seq<char>,
    key: Seq<char>,
    value: Seq<char>,
)
    requires
        doc_inv(d),
    ensures
        !has_sec(d, name) ==> doc_inv(add_section_m(d, name)),
        has_sec(d, name) ==> doc_inv(set_m(d, name, key, value)),
        doc_inv(remove_section_m(d, name)),
        has_sec(d, name) ==> doc_inv(remove_option_m(d, name, key)),
{
    if !has_sec(d, name) {
        let d1 = add_section_m(d, name);
        assert forall|i: int| 0 <= i < d1.len() implies entry_keys_unique(
            #[trigger] d1[i].entries,
        ) by {
            if i < d.len() {
                assert(d1[i] == d[i]);
            }
        }
    }
    if has_sec(d, name) {
        let i = sec_idx(d, name);
        let es = d[i].entries;
        let d1 = set_m(d, name, key, value);
        assert forall|a: int, b: int| 0 <= a < b < d1.len() implies d1[a].name != d1[b].name by {
            assert(d1[a].name == d[a].name && d1[b].name == d[b].name);
        }
        assert(entry_keys_unique(set_entries_m(es, key, value)));
        assert forall|a: int| 0 <= a < d1.len() implies entry_keys_unique(
            #[trigger] d1[a].entries,
        ) by {
            if a != i {
                assert(d1[a] == d[a]);
            }
        }
        let d2 = remove_option_m(d, name, key);
        if has_key(es, key) {
            let j = ent_idx(es, key);
            assert(entry_keys_unique(es.remove(j)));
            assert forall|a: int| 0 <= a < d2.len() implies entry_keys_unique(
                #[trigger] d2[a].entries,
            ) by {
                if a != i {
                    assert(d2[a] == d[a]);
                }
            }
            assert forall|a: int, b: int| 0 <= a < b < d2.len() implies d2[a].name
                != d2[b].name by {
                assert(d2[a].name == d[a].name && d2[b].name == d[b].name);
            }
        }
        let d3 = remove_section_m(d, name);
        assert forall|a: int| 0 <= a < d3.len() implies entry_keys_unique(
            #[trigger] d3[a].entries,
        ) by {
            if a < i {
                assert(d3[a] == d[a]);
            } else {
                assert(d3[a] == d[a + 1]);
            }
        }
        assert forall|a: int, b: int| 0 <= a < b < d3.len() implies d3[a].name != d3[b].name by {
            if b < i {
            } else if a < i {
                assert(d3[b] == d[b + 1]);
            } else {
                assert(d3[a] == d[a + 1] && d3[b] == d[b + 1]);
            }
        }
    }
}


/// No newline anywhere in the sequence.
pub open spec fn no_nl(s: Seq<char>) -> bool {
    forall|i: int| 0 <= i < s.len() ==> s[i] != '\n'
}

/// A line as the line splitter hands it out: free of newlines and not ending
/// in a carriage return.
pub open spec fn clean_line(s: Seq<char>) -> bool {
    &&& no_nl(s)
    &&& s.len() > 0 ==> s.last() != '\r'
}

/// Drops one trailing newline, as the parser does before reading a line.
pub open spec fn line_trim(l: Seq<char>) -> Seq<char> {
    if l.len() > 0 && l.last() == '\n' {
        l.drop_last()
    } else {
        l
    }
}

/// A blank line or one opened by a comment mark: comment-buffer content.
pub open spec fn is_comment_line(t: Seq<char>) -> bool {
    t.len() == 0 || t[0] == '#' || t[0] == ';'
}

/// A line opening a section header.
pub open spec fn is_header_line(t: Seq<char>) -> bool {
    t.len() > 0 && t[0] == '['
}

/// The section name of a header line: everything between the opening bracket
/// and the last character.
pub open spec fn header_name(t: Seq<char>) -> Seq<char> {
    if t.len() >= 2 {
        t.subrange(1, t.len() - 1)
    } else {
        Seq::empty()
    }
}

/// The parser's running state: the document so far, the pending comment
/// block, and the name of the current section.
#[verifier::ext_equal]
pub struct ParseState {
    pub doc: Seq<SectionModel>,
    pub buf: Seq<Seq<char>>,
    pub cur: Seq<char>,
}

/// The state the parser starts from: a document (empty for a fresh store),
/// no pending comment, and the implicit section as current.
pub open spec fn init_state(doc: Seq<SectionModel>) -> ParseState {
    ParseState { doc: doc, buf: Seq::empty(), cur: "Default"@ }
}

/// One line of parsing. Comment-shaped lines grow the pending block. A
/// header line switches the current section, creating it with the pending
/// block as its comment when it is new. An option line needs a delimiter,
/// takes the pending block as its comment, and lands in the current section,
/// which is created first when it does not exist yet; a known key keeps its
/// position and has its value and comment replaced.
pub open spec fn step(st: ParseState, line: Seq<char>) -> Option<ParseState> {
    let t = line_trim(line);
    if is_comment_line(t) {
        Some(ParseState { doc: st.doc, buf: st.buf.push(t), cur: st.cur })
    } else if is_header_line(t) {
        let name = header_name(t);
        if has_sec(st.doc, name) {
            Some(ParseState { doc: st.doc, buf: st.buf, cur: name })
        } else {
            Some(
                ParseState {
                    doc: st.doc.push(SectionModel { name: name, comment: st.buf, entries: Seq::empty() }),
                    buf: Seq::empty(),
                    cur: name,
                },
            )
        }
    } else {
        match spec_find(t, '=') {
            None => None,
            Some(i) => {
                let key = t.subrange(0, i);
                let value = t.subrange(i + 1, t.len() as int);
                let doc0 = if has_sec(st.doc, st.cur) {
                    st.doc
                } else {
                    st.doc.push(empty_section(st.cur))
                };
                let si = sec_idx(doc0, st.cur);
                let sec = doc0[si];
                let es = if has_key(sec.entries, key) {
                    sec.entries.update(
                        ent_idx(sec.entries, key),
                        EntryModel { key: key, value: value, comment: st.buf },
                    )
                } else {
                    sec.entries.push(EntryModel { key: key, value: value, comment: st.buf })
                };
                Some(
                    ParseState {
                        doc: doc0.update(si, SectionModel { name: sec.name, comment: sec.comment, entries: es }),
                        buf: Seq::empty(),
                        cur: st.cur,
                    },
                )
            },
        }
    }
}

/// Parsing a sequence of lines: one step per line, stopping at the first
/// option line without a delimiter.
pub open spec fn run(st: ParseState, lines: Seq<Seq<char>>) -> Option<ParseState>
    decreases lines.len(),
{
    if lines.len() == 0 {
        Some(st)
    } else {
        match step(st, lines[0]) {
            None => None,
            Some(st2) => run(st2, lines.skip(1)),
        }
    }
}

/// The one line holding an entry's key and value.
pub open spec fn entry_line(e: EntryModel) -> Seq<char> {
    e.key + seq!['='] + e.value
}

/// The lines an entry serializes to: its comment block, then `key=value`.
pub open spec fn entry_lines(e: EntryModel) -> Seq<Seq<char>> {
    e.comment.push(entry_line(e))
}

/// The header line of a section name.
pub open spec fn header_line_of(name: Seq<char>) -> Seq<char> {
    seq!['['] + name + seq![']']
}

/// The lines a list of entries serializes to, in order.
pub open spec fn entries_lines(es: Seq<EntryModel>) -> Seq<Seq<char>>
    decreases es.len(),
{
    if es.len() == 0 {
        Seq::empty()
    } else {
        entry_lines(es[0]) + entries_lines(es.skip(1))
    }
}

/// The lines a section serializes to: its comment block, its header, then
/// its entries.
pub open spec fn section_lines(s: SectionModel) -> Seq<Seq<char>> {
    s.comment + seq![header_line_of(s.name)] + entries_lines(s.entries)
}

/// The lines a document serializes to, section by section.
pub open spec fn doc_lines(d: Seq<SectionModel>) -> Seq<Seq<char>>
    decreases d.len(),
{
    if d.len() == 0 {
        Seq::empty()
    } else {
        section_lines(d[0]) + doc_lines(d.skip(1))
    }
}

/// Lines joined into text, each closed by a newline.
pub open spec fn join_lines(ls: Seq<Seq<char>>) -> Seq<char>
    decreases ls.len(),
{
    if ls.len() == 0 {
        Seq::empty()
    } else {
        ls[0] + seq!['\n'] + join_lines(ls.skip(1))
    }
}

/// Drops every trailing carriage return.
pub open spec fn strip_cr(l: Seq<char>) -> Seq<char>
    decreases l.len(),
{
    if l.len() > 0 && l.last() == '\r' {
        strip_cr(l.drop_last())
    } else {
        l
    }
}

/// Text cut into lines at newlines, each line freed of trailing carriage
/// returns; a final fragment without a newline is a line of its own.
pub open spec fn split_lines_s(t: Seq<char>) -> Seq<Seq<char>>
    decreases t.len(),
    via split_lines_s_decreases
{
    if t.len() == 0 {
        Seq::empty()
    } else {
        match spec_find(t, '\n') {
            None => seq![strip_cr(t)],
            Some(i) => seq![strip_cr(t.subrange(0, i))] + split_lines_s(
                t.subrange(i + 1, t.len() as int),
            ),
        }
    }
}

#[via_fn]
proof fn split_lines_s_decreases(t: Seq<char>) {
    lemma_find_char(t, '\n');
}

/// What parsing a whole text means: split into lines, run from an empty
/// document; the document of the final state is the result.
pub open spec fn spec_parse(text: Seq<char>) -> Option<Seq<SectionModel>> {
    match run(init_state(Seq::empty()), split_lines_s(text)) {
        None => None,
        Some(st) => Some(st.doc),
    }
}

/// What serializing a document means.
pub open spec fn spec_render(d: Seq<SectionModel>) -> Seq<char> {
    join_lines(doc_lines(d))
}

/// A comment block as the parser builds them: every line comment-shaped and
/// clean.
pub open spec fn comment_ok(c: Seq<Seq<char>>) -> bool {
    forall|i: int| 0 <= i < c.len() ==> is_comment_line(#[trigger] c[i]) && clean_line(c[i])
}

/// An entry as the parser builds them: the key free of newlines and
/// delimiters and not opening like a comment or header, the value free of
/// newlines and not ending in a carriage return, the comment block well
/// shaped.
pub open spec fn entry_ok(e: EntryModel) -> bool {
    &&& no_nl(e.key)
    &&& spec_find(e.key, '=') is None
    &&& e.key.len() > 0 ==> (e.key[0] != '#' && e.key[0] != ';' && e.key[0] != '[')
    &&& no_nl(e.value)
    &&& e.value.len() > 0 ==> e.value.last() != '\r'
    &&& comment_ok(e.comment)
}

/// A section as the parser builds them.
pub open spec fn section_ok(s: SectionModel) -> bool {
    &&& no_nl(s.name)
    &&& comment_ok(s.comment)
    &&& forall|i: int| 0 <= i < s.entries.len() ==> entry_ok(#[trigger] s.entries[i])
    &&& entry_keys_unique(s.entries)
}

/// A document as the parser builds them: this is what the round trip needs.
pub open spec fn wf_doc(d: Seq<SectionModel>) -> bool {
    &&& forall|i: int| 0 <= i < d.len() ==> section_ok(#[trigger] d[i])
    &&& sec_names_unique(d)
}


/// Parsing distributes over concatenation of line lists.
pub proof fn lemma_run_append(st: ParseState, l1: Seq<Seq<char>>, l2: Seq<Seq<char>>)
    ensures
        run(st, l1 + l2) == match run(st, l1) {
            None => None::<ParseState>,
            Some(m) => run(m, l2),
        },
    decreases l1.len(),
{
    if l1.len() == 0 {
        assert(l1 + l2 =~= l2);
    } else {
        assert((l1 + l2)[0] == l1[0]);
        assert((l1 + l2).len() > 0);
        match step(st, l1[0]) {
            None => {
            },
            Some(st2) => {
                assert((l1 + l2).skip(1) =~= l1.skip(1) + l2);
                lemma_run_append(st2, l1.skip(1), l2);
            },
        }
    }
}

/// Parsing one more line is one more step.
pub proof fn lemma_run_snoc(st: ParseState, ls: Seq<Seq<char>>, l: Seq<char>)
    ensures
        run(st, ls.push(l)) == match run(st, ls) {
            None => None::<ParseState>,
            Some(m) => step(m, l),
        },
{
    assert(ls.push(l) =~= ls + seq![l]);
    lemma_run_append(st, ls, seq![l]);
    match run(st, ls) {
        None => {
        },
        Some(m) => {
            assert(seq![l].len() == 1);
            assert(seq![l][0] == l);
            match step(m, l) {
                None => {
                    assert(run(m, seq![l]) == None::<ParseState>);
                },
                Some(m2) => {
                    assert(seq![l].skip(1) =~= Seq::<Seq<char>>::empty());
                    assert(run(m2, seq![l].skip(1)) == Some(m2));
                    assert(run(m, seq![l]) == Some(m2));
                },
            }
        },
    }
}

/// A line without newlines is its own trimming.
pub proof fn lemma_trim_noop(l: Seq<char>)
    requires
        no_nl(l),
    ensures
        line_trim(l) == l,
{
}

/// Parsing a well-shaped comment block only grows the pending buffer.
pub proof fn lemma_run_comments(st: ParseState, c: Seq<Seq<char>>)
    requires
        comment_ok(c),
    ensures
        run(st, c) == Some(ParseState { doc: st.doc, buf: st.buf + c, cur: st.cur }),
    decreases c.len(),
{
    if c.len() == 0 {
        assert(st.buf + c =~= st.buf);
        assert(ParseState { doc: st.doc, buf: st.buf + c, cur: st.cur } =~= st);
    } else {
        lemma_trim_noop(c[0]);
        let st1 = ParseState { doc: st.doc, buf: st.buf.push(c[0]), cur: st.cur };
        assert(step(st, c[0]) == Some(st1));
        assert(comment_ok(c.skip(1)));
        lemma_run_comments(st1, c.skip(1));
        assert(st.buf.push(c[0]) + c.skip(1) =~= st.buf + c);
    }
}

/// How the parser reads the serialized line of a well-shaped entry: as that
/// entry's key and value.
proof fn lemma_entry_line_shape(e: EntryModel)
    requires
        entry_ok(e),
    ensures
        line_trim(entry_line(e)) == entry_line(e),
        !is_comment_line(entry_line(e)),
        !is_header_line(entry_line(e)),
        spec_find(entry_line(e), '=') == Some(e.key.len() as int),
        entry_line(e).subrange(0, e.key.len() as int) == e.key,
        entry_line(e).subrange(e.key.len() + 1 as int, entry_line(e).len() as int) == e.value,
{
    let t = entry_line(e);
    assert(t[e.key.len() as int] == '=');
    assert(no_nl(t)) by {
        assert(forall|i: int| 0 <= i < e.key.len() ==> t[i] == e.key[i]);
        assert(forall|i: int|
            e.key.len() + 1 <= i < t.len() ==> t[i] == e.value[i - e.key.len() - 1]);
    }
    lemma_trim_noop(t);
    if e.key.len() > 0 {
        assert(t[0] == e.key[0]);
    }
    lemma_find_char(e.key, '=');
    assert forall|j: int| 0 <= j < e.key.len() implies t[j] != '=' by {
        assert(t[j] == e.key[j]);
    }
    lemma_find_unique(t, '=', e.key.len() as int);
    assert(t.subrange(0, e.key.len() as int) =~= e.key);
    assert(t.subrange(e.key.len() + 1 as int, t.len() as int) =~= e.value);
}

/// Parsing the lines of a well-shaped entry appends it to the current
/// section, when that section exists and lacks the key.
proof fn lemma_run_entry(st: ParseState, e: EntryModel)
    requires
        entry_ok(e),
        sec_names_unique(st.doc),
        has_sec(st.doc, st.cur),
        !has_key(st.doc[sec_idx(st.doc, st.cur)].entries, e.key),
        st.buf == Seq::<Seq<char>>::empty(),
    ensures
        ({
            let si = sec_idx(st.doc, st.cur);
            let sec = st.doc[si];
            run(st, entry_lines(e)) == Some(
                ParseState {
                    doc: st.doc.update(
                        si,
                        SectionModel {
                            name: sec.name,
                            comment: sec.comment,
                            entries: sec.entries.push(e),
                        },
                    ),
                    buf: Seq::empty(),
                    cur: st.cur,
                },
            )
        }),
{
    let si = sec_idx(st.doc, st.cur);
    let sec = st.doc[si];
    let line = entry_line(e);
    lemma_run_snoc(st, e.comment, line);
    lemma_run_comments(st, e.comment);
    let m = ParseState { doc: st.doc, buf: st.buf + e.comment, cur: st.cur };
    assert(m.buf =~= e.comment);
    lemma_entry_line_shape(e);
    let t = line_trim(line);
    assert(t == line);
    let i = e.key.len() as int;
    assert(spec_find(t, '=') == Some(i));
    assert(t.subrange(0, i) == e.key);
    assert(t.subrange(i + 1, t.len() as int) == e.value);
    assert(EntryModel { key: t.subrange(0, i), value: t.subrange(i + 1, t.len() as int), comment: m.buf }
        =~= e);
    assert(step(m, line) == Some(
        ParseState {
            doc: st.doc.update(
                si,
                SectionModel { name: sec.name, comment: sec.comment, entries: sec.entries.push(e) },
            ),
            buf: Seq::empty(),
            cur: st.cur,
        },
    ));
}

/// Parsing the lines of a list of well-shaped entries appends them all to
/// the current section.
proof fn lemma_run_entries(st: ParseState, es: Seq<EntryModel>)
    requires
        sec_names_unique(st.doc),
        has_sec(st.doc, st.cur),
        st.buf == Seq::<Seq<char>>::empty(),
        forall|i: int| 0 <= i < es.len() ==> entry_ok(#[trigger] es[i]),
        entry_keys_unique(st.doc[sec_idx(st.doc, st.cur)].entries + es),
    ensures
        ({
            let si = sec_idx(st.doc, st.cur);
            let sec = st.doc[si];
            run(st, entries_lines(es)) == Some(
                ParseState {
                    doc: st.doc.update(
                        si,
                        SectionModel {
                            name: sec.name,
                            comment: sec.comment,
                            entries: sec.entries + es,
                        },
                    ),
                    buf: Seq::empty(),
                    cur: st.cur,
                },
            )
        }),
    decreases es.len(),
{
    let si = sec_idx(st.doc, st.cur);
    let sec = st.doc[si];
    if es.len() == 0 {
        assert(sec.entries + es =~= sec.entries);
        assert(st.doc.update(
            si,
            SectionModel { name: sec.name, comment: sec.comment, entries: sec.entries + es },
        ) =~= st.doc);
    } else {
        let e0 = es[0];
        assert(entry_ok(e0));
        assert(!has_key(sec.entries, e0.key)) by {
            if has_key(sec.entries, e0.key) {
                let j = choose|j: int| 0 <= j < sec.entries.len() && sec.entries[j].key == e0.key;
                let comb = sec.entries + es;
                assert(comb[j].key == e0.key);
                assert(comb[sec.entries.len() as int].key == e0.key);
            }
        }
        lemma_run_append(st, entry_lines(e0), entries_lines(es.skip(1)));
        lemma_run_entry(st, e0);
        let sec1 = SectionModel {
            name: sec.name,
            comment: sec.comment,
            entries: sec.entries.push(e0),
        };
        let st1 = ParseState { doc: st.doc.update(si, sec1), buf: Seq::empty(), cur: st.cur };
        assert(sec_names_unique(st1.doc)) by {
            assert(forall|a: int| 0 <= a < st1.doc.len() ==> st1.doc[a].name == st.doc[a].name);
        }
        lemma_sec_idx_is(st1.doc, st.cur, si);
        assert(entry_keys_unique(st1.doc[si].entries + es.skip(1))) by {
            assert(sec1.entries + es.skip(1) =~= sec.entries + es);
        }
        lemma_run_entries(st1, es.skip(1));
        let secf = SectionModel {
            name: sec.name,
            comment: sec.comment,
            entries: sec.entries + es,
        };
        assert(st1.doc.update(
            si,
            SectionModel { name: sec1.name, comment: sec1.comment, entries: sec1.entries + es.skip(1) },
        ) =~= st.doc.update(si, secf)) by {
            assert(sec1.entries + es.skip(1) =~= sec.entries + es);
        }
    }
}

/// Parsing the lines of a well-shaped, fresh section appends exactly that
/// section.
proof fn lemma_run_section(st: ParseState, s: SectionModel)
    requires
        section_ok(s),
        sec_names_unique(st.doc),
        !has_sec(st.doc, s.name),
        st.buf == Seq::<Seq<char>>::empty(),
    ensures
        run(st, section_lines(s)) == Some(
            ParseState { doc: st.doc.push(s), buf: Seq::empty(), cur: s.name },
        ),
{
    let h = header_line_of(s.name);
    lemma_run_append(st, s.comment + seq![h], entries_lines(s.entries));
    lemma_run_snoc(st, s.comment, h);
    assert(s.comment.push(h) =~= s.comment + seq![h]);
    lemma_run_comments(st, s.comment);
    let m = ParseState { doc: st.doc, buf: st.buf + s.comment, cur: st.cur };
    assert(m.buf =~= s.comment);
    // the header line parses back to the section's name
    assert(h.len() == s.name.len() + 2);
    assert(h[0] == '[');
    assert(no_nl(h)) by {
        assert(forall|i: int| 1 <= i < h.len() - 1 ==> h[i] == s.name[i - 1]);
        assert(h.last() == ']');
    }
    lemma_trim_noop(h);
    assert(!is_comment_line(h));
    assert(is_header_line(h));
    assert(header_name(h) =~= s.name);
    let s0 = SectionModel { name: s.name, comment: s.comment, entries: Seq::empty() };
    let st2 = ParseState { doc: st.doc.push(s0), buf: Seq::empty(), cur: s.name };
    assert(step(m, h) == Some(st2)) by {
        assert(SectionModel { name: header_name(line_trim(h)), comment: m.buf, entries: Seq::empty() }
            =~= s0);
    }
    let si = st.doc.len() as int;
    assert(sec_names_unique(st2.doc));
    lemma_sec_idx_is(st2.doc, s.name, si);
    assert(entry_keys_unique(st2.doc[si].entries + s.entries)) by {
        assert(s0.entries + s.entries =~= s.entries);
    }
    lemma_run_entries(st2, s.entries);
    assert(st2.doc.update(
        si,
        SectionModel { name: s0.name, comment: s0.comment, entries: s0.entries + s.entries },
    ) =~= st.doc.push(s)) by {
        assert(s0.entries + s.entries =~= s.entries);
    }
}

/// Parsing the lines of a list of well-shaped, fresh sections appends them
/// all, leaving the last as current.
proof fn lemma_run_sections(st: ParseState, ss: Seq<SectionModel>)
    requires
        st.buf == Seq::<Seq<char>>::empty(),
        forall|i: int| 0 <= i < ss.len() ==> section_ok(#[trigger] ss[i]),
        sec_names_unique(st.doc + ss),
    ensures
        run(st, doc_lines(ss)) == Some(
            ParseState {
                doc: st.doc + ss,
                buf: Seq::empty(),
                cur: if ss.len() == 0 {
                    st.cur
                } else {
                    ss.last().name
                },
            },
        ),
    decreases ss.len(),
{
    if ss.len() == 0 {
        assert(st.doc + ss =~= st.doc);
        assert(ParseState {
            doc: st.doc + ss,
            buf: Seq::empty(),
            cur: st.cur,
        } =~= st);
    } else {
        let s0 = ss[0];
        let comb = st.doc + ss;
        assert forall|a: int, b: int| 0 <= a < b < st.doc.len() implies st.doc[a].name
            != st.doc[b].name by {
            assert(comb[a] == st.doc[a]);
            assert(comb[b] == st.doc[b]);
        }
        assert(!has_sec(st.doc, s0.name)) by {
            if has_sec(st.doc, s0.name) {
                let j = choose|j: int| 0 <= j < st.doc.len() && st.doc[j].name == s0.name;
                assert(comb[j].name == s0.name);
                assert(comb[st.doc.len() as int].name == s0.name);
            }
        }
        lemma_run_append(st, section_lines(s0), doc_lines(ss.skip(1)));
        lemma_run_section(st, s0);
        let st1 = ParseState { doc: st.doc.push(s0), buf: Seq::empty(), cur: s0.name };
        assert(st1.doc + ss.skip(1) =~= st.doc + ss);
        lemma_run_sections(st1, ss.skip(1));
        if ss.len() == 1 {
            assert(ss.last() == s0);
        } else {
            assert(ss.skip(1).last() == ss.last());
        }
    }
}

/// Splitting undoes joining, line for line, for clean lines.
pub proof fn lemma_split_join(ls: Seq<Seq<char>>)
    requires
        forall|i: int| 0 <= i < ls.len() ==> clean_line(#[trigger] ls[i]),
    ensures
        split_lines_s(join_lines(ls)) == ls,
    decreases ls.len(),
{
    if ls.len() > 0 {
        let t = join_lines(ls);
        let l0 = ls[0];
        let n = l0.len() as int;
        let rest = join_lines(ls.skip(1));
        assert(t =~= l0 + seq!['\n'] + rest);
        assert(t[n] == '\n');
        assert forall|j: int| 0 <= j < n implies t[j] != '\n' by {
            assert(t[j] == l0[j]);
        }
        lemma_find_unique(t, '\n', n);
        assert(t.subrange(0, n) =~= l0);
        assert(strip_cr(l0) == l0);
        assert(t.subrange(n + 1, t.len() as int) =~= rest);
        lemma_split_join(ls.skip(1));
        assert(seq![l0] + split_lines_s(rest) =~= ls);
    }
}

/// Every line a well-shaped entry serializes to is clean.
proof fn lemma_entry_lines_clean(e: EntryModel)
    requires
        entry_ok(e),
    ensures
        forall|i: int| 0 <= i < entry_lines(e).len() ==> clean_line(#[trigger] entry_lines(e)[i]),
{
    let t = entry_line(e);
    assert(no_nl(t)) by {
        assert(forall|i: int| 0 <= i < e.key.len() ==> t[i] == e.key[i]);
        assert(forall|i: int|
            e.key.len() + 1 <= i < t.len() ==> t[i] == e.value[i - e.key.len() - 1]);
    }
    assert(t.last() != '\r') by {
        if e.value.len() > 0 {
            assert(t.last() == e.value.last());
        } else {
            assert(t.last() == '=');
        }
    }
    assert(clean_line(t));
    assert(forall|i: int| 0 <= i < e.comment.len() ==> entry_lines(e)[i] == e.comment[i]);
    assert(entry_lines(e)[e.comment.len() as int] == t);
}

/// Every line a list of well-shaped entries serializes to is clean.
proof fn lemma_entries_lines_clean(es: Seq<EntryModel>)
    requires
        forall|i: int| 0 <= i < es.len() ==> entry_ok(#[trigger] es[i]),
    ensures
        forall|i: int|
            0 <= i < entries_lines(es).len() ==> clean_line(#[trigger] entries_lines(es)[i]),
    decreases es.len(),
{
    if es.len() > 0 {
        lemma_entry_lines_clean(es[0]);
        lemma_entries_lines_clean(es.skip(1));
        let a = entry_lines(es[0]);
        let b = entries_lines(es.skip(1));
        assert forall|i: int| 0 <= i < entries_lines(es).len() implies clean_line(
            #[trigger] entries_lines(es)[i],
        ) by {
            if i < a.len() {
                assert(entries_lines(es)[i] == a[i]);
            } else {
                assert(entries_lines(es)[i] == b[i - a.len()]);
            }
        }
    }
}

/// Every line a well-shaped section serializes to is clean.
proof fn lemma_section_lines_clean(s: SectionModel)
    requires
        section_ok(s),
    ensures
        forall|i: int|
            0 <= i < section_lines(s).len() ==> clean_line(#[trigger] section_lines(s)[i]),
{
    let h = header_line_of(s.name);
    assert(no_nl(h)) by {
        assert(forall|i: int| 1 <= i < h.len() - 1 ==> h[i] == s.name[i - 1]);
        assert(h[0] == '[');
        assert(h.last() == ']');
    }
    assert(h.last() == ']');
    assert(clean_line(h));
    lemma_entries_lines_clean(s.entries);
    let a = s.comment + seq![h];
    let b = entries_lines(s.entries);
    assert forall|i: int| 0 <= i < section_lines(s).len() implies clean_line(
        #[trigger] section_lines(s)[i],
    ) by {
        if i < s.comment.len() {
            assert(section_lines(s)[i] == s.comment[i]);
        } else if i == s.comment.len() {
            assert(section_lines(s)[i] == h);
        } else {
            assert(section_lines(s)[i] == b[i - a.len()]);
        }
    }
}

/// Every line a well-formed document serializes to is clean.
proof fn lemma_doc_lines_clean(d: Seq<SectionModel>)
    requires
        forall|i: int| 0 <= i < d.len() ==> section_ok(#[trigger] d[i]),
    ensures
        forall|i: int| 0 <= i < doc_lines(d).len() ==> clean_line(#[trigger] doc_lines(d)[i]),
    decreases d.len(),
{
    if d.len() > 0 {
        lemma_section_lines_clean(d[0]);
        lemma_doc_lines_clean(d.skip(1));
        let a = section_lines(d[0]);
        let b = doc_lines(d.skip(1));
        assert forall|i: int| 0 <= i < doc_lines(d).len() implies clean_line(
            #[trigger] doc_lines(d)[i],
        ) by {
            if i < a.len() {
                assert(doc_lines(d)[i] == a[i]);
            } else {
                assert(doc_lines(d)[i] == b[i - a.len()]);
            }
        }
    }
}

/// The round trip: serializing a well-formed document and parsing the text
/// back yields the same document, sections, options, values and comments
/// alike.
pub proof fn lemma_render_parse_round_trip(d: Seq<SectionModel>)
    requires
        wf_doc(d),
    ensures
        spec_parse(spec_render(d)) == Some(d),
{
    lemma_doc_lines_clean(d);
    lemma_split_join(doc_lines(d));
    let st = init_state(Seq::empty());
    assert(st.doc + d =~= d);
    lemma_run_sections(st, d);
}


/// The parser invariant: the document so far is well formed, the pending
/// block is comment-shaped, and the current name is a valid section name.
pub open spec fn state_inv(st: ParseState) -> bool {
    &&& wf_doc(st.doc)
    &&& comment_ok(st.buf)
    &&& no_nl(st.cur)
}

/// One step on a clean line keeps the parser invariant.
proof fn lemma_step_wf(st: ParseState, line: Seq<char>)
    requires
        state_inv(st),
        clean_line(line),
    ensures
        match step(st, line) {
            None => true,
            Some(st2) => state_inv(st2),
        },
{
    lemma_trim_noop(line);
    let t = line;
    if is_comment_line(t) {
        let b = st.buf.push(t);
        assert forall|i: int| 0 <= i < b.len() implies is_comment_line(#[trigger] b[i])
            && clean_line(b[i]) by {
            if i < st.buf.len() {
                assert(b[i] == st.buf[i]);
            }
        }
    } else if is_header_line(t) {
        let name = header_name(t);
        assert(no_nl(name)) by {
            if t.len() >= 2 {
                assert(forall|i: int| 0 <= i < name.len() ==> name[i] == t[i + 1]);
            }
        }
        if !has_sec(st.doc, name) {
            let sn = SectionModel { name: name, comment: st.buf, entries: Seq::empty() };
            assert(section_ok(sn));
            let d1 = st.doc.push(sn);
            assert forall|i: int| 0 <= i < d1.len() implies section_ok(#[trigger] d1[i]) by {
                if i < st.doc.len() {
                    assert(d1[i] == st.doc[i]);
                }
            }
            assert forall|i: int, j: int| 0 <= i < j < d1.len() implies d1[i].name
                != d1[j].name by {
                if j < st.doc.len() {
                    assert(d1[i] == st.doc[i] && d1[j] == st.doc[j]);
                } else {
                    assert(d1[i] == st.doc[i]);
                    assert(!(st.doc[i].name == name));
                }
            }
        }
    } else {
        match spec_find(t, '=') {
            None => {
            },
            Some(i) => {
                lemma_find_char(t, '=');
                let key = t.subrange(0, i);
                let value = t.subrange(i + 1, t.len() as int);
                assert(no_nl(key));
                assert(no_nl(value));
                assert(spec_find(key, '=') is None) by {
                    lemma_find_char(key, '=');
                    match spec_find(key, '=') {
                        None => {
                        },
                        Some(j) => {
                            assert(key[j] == '=');
                            assert(t[j] == '=');
                        },
                    }
                }
                if key.len() > 0 {
                    assert(key[0] == t[0]);
                }
                if value.len() > 0 {
                    assert(value.last() == t.last());
                }
                let e = EntryModel { key: key, value: value, comment: st.buf };
                assert(entry_ok(e));
                let doc0 = if has_sec(st.doc, st.cur) {
                    st.doc
                } else {
                    st.doc.push(empty_section(st.cur))
                };
                assert(wf_doc(doc0)) by {
                    if !has_sec(st.doc, st.cur) {
                        assert(section_ok(empty_section(st.cur)));
                        assert forall|a: int| 0 <= a < doc0.len() implies section_ok(
                            #[trigger] doc0[a],
                        ) by {
                            if a < st.doc.len() {
                                assert(doc0[a] == st.doc[a]);
                            }
                        }
                        assert forall|a: int, b: int| 0 <= a < b < doc0.len() implies doc0[a].name
                            != doc0[b].name by {
                            if b < st.doc.len() {
                                assert(doc0[a] == st.doc[a] && doc0[b] == st.doc[b]);
                            } else {
                                assert(doc0[a] == st.doc[a]);
                                assert(!(st.doc[a].name == st.cur));
                            }
                        }
                    }
                }
                assert(has_sec(doc0, st.cur)) by {
                    if !has_sec(st.doc, st.cur) {
                        assert(doc0[st.doc.len() as int].name == st.cur);
                    }
                }
                let si = sec_idx(doc0, st.cur);
                assert(0 <= si < doc0.len() && doc0[si].name == st.cur);
                let sec = doc0[si];
                assert(section_ok(sec));
                let es = if has_key(sec.entries, key) {
                    sec.entries.update(ent_idx(sec.entries, key), e)
                } else {
                    sec.entries.push(e)
                };
                assert(forall|a: int| 0 <= a < es.len() ==> entry_ok(#[trigger] es[a])) by {
                    if has_key(sec.entries, key) {
                        let j = ent_idx(sec.entries, key);
                        assert(forall|a: int|
                            0 <= a < es.len() && a != j ==> es[a] == sec.entries[a]);
                    } else {
                        assert(forall|a: int|
                            0 <= a < sec.entries.len() ==> es[a] == sec.entries[a]);
                    }
                }
                assert(entry_keys_unique(es)) by {
                    if has_key(sec.entries, key) {
                        let j = ent_idx(sec.entries, key);
                        assert(0 <= j < sec.entries.len() && sec.entries[j].key == key);
                        assert forall|a: int, b: int| 0 <= a < b < es.len() implies es[a].key
                            != es[b].key by {
                            if a != j && b != j {
                                assert(es[a] == sec.entries[a] && es[b] == sec.entries[b]);
                            } else if a == j {
                                assert(es[b] == sec.entries[b]);
                                assert(sec.entries[j].key != sec.entries[b].key);
                            } else {
                                assert(es[a] == sec.entries[a]);
                                assert(sec.entries[a].key != sec.entries[j].key);
                            }
                        }
                    } else {
                        assert forall|a: int, b: int| 0 <= a < b < es.len() implies es[a].key
                            != es[b].key by {
                            if b < sec.entries.len() {
                                assert(es[a] == sec.entries[a] && es[b] == sec.entries[b]);
                            } else {
                                assert(es[a] == sec.entries[a]);
                                assert(!(sec.entries[a].key == key));
                            }
                        }
                    }
                }
                let secf = SectionModel { name: sec.name, comment: sec.comment, entries: es };
                assert(section_ok(secf));
                let d1 = doc0.update(si, secf);
                assert forall|a: int| 0 <= a < d1.len() implies section_ok(#[trigger] d1[a]) by {
                    if a != si {
                        assert(d1[a] == doc0[a]);
                    }
                }
                assert forall|a: int, b: int| 0 <= a < b < d1.len() implies d1[a].name
                    != d1[b].name by {
                    assert(d1[a].name == doc0[a].name);
                    assert(d1[b].name == doc0[b].name);
                }
            },
        }
    }
}

/// A whole run over clean lines keeps the parser invariant.
proof fn lemma_run_wf(st: ParseState, lines: Seq<Seq<char>>)
    requires
        state_inv(st),
        forall|i: int| 0 <= i < lines.len() ==> clean_line(#[trigger] lines[i]),
    ensures
        match run(st, lines) {
            None => true,
            Some(st2) => state_inv(st2),
        },
    decreases lines.len(),
{
    if lines.len() > 0 {
        lemma_step_wf(st, lines[0]);
        match step(st, lines[0]) {
            None => {
            },
            Some(st2) => {
                lemma_run_wf(st2, lines.skip(1));
            },
        }
    }
}

/// Stripping carriage returns off a newline-free line leaves a clean line.
proof fn lemma_strip_cr_clean(l: Seq<char>)
    requires
        no_nl(l),
    ensures
        clean_line(strip_cr(l)),
    decreases l.len(),
{
    if l.len() > 0 && l.last() == '\r' {
        assert(no_nl(l.drop_last()));
        lemma_strip_cr_clean(l.drop_last());
    }
}

/// Every line the splitter produces is clean.
pub proof fn lemma_split_clean(t: Seq<char>)
    ensures
        forall|i: int|
            0 <= i < split_lines_s(t).len() ==> clean_line(#[trigger] split_lines_s(t)[i]),
    decreases t.len(),
{
    if t.len() > 0 {
        lemma_find_char(t, '\n');
        match spec_find(t, '\n') {
            None => {
                lemma_strip_cr_clean(t);
            },
            Some(i) => {
                let piece = t.subrange(0, i);
                assert(no_nl(piece));
                lemma_strip_cr_clean(piece);
                let rest = t.subrange(i + 1, t.len() as int);
                lemma_split_clean(rest);
                let sp = split_lines_s(t);
                assert forall|a: int| 0 <= a < sp.len() implies clean_line(#[trigger] sp[a]) by {
                    if a > 0 {
                        assert(sp[a] == split_lines_s(rest)[a - 1]);
                    }
                }
            },
        }
    }
}

/// Whatever the parser accepts is a well-formed document.
pub proof fn lemma_parse_wf(text: Seq<char>)
    ensures
        match spec_parse(text) {
            None => true,
            Some(d) => wf_doc(d) && doc_inv(d),
        },
{
    lemma_split_clean(text);
    let st = init_state(Seq::empty());
    assert(state_inv(st)) by {
        reveal_strlit("Default");
        assert(no_nl("Default"@));
    }
    lemma_run_wf(st, split_lines_s(text));
}

/// The round-trip law in full: a document the parser produced from any text
/// serializes to text that parses back to the very same document.
pub proof fn lemma_parse_round_trip(text: Seq<char>, d: Seq<SectionModel>)
    requires
        spec_parse(text) == Some(d),
    ensures
        wf_doc(d),
        spec_parse(spec_render(d)) == Some(d),
{
    lemma_parse_wf(text);
    lemma_render_parse_round_trip(d);
}

/// Joining one more line appends it, closed by a newline.
pub proof fn lemma_join_snoc(ls: Seq<Seq<char>>, l: Seq<char>)
    ensures
        join_lines(ls.push(l)) == join_lines(ls) + l + seq!['\n'],
    decreases ls.len(),
{
    if ls.len() == 0 {
        assert(ls.push(l)[0] == l);
        assert(ls.push(l).skip(1) =~= Seq::<Seq<char>>::empty());
        assert(join_lines(ls.push(l).skip(1)) == Seq::<char>::empty());
        assert(join_lines(ls.push(l)) =~= join_lines(ls) + l + seq!['\n']);
    } else {
        assert(ls.push(l)[0] == ls[0]);
        assert(ls.push(l).skip(1) =~= ls.skip(1).push(l));
        lemma_join_snoc(ls.skip(1), l);
        assert(join_lines(ls.push(l)) =~= join_lines(ls) + l + seq!['\n']);
    }
}

/// One more entry's lines come after those of the entries before it.
pub proof fn lemma_entries_lines_snoc(es: Seq<EntryModel>, e: EntryModel)
    ensures
        entries_lines(es.push(e)) == entries_lines(es) + entry_lines(e),
    decreases es.len(),
{
    if es.len() == 0 {
        assert(es.push(e)[0] == e);
        assert(es.push(e).skip(1) =~= Seq::<EntryModel>::empty());
        assert(entries_lines(es.push(e).skip(1)) =~= Seq::<Seq<char>>::empty());
        assert(entries_lines(es.push(e)) =~= entries_lines(es) + entry_lines(e));
    } else {
        assert(es.push(e)[0] == es[0]);
        assert(es.push(e).skip(1) =~= es.skip(1).push(e));
        lemma_entries_lines_snoc(es.skip(1), e);
        assert(entries_lines(es.push(e)) =~= entries_lines(es) + entry_lines(e));
    }
}

/// One more section's lines come after those of the sections before it.
pub proof fn lemma_doc_lines_snoc(d: Seq<SectionModel>, s: SectionModel)
    ensures
        doc_lines(d.push(s)) == doc_lines(d) + section_lines(s),
    decreases d.len(),
{
    if d.len() == 0 {
        assert(d.push(s)[0] == s);
        assert(d.push(s).skip(1) =~= Seq::<SectionModel>::empty());
        assert(doc_lines(d.push(s).skip(1)) =~= Seq::<Seq<char>>::empty());
        assert(doc_lines(d.push(s)) =~= doc_lines(d) + section_lines(s));
    } else {
        assert(d.push(s)[0] == d[0]);
        assert(d.push(s).skip(1) =~= d.skip(1).push(s));
        lemma_doc_lines_snoc(d.skip(1), s);
        assert(doc_lines(d.push(s)) =~= doc_lines(d) + section_lines(s));
    }
}

/// Joining distributes over concatenation of line lists.
pub proof fn lemma_join_append(a: Seq<Seq<char>>, b: Seq<Seq<char>>)
    ensures
        join_lines(a + b) == join_lines(a) + join_lines(b),
    decreases a.len(),
{
    if a.len() == 0 {
        assert(a + b =~= b);
    } else {
        assert((a + b)[0] == a[0]);
        assert((a + b).skip(1) =~= a.skip(1) + b);
        lemma_join_append(a.skip(1), b);
        assert(join_lines(a + b) =~= join_lines(a) + join_lines(b));
    }
}


/// Whether a line can be parsed at all: comment-shaped, a header, or an
/// option line holding a delimiter.
pub open spec fn line_good(l: Seq<char>) -> bool {
    let t = line_trim(l);
    is_comment_line(t) || is_header_line(t) || spec_find(t, '=') is Some
}

/// A run over lines that are all parsable succeeds.
pub proof fn lemma_run_good(st: ParseState, lines: Seq<Seq<char>>)
    requires
        forall|i: int| 0 <= i < lines.len() ==> line_good(#[trigger] lines[i]),
    ensures
        run(st, lines) is Some,
    decreases lines.len(),
{
    if lines.len() > 0 {
        assert(line_good(lines[0]));
        match step(st, lines[0]) {
            None => {
                assert(false);
            },
            Some(st2) => {
                lemma_run_good(st2, lines.skip(1));
            },
        }
    }
}

/// A run stops with no result at the first unparsable line.
pub proof fn lemma_run_bad(st: ParseState, lines: Seq<Seq<char>>, i: int)
    requires
        0 <= i < lines.len(),
        !line_good(lines[i]),
        forall|j: int| 0 <= j < i ==> line_good(#[trigger] lines[j]),
    ensures
        run(st, lines) is None,
    decreases lines.len(),
{
    if i == 0 {
        assert(step(st, lines[0]) is None);
    } else {
        assert(line_good(lines[0]));
        match step(st, lines[0]) {
            None => {
                assert(false);
            },
            Some(st2) => {
                assert(lines.skip(1)[i - 1] == lines[i]);
                assert(forall|j: int| 0 <= j < i - 1 ==> lines.skip(1)[j] == lines[j + 1]);
                lemma_run_bad(st2, lines.skip(1), i - 1);
            },
        }
    }
}

/// One step keeps the structural invariant of the document, whatever the
/// line holds.
pub proof fn lemma_step_inv(st: ParseState, line: Seq<char>)
    requires
        doc_inv(st.doc),
    ensures
        match step(st, line) {
            None => true,
            Some(st2) => doc_inv(st2.doc),
        },
{
    let t = line_trim(line);
    if is_comment_line(t) {
    } else if is_header_line(t) {
        let name = header_name(t);
        if !has_sec(st.doc, name) {
            let d1 = st.doc.push(SectionModel { name: name, comment: st.buf, entries: Seq::empty() });
            assert forall|a: int, b: int| 0 <= a < b < d1.len() implies d1[a].name
                != d1[b].name by {
                if b < st.doc.len() {
                    assert(d1[a] == st.doc[a] && d1[b] == st.doc[b]);
                } else {
                    assert(d1[a] == st.doc[a]);
                    assert(!(st.doc[a].name == name));
                }
            }
            assert forall|a: int| 0 <= a < d1.len() implies entry_keys_unique(
                #[trigger] d1[a].entries,
            ) by {
                if a < st.doc.len() {
                    assert(d1[a] == st.doc[a]);
                }
            }
        }
    } else {
        match spec_find(t, '=') {
            None => {
            },
            Some(i) => {
                lemma_find_char(t, '=');
                let key = t.subrange(0, i);
                let doc0 = if has_sec(st.doc, st.cur) {
                    st.doc
                } else {
                    st.doc.push(empty_section(st.cur))
                };
                assert(doc_inv(doc0)) by {
                    if !has_sec(st.doc, st.cur) {
                        assert forall|a: int, b: int| 0 <= a < b < doc0.len() implies doc0[a].name
                            != doc0[b].name by {
                            if b < st.doc.len() {
                                assert(doc0[a] == st.doc[a] && doc0[b] == st.doc[b]);
                            } else {
                                assert(doc0[a] == st.doc[a]);
                                assert(!(st.doc[a].name == st.cur));
                            }
                        }
                        assert forall|a: int| 0 <= a < doc0.len() implies entry_keys_unique(
                            #[trigger] doc0[a].entries,
                        ) by {
                            if a < st.doc.len() {
                                assert(doc0[a] == st.doc[a]);
                            }
                        }
                    }
                }
                assert(has_sec(doc0, st.cur)) by {
                    if !has_sec(st.doc, st.cur) {
                        assert(doc0[st.doc.len() as int].name == st.cur);
                    }
                }
                let si = sec_idx(doc0, st.cur);
                assert(0 <= si < doc0.len() && doc0[si].name == st.cur);
                let sec = doc0[si];
                let e = EntryModel { key: key, value: t.subrange(i + 1, t.len() as int), comment: st.buf };
                let es = if has_key(sec.entries, key) {
                    sec.entries.update(ent_idx(sec.entries, key), e)
                } else {
                    sec.entries.push(e)
                };
                assert(entry_keys_unique(es)) by {
                    if has_key(sec.entries, key) {
                        let j = ent_idx(sec.entries, key);
                        assert(0 <= j < sec.entries.len() && sec.entries[j].key == key);
                        assert forall|a: int, b: int| 0 <= a < b < es.len() implies es[a].key
                            != es[b].key by {
                            if a != j && b != j {
                                assert(es[a] == sec.entries[a] && es[b] == sec.entries[b]);
                            } else if a == j {
                                assert(es[b] == sec.entries[b]);
                                assert(sec.entries[j].key != sec.entries[b].key);
                            } else {
                                assert(es[a] == sec.entries[a]);
                                assert(sec.entries[a].key != sec.entries[j].key);
                            }
                        }
                    } else {
                        assert forall|a: int, b: int| 0 <= a < b < es.len() implies es[a].key
                            != es[b].key by {
                            if b < sec.entries.len() {
                                assert(es[a] == sec.entries[a] && es[b] == sec.entries[b]);
                            } else {
                                assert(es[a] == sec.entries[a]);
                                assert(!(sec.entries[a].key == key));
                            }
                        }
                    }
                }
                let d1 = doc0.update(si, SectionModel { name: sec.name, comment: sec.comment, entries: es });
                assert forall|a: int, b: int| 0 <= a < b < d1.len() implies d1[a].name
                    != d1[b].name by {
                    assert(d1[a].name == doc0[a].name);
                    assert(d1[b].name == doc0[b].name);
                }
                assert forall|a: int| 0 <= a < d1.len() implies entry_keys_unique(
                    #[trigger] d1[a].entries,
                ) by {
                    if a != si {
                        assert(d1[a] == doc0[a]);
                    }
                }
            },
        }
    }
}

} // verus!
