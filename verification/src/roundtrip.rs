//! The round-trip law: a document built from clean names, keys and values
//! serializes to text that parses back to exactly the same document, with
//! the same section order, key order and values.
//!
//! "Clean" here names what the text format can carry at all: no embedded
//! newline or comment character, no whitespace at either end (the parser
//! trims it away), keys non-empty and free of `=`, section names not
//! beginning or ending with a bracket character, and every section holding
//! at least one pair (a section without pairs is never materialized by the
//! parser).  Outside those bounds serialization is lossy by design, so no
//! round trip can be promised.

use vstd::prelude::*;

use crate::error::ParseError;
use crate::model::DocModel;
use crate::model::SecModel;
use crate::model::doc_insert;
use crate::model::doc_text;
use crate::model::header_line;
use crate::model::item_line;
use crate::model::items_text;
use crate::model::lines_of;
use crate::model::section_text;
use crate::model::spec_fold_lines;
use crate::model::spec_parse_document;
use crate::model::strip_cr;
use crate::ordered_hashmap::om_contains;
use crate::ordered_hashmap::om_distinct;
use crate::ordered_hashmap::om_get;
use crate::ordered_hashmap::om_index_of;
use crate::ordered_hashmap::om_insert;
use crate::ordered_hashmap::lemma_om_index_of;
use crate::parser::LineView;
use crate::parser::spec_parse_line;
use crate::text::drop_while_end;
use crate::text::drop_while_start;
use crate::text::lemma_drop_while_end_noop;
use crate::text::lemma_drop_while_end_step;
use crate::text::lemma_drop_while_start_noop;
use crate::text::lemma_drop_while_start_step;
use crate::text::find_char_from;
use crate::text::is_bracket;
use crate::text::is_space;
use crate::text::lemma_find_char_from;
use crate::text::trim_brackets_spec;
use crate::text::trim_spec;

verus! {

/// Text that the format carries unchanged on a line: no newline, no
/// comment character, and no whitespace at either end.
pub open spec fn clean_text(s: Seq<char>) -> bool {
    &&& forall|i: int| 0 <= i < s.len() ==> s[i] != '\n' && s[i] != ';'
    &&& s.len() > 0 ==> !is_space(s[0]) && !is_space(s[s.len() - 1])
}

/// A section name the header syntax carries unchanged: clean text that
/// neither begins nor ends with a bracket character.
pub open spec fn clean_section_name(s: Seq<char>) -> bool {
    &&& clean_text(s)
    &&& s.len() > 0 ==> !is_bracket(s[0]) && !is_bracket(s[s.len() - 1])
}

/// A key the assignment syntax carries unchanged: non-empty clean text
/// that holds no `=` and does not begin with `[`.
pub open spec fn clean_key(s: Seq<char>) -> bool {
    &&& clean_text(s)
    &&& s.len() > 0
    &&& s[0] != '['
    &&& forall|i: int| 0 <= i < s.len() ==> s[i] != '='
}

/// A value the assignment syntax carries unchanged.
pub open spec fn clean_value(s: Seq<char>) -> bool {
    clean_text(s)
}

/// A section the format can reproduce: at least one pair, distinct keys,
/// every key and value clean.
pub open spec fn clean_section(items: SecModel) -> bool {
    &&& items.len() > 0
    &&& om_distinct(items)
    &&& forall|i: int|
        0 <= i < items.len() ==> clean_key(#[trigger] items[i].0) && clean_value(items[i].1)
}

/// A document the format can reproduce: distinct section names, every
/// name clean, every section clean.
pub open spec fn round_trippable(doc: DocModel) -> bool {
    &&& om_distinct(doc)
    &&& forall|i: int|
        0 <= i < doc.len() ==> clean_section_name(#[trigger] doc[i].0) && clean_section(doc[i].1)
}

/// Trimming leaves a sequence with clean ends unchanged.
proof fn lemma_trim_clean(s: Seq<char>)
    requires
        s.len() > 0 ==> !is_space(s[0]) && !is_space(s[s.len() - 1]),
    ensures
        trim_spec(s) == s,
{
    assert(drop_while_start(s, |c: char| is_space(c)) == s);
    assert(drop_while_end(s, |c: char| is_space(c)) == s);
}

/// A sequence without `c` has no first occurrence of `c`.
proof fn lemma_find_none(s: Seq<char>, c: char)
    requires
        forall|i: int| 0 <= i < s.len() ==> s[i] != c,
    ensures
        find_char_from(s, c, 0) == s.len(),
{
    lemma_find_char_from(s, c, 0);
}

/// The first occurrence of `c` is at `p` when nothing before `p` is `c`.
proof fn lemma_find_at(s: Seq<char>, c: char, p: int)
    requires
        0 <= p < s.len(),
        s[p] == c,
        forall|i: int| 0 <= i < p ==> s[i] != c,
    ensures
        find_char_from(s, c, 0) == p,
{
    lemma_find_char_from(s, c, 0);
    let f = find_char_from(s, c, 0);
    if f < p {
        assert(s[f] == c);
    }
}

/// An empty line parses as blank.
proof fn lemma_parse_blank_line(index: usize)
    ensures
        spec_parse_line(Seq::<char>::empty(), index) == Ok::<LineView, ParseError>(
            LineView::Blank,
        ),
{
    let s = Seq::<char>::empty();
    lemma_find_none(s, ';');
    assert(s.take(0) =~= s);
    lemma_trim_clean(s);
}

/// A header line built from a clean name parses back to that name.
proof fn lemma_parse_header_line(name: Seq<char>, index: usize)
    requires
        clean_section_name(name),
    ensures
        spec_parse_line(header_line(name), index) == Ok::<LineView, ParseError>(
            LineView::Header(name),
        ),
{
    let s = header_line(name);
    assert(s.len() == name.len() + 2);
    assert(s[0] == '[');
    assert(s[s.len() - 1] == ']');
    assert(forall|i: int| 0 <= i < name.len() ==> s[1 + i] == name[i]);
    lemma_find_none(s, ';');
    assert(s.take(s.len() as int) =~= s);
    lemma_trim_clean(s);
    let content = trim_spec(s.take(find_char_from(s, ';', 0)));
    assert(content == s);
    // stripping the brackets from both ends gives back the name
    let br = |c: char| is_bracket(c);
    lemma_drop_while_start_step(s, br);
    assert(s.drop_first() =~= name.push(']'));
    if name.len() == 0 {
        lemma_drop_while_start_step(name.push(']'), br);
        assert(name.push(']').drop_first() =~= Seq::<char>::empty());
        lemma_drop_while_start_noop(Seq::<char>::empty(), br);
        assert(drop_while_start(s, br) == Seq::<char>::empty());
        lemma_drop_while_end_noop(Seq::<char>::empty(), br);
        assert(trim_brackets_spec(content) == name);
    } else {
        lemma_drop_while_start_noop(name.push(']'), br);
        assert(drop_while_start(s, br) == name.push(']'));
        lemma_drop_while_end_step(name.push(']'), br);
        assert(name.push(']').drop_last() =~= name);
        lemma_drop_while_end_noop(name, br);
        assert(drop_while_end(name.push(']'), br) == name);
        assert(trim_brackets_spec(content) == name);
    }
}

/// An assignment line built from a clean key and value parses back to
/// that pair.
proof fn lemma_parse_item_line(k: Seq<char>, v: Seq<char>, index: usize)
    requires
        clean_key(k),
        clean_value(v),
    ensures
        spec_parse_line(item_line(k, v), index) == Ok::<LineView, ParseError>(
            LineView::Pair(k, v),
        ),
{
    let s = item_line(k, v);
    let kl = k.len() as int;
    assert(s.len() == kl + 3 + v.len());
    assert(forall|i: int| 0 <= i < kl ==> s[i] == k[i]);
    assert(s[kl] == ' ');
    assert(s[kl + 1] == '=');
    assert(s[kl + 2] == ' ');
    assert(forall|i: int| 0 <= i < v.len() ==> s[kl + 3 + i] == v[i]);
    lemma_find_none(s, ';');
    assert(s.take(s.len() as int) =~= s);
    let sp = |c: char| is_space(c);
    // trimming the whole line
    let content = if v.len() > 0 {
        s
    } else {
        s.drop_last()
    };
    if v.len() > 0 {
        lemma_trim_clean(s);
        assert(trim_spec(s) == content);
    } else {
        assert(s[s.len() - 1] == ' ');
        assert(drop_while_start(s, sp) == s);
        assert(s.drop_last() =~= k.push(' ').push('='));
        assert(drop_while_end(s, sp) == drop_while_end(k.push(' ').push('='), sp));
        assert(k.push(' ').push('=')[kl + 1] == '=');
        assert(drop_while_end(k.push(' ').push('='), sp) == k.push(' ').push('='));
        assert(trim_spec(s) =~= content);
    }
    assert(content.len() > 0);
    assert(content[0] == k[0]);
    assert(content[0] != '[');
    // the first `=` sits right after the key and its following space
    lemma_find_at(content, '=', kl + 1);
    let e = find_char_from(content, '=', 0);
    assert(e == kl + 1);
    assert(e < content.len());
    // the key side trims back to the key
    assert(content.take(e) =~= k.push(' '));
    assert(drop_while_start(k.push(' '), sp) == k.push(' '));
    assert(k.push(' ').drop_last() =~= k);
    assert(drop_while_end(k.push(' '), sp) == drop_while_end(k, sp));
    assert(drop_while_end(k, sp) == k);
    assert(trim_spec(content.take(e)) == k);
    // the value side trims back to the value
    if v.len() > 0 {
        assert(content.skip(e + 1) =~= v.insert(0, ' '));
        assert(v.insert(0, ' ').drop_first() =~= v);
        assert(drop_while_start(v.insert(0, ' '), sp) == drop_while_start(v, sp));
        assert(drop_while_start(v, sp) == v);
        assert(drop_while_end(v, sp) == v);
        assert(trim_spec(content.skip(e + 1)) == v);
    } else {
        assert(content.skip(e + 1) =~= v);
        assert(trim_spec(v) =~= v);
    }
}


/// The serialized lines of one section's pairs.
pub open spec fn item_lines(items: SecModel) -> Seq<Seq<char>> {
    items.map_values(|p: (Seq<char>, Seq<char>)| item_line(p.0, p.1))
}

/// The serialized lines of one section: its header, then its pairs.
pub open spec fn sec_lines(name: Seq<char>, items: SecModel) -> Seq<Seq<char>> {
    seq![header_line(name)] + item_lines(items)
}

/// The serialized lines of a document, with one blank line between
/// consecutive sections.
pub open spec fn doc_lines(doc: DocModel) -> Seq<Seq<char>>
    decreases doc.len(),
{
    if doc.len() == 0 {
        Seq::empty()
    } else if doc.len() == 1 {
        sec_lines(doc[0].0, doc[0].1)
    } else {
        sec_lines(doc[0].0, doc[0].1) + seq![Seq::<char>::empty()] + doc_lines(doc.drop_first())
    }
}

/// Splitting at newlines takes off a first line that holds none and does
/// not end in a carriage return.
proof fn lemma_lines_cons(x: Seq<char>, rest: Seq<char>)
    requires
        forall|i: int| 0 <= i < x.len() ==> x[i] != '\n',
        x.len() > 0 ==> x[x.len() - 1] != '\r',
    ensures
        lines_of(x + seq!['\n'] + rest) == seq![x] + lines_of(rest),
{
    let s = x + seq!['\n'] + rest;
    assert(s.len() == x.len() + 1 + rest.len());
    assert(forall|i: int| 0 <= i < x.len() ==> s[i] == x[i]);
    assert(s[x.len() as int] == '\n');
    lemma_find_at(s, '\n', x.len() as int);
    assert(s.take(x.len() as int) =~= x);
    assert(strip_cr(x) == x);
    assert(s.skip(x.len() as int + 1) =~= rest);
    assert(lines_of(s) == seq![x] + lines_of(rest));
}

/// An assignment line holds no newline and does not end in a carriage
/// return.
proof fn lemma_item_line_clean(k: Seq<char>, v: Seq<char>)
    requires
        clean_key(k),
        clean_value(v),
    ensures
        forall|i: int| 0 <= i < item_line(k, v).len() ==> item_line(k, v)[i] != '\n',
        item_line(k, v)[item_line(k, v).len() - 1] != '\r',
{
    let s = item_line(k, v);
    let kl = k.len() as int;
    assert forall|i: int| 0 <= i < s.len() implies s[i] != '\n' by {
        if i < kl {
            assert(s[i] == k[i]);
        } else if i >= kl + 3 {
            assert(s[i] == v[i - kl - 3]);
        }
    }
    if v.len() > 0 {
        assert(s[s.len() - 1] == v[v.len() - 1]);
        assert(is_space('\r'));
    } else {
        assert(s[s.len() - 1] == ' ');
    }
}

/// The lines of a section's serialized pairs followed by anything are
/// those pair lines, then the lines of the rest.
proof fn lemma_lines_items(items: SecModel, tail: Seq<char>)
    requires
        forall|i: int|
            0 <= i < items.len() ==> clean_key(#[trigger] items[i].0) && clean_value(items[i].1),
    ensures
        lines_of(items_text(items) + tail) == item_lines(items) + lines_of(tail),
    decreases items.len(),
{
    if items.len() == 0 {
        assert(items_text(items) + tail =~= tail);
        assert(item_lines(items) =~= Seq::<Seq<char>>::empty());
        assert(item_lines(items) + lines_of(tail) =~= lines_of(tail));
    } else {
        let k = items[0].0;
        let v = items[0].1;
        let line0 = item_line(k, v);
        let rest = items.drop_first();
        lemma_item_line_clean(k, v);
        assert(items_text(items) + tail =~= line0 + seq!['\n'] + (items_text(rest) + tail));
        lemma_lines_cons(line0, items_text(rest) + tail);
        lemma_lines_items(rest, tail);
        assert(item_lines(items) =~= seq![line0] + item_lines(rest));
        assert(lines_of(items_text(items) + tail) =~= item_lines(items) + lines_of(tail));
    }
}

/// A header line holds no newline and does not end in a carriage return.
proof fn lemma_header_line_clean(name: Seq<char>)
    requires
        clean_section_name(name),
    ensures
        forall|i: int| 0 <= i < header_line(name).len() ==> header_line(name)[i] != '\n',
        header_line(name)[header_line(name).len() - 1] != '\r',
{
    let s = header_line(name);
    assert forall|i: int| 0 <= i < s.len() implies s[i] != '\n' by {
        if 1 <= i < s.len() - 1 {
            assert(s[i] == name[i - 1]);
        }
    }
    assert(s[s.len() - 1] == ']');
}

/// The lines of a serialized document are its sections' lines with one
/// blank line between consecutive sections.
proof fn lemma_lines_doc(doc: DocModel)
    requires
        forall|i: int|
            0 <= i < doc.len() ==> clean_section_name(#[trigger] doc[i].0) && clean_section(
                doc[i].1,
            ),
    ensures
        lines_of(doc_text(doc)) == doc_lines(doc),
    decreases doc.len(),
{
    if doc.len() == 0 {
        assert(lines_of(doc_text(doc)) =~= doc_lines(doc));
    } else {
        let name = doc[0].0;
        let items = doc[0].1;
        let hdr = header_line(name);
        lemma_header_line_clean(name);
        if doc.len() == 1 {
            assert(doc_text(doc) == section_text(name, items));
            assert(section_text(name, items) =~= hdr + seq!['\n'] + items_text(items));
            lemma_lines_cons(hdr, items_text(items));
            assert(items_text(items) =~= items_text(items) + Seq::<char>::empty());
            lemma_lines_items(items, Seq::<char>::empty());
            assert(lines_of(Seq::<char>::empty()) =~= Seq::<Seq<char>>::empty());
            assert(lines_of(doc_text(doc)) =~= doc_lines(doc));
        } else {
            let rest = doc.drop_first();
            assert(doc_text(doc) == section_text(name, items).push('\n') + doc_text(rest));
            assert(doc_text(doc) =~= hdr + seq!['\n'] + (items_text(items) + (seq!['\n']
                + doc_text(rest))));
            lemma_lines_cons(hdr, items_text(items) + (seq!['\n'] + doc_text(rest)));
            lemma_lines_items(items, seq!['\n'] + doc_text(rest));
            assert(seq!['\n'] + doc_text(rest) =~= Seq::<char>::empty() + seq!['\n'] + doc_text(
                rest,
            ));
            lemma_lines_cons(Seq::<char>::empty(), doc_text(rest));
            lemma_lines_doc(rest);
            assert(lines_of(doc_text(doc)) =~= doc_lines(doc));
        }
    }
}


/// How appending a pair moves the first-occurrence index of a key.
proof fn lemma_om_index_push<T>(m: Seq<(Seq<char>, T)>, p: (Seq<char>, T), k: Seq<char>)
    ensures
        om_contains(m, k) ==> om_index_of(m.push(p), k) == om_index_of(m, k),
        !om_contains(m, k) && p.0 == k ==> om_index_of(m.push(p), k) == m.len(),
        !om_contains(m, k) && p.0 != k ==> !om_contains(m.push(p), k),
        om_contains(m.push(p), k) <==> om_contains(m, k) || p.0 == k,
{
    lemma_om_index_of(m, k);
    lemma_om_index_of(m.push(p), k);
    let f1 = om_index_of(m, k);
    let f2 = om_index_of(m.push(p), k);
    assert(forall|j: int| 0 <= j < m.len() ==> m.push(p)[j] == m[j]);
    assert(m.push(p)[m.len() as int] == p);
    if om_contains(m, k) {
        if f2 < f1 {
            assert(m[f2].0 == k);
        }
        if f1 < f2 {
            assert(m.push(p)[f1].0 == k);
        }
    } else {
        if p.0 == k {
            if f2 < m.len() {
                assert(m[f2].0 == k);
            }
        } else {
            if f2 < m.len() + 1 {
                assert(m.push(p)[f2].0 == k);
                if f2 < m.len() {
                    assert(m[f2].0 == k);
                }
            }
        }
    }
}

/// Folding a section's pair lines inserts those pairs, in order, at the
/// end of the section under construction, which sits last in the document.
proof fn lemma_fold_items(
    m0: DocModel,
    name: Seq<char>,
    done: SecModel,
    todo: SecModel,
    rest: Seq<Seq<char>>,
    lineno: int,
)
    requires
        !om_contains(m0, name),
        forall|i: int|
            0 <= i < todo.len() ==> clean_key(#[trigger] todo[i].0) && clean_value(todo[i].1),
        forall|i: int| 0 <= i < todo.len() ==> !om_contains(done, #[trigger] todo[i].0),
        om_distinct(todo),
    ensures
        spec_fold_lines(item_lines(todo) + rest, lineno, m0.push((name, done)), name)
            == spec_fold_lines(rest, lineno + todo.len(), m0.push((name, done + todo)), name),
    decreases todo.len(),
{
    if todo.len() == 0 {
        assert(item_lines(todo) + rest =~= rest);
        assert(done + todo =~= done);
    } else {
        let k0 = todo[0].0;
        let v0 = todo[0].1;
        let line0 = item_line(k0, v0);
        let todo2 = todo.drop_first();
        let lines = item_lines(todo) + rest;
        assert(lines[0] == line0);
        assert(lines.drop_first() =~= item_lines(todo2) + rest);
        lemma_parse_item_line(k0, v0, lineno as usize);
        let m = m0.push((name, done));
        // the insertion lands in the section named `name`, which is last
        lemma_om_index_push(m0, (name, done), name);
        assert(om_get(m, name) == Some(done));
        assert(!om_contains(done, k0));
        let done2 = done.push((k0, v0));
        assert(om_insert(done, k0, v0) == done2);
        assert(doc_insert(m, name, k0, v0) =~= m0.push((name, done2)));
        assert forall|i: int| 0 <= i < todo2.len() implies !om_contains(
            done2,
            #[trigger] todo2[i].0,
        ) by {
            assert(todo2[i] == todo[i + 1]);
            assert(todo[i + 1].0 != k0);
            lemma_om_index_push(done, (k0, v0), todo2[i].0);
        }
        lemma_fold_items(m0, name, done2, todo2, rest, lineno + 1);
        assert(done2 + todo2 =~= done + todo);
        assert(spec_fold_lines(lines, lineno, m, name) == spec_fold_lines(
            item_lines(todo2) + rest,
            lineno + 1,
            m0.push((name, done2)),
            name,
        ));
    }
}

/// Folding a document's serialized lines from a state whose sections the
/// document does not name appends exactly the document's sections and
/// leaves the last section name selected.
proof fn lemma_fold_doc(m0: DocModel, todo: DocModel, lineno: int, cur: Seq<char>)
    requires
        forall|i: int| 0 <= i < todo.len() ==> !om_contains(m0, #[trigger] todo[i].0),
        om_distinct(todo),
        forall|i: int|
            0 <= i < todo.len() ==> clean_section_name(#[trigger] todo[i].0) && clean_section(
                todo[i].1,
            ),
    ensures
        spec_fold_lines(doc_lines(todo), lineno, m0, cur) == Ok::<
            (DocModel, Seq<char>),
            ParseError,
        >((m0 + todo, if todo.len() > 0 {
            todo.last().0
        } else {
            cur
        })),
    decreases todo.len(),
{
    if todo.len() == 0 {
        assert(m0 + todo =~= m0);
    } else {
        let name = todo[0].0;
        let items = todo[0].1;
        let hdr = header_line(name);
        let rest = todo.drop_first();
        let ghost tail0: Seq<Seq<char>> = if todo.len() == 1 {
            Seq::empty()
        } else {
            seq![Seq::<char>::empty()] + doc_lines(rest)
        };
        let lines = doc_lines(todo);
        assert(lines =~= seq![hdr] + item_lines(items) + tail0);
        assert(lines[0] == hdr);
        lemma_parse_header_line(name, lineno as usize);
        assert(lines.drop_first() =~= item_lines(items) + tail0);
        // the first pair creates the section at the end of the document
        let k0 = items[0].0;
        let v0 = items[0].1;
        let items2 = items.drop_first();
        assert(item_lines(items) + tail0 =~= seq![item_line(k0, v0)] + (item_lines(items2)
            + tail0));
        lemma_parse_item_line(k0, v0, (lineno + 1) as usize);
        lemma_om_index_of(m0, name);
        assert(om_get(m0, name) is None);
        let sec1 = Seq::<(Seq<char>, Seq<char>)>::empty().push((k0, v0));
        assert(om_insert(Seq::<(Seq<char>, Seq<char>)>::empty(), k0, v0) == sec1);
        assert(doc_insert(m0, name, k0, v0) == m0.push((name, sec1)));
        assert((item_lines(items) + tail0).drop_first() =~= item_lines(items2) + tail0);
        // the remaining pairs extend that section in place
        assert forall|i: int| 0 <= i < items2.len() implies !om_contains(
            sec1,
            #[trigger] items2[i].0,
        ) by {
            assert(items2[i] == items[i + 1]);
            assert(items[i + 1].0 != k0);
            lemma_om_index_of(sec1, items2[i].0);
        }
        lemma_fold_items(m0, name, sec1, items2, tail0, lineno + 2);
        assert(sec1 + items2 =~= items);
        let m1 = m0.push((name, items));
        let lmid = lineno + 2 + items2.len();
        assert(spec_fold_lines(lines, lineno, m0, cur) == spec_fold_lines(
            item_lines(items) + tail0,
            lineno + 1,
            m0,
            name,
        ));
        assert(spec_fold_lines(item_lines(items) + tail0, lineno + 1, m0, name)
            == spec_fold_lines(
            item_lines(items2) + tail0,
            lineno + 2,
            m0.push((name, sec1)),
            name,
        ));
        assert(m0.push((name, sec1 + items2)) == m1);
        assert(spec_fold_lines(lines, lineno, m0, cur) == spec_fold_lines(tail0, lmid, m1, name));
        if todo.len() == 1 {
            assert(m0 + todo =~= m1);
            assert(todo.last() == todo[0]);
        } else {
            assert(tail0[0] == Seq::<char>::empty());
            lemma_parse_blank_line(lmid as usize);
            assert(tail0.drop_first() =~= doc_lines(rest));
            assert forall|i: int| 0 <= i < rest.len() implies !om_contains(
                m1,
                #[trigger] rest[i].0,
            ) by {
                assert(rest[i] == todo[i + 1]);
                assert(todo[i + 1].0 != name);
                lemma_om_index_push(m0, (name, items), rest[i].0);
            }
            lemma_fold_doc(m1, rest, lmid + 1, name);
            assert(m1 + rest =~= m0 + todo);
            assert(rest.last() == todo.last());
            assert(spec_fold_lines(tail0, lmid, m1, name) == spec_fold_lines(
                doc_lines(rest),
                lmid + 1,
                m1,
                name,
            ));
        }
    }
}

/// Round trip: a document that the format can reproduce serializes to
/// text that parses back to exactly the same document, with the same
/// section order, the same key order in every section, and the same
/// values.
pub proof fn lemma_round_trip(doc: DocModel)
    requires
        round_trippable(doc),
    ensures
        spec_parse_document(doc_text(doc)) == Ok::<DocModel, ParseError>(doc),
{
    lemma_lines_doc(doc);
    assert forall|i: int| 0 <= i < doc.len() implies !om_contains(
        Seq::<(Seq<char>, SecModel)>::empty(),
        #[trigger] doc[i].0,
    ) by {
        lemma_om_index_of(Seq::<(Seq<char>, SecModel)>::empty(), doc[i].0);
    }
    lemma_fold_doc(Seq::empty(), doc, 1, Seq::empty());
    assert(Seq::<(Seq<char>, SecModel)>::empty() + doc =~= doc);
}

} // verus!
