//! The mathematical model of a document and of the two directions of the
//! text format: how raw text decomposes into lines and folds into a
//! document, and what text a document serializes to.
//!
//! A document is modeled as a sequence of `(section name, pairs)` entries,
//! each section being a sequence of `(key, value)` pairs; all of them
//! sequences of characters.

use vstd::prelude::*;

use crate::error::ParseError;
use crate::ordered_hashmap::om_get;
use crate::ordered_hashmap::om_insert;
use crate::parser::LineView;
use crate::parser::spec_parse_line;
use crate::text::find_char_from;

verus! {

/// The model of one section: its key-value pairs, in order.
pub type SecModel = Seq<(Seq<char>, Seq<char>)>;

/// The model of a document: its named sections, in order.
pub type DocModel = Seq<(Seq<char>, SecModel)>;

/// `doc` with `(k, v)` inserted into the section named `cur`: the section
/// is created at the end of the document when absent; within the section an
/// absent key is appended and a present key keeps its position.
pub open spec fn doc_insert(doc: DocModel, cur: Seq<char>, k: Seq<char>, v: Seq<char>) -> DocModel {
    let sec = match om_get(doc, cur) {
        Some(s) => s,
        None => Seq::<(Seq<char>, Seq<char>)>::empty(),
    };
    om_insert(doc, cur, om_insert(sec, k, v))
}

/// `s` with one trailing carriage return removed, if present.
pub open spec fn strip_cr(s: Seq<char>) -> Seq<char> {
    if s.len() > 0 && s.last() == '\r' {
        s.drop_last()
    } else {
        s
    }
}

/// The lines of `s`, as `str::lines` yields them: split at every newline,
/// with a carriage return immediately before a newline removed, and with no
/// final empty line when `s` ends with a newline.
pub open spec fn lines_of(s: Seq<char>) -> Seq<Seq<char>>
    decreases s.len(),
{
    if s.len() == 0 {
        Seq::empty()
    } else {
        let i = find_char_from(s, '\n', 0);
        if 0 <= i && i < s.len() {
            seq![strip_cr(s.take(i))] + lines_of(s.skip(i + 1))
        } else {
            seq![s]
        }
    }
}

/// Folds classified lines into a document, line by line: a header line
/// selects (but does not create) its section, an assignment line inserts
/// into the selected section, a blank line does nothing, and the first
/// failing line aborts the whole fold.
pub open spec fn spec_fold_lines(
    lines: Seq<Seq<char>>,
    lineno: int,
    doc: DocModel,
    cur: Seq<char>,
) -> Result<(DocModel, Seq<char>), ParseError>
    decreases lines.len(),
{
    if lines.len() == 0 {
        Ok((doc, cur))
    } else {
        match spec_parse_line(lines[0], lineno as usize) {
            Err(e) => Err(e),
            Ok(LineView::Blank) => spec_fold_lines(lines.drop_first(), lineno + 1, doc, cur),
            Ok(LineView::Header(name)) => spec_fold_lines(
                lines.drop_first(),
                lineno + 1,
                doc,
                name,
            ),
            Ok(LineView::Pair(k, v)) => spec_fold_lines(
                lines.drop_first(),
                lineno + 1,
                doc_insert(doc, cur, k, v),
                cur,
            ),
        }
    }
}

/// What parsing a whole text yields: the document together with the name of
/// the last section selected, or the error of the first malformed line,
/// numbered from 1.
pub open spec fn spec_parse_full(s: Seq<char>) -> Result<(DocModel, Seq<char>), ParseError> {
    spec_fold_lines(lines_of(s), 1, Seq::empty(), Seq::empty())
}

/// What parsing a whole text yields, keeping only the document.
pub open spec fn spec_parse_document(s: Seq<char>) -> Result<DocModel, ParseError> {
    match spec_parse_full(s) {
        Ok(p) => Ok(p.0),
        Err(e) => Err(e),
    }
}

/// The serialized form of one assignment: `key = value`.
pub open spec fn item_line(k: Seq<char>, v: Seq<char>) -> Seq<char> {
    k.push(' ').push('=').push(' ') + v
}

/// The serialized form of one section header: `[name]`.
pub open spec fn header_line(name: Seq<char>) -> Seq<char> {
    seq!['['] + name + seq![']']
}

/// The serialized assignments of one section, each on a line of its own.
pub open spec fn items_text(items: SecModel) -> Seq<char>
    decreases items.len(),
{
    if items.len() == 0 {
        Seq::empty()
    } else {
        item_line(items[0].0, items[0].1).push('\n') + items_text(items.drop_first())
    }
}

/// The serialized form of one section: its header line, then its
/// assignments.
pub open spec fn section_text(name: Seq<char>, items: SecModel) -> Seq<char> {
    header_line(name).push('\n') + items_text(items)
}

/// The serialized form of a document: its sections in order, with one blank
/// line between consecutive sections and none at the very end.
pub open spec fn doc_text(doc: DocModel) -> Seq<char>
    decreases doc.len(),
{
    if doc.len() == 0 {
        Seq::empty()
    } else if doc.len() == 1 {
        section_text(doc[0].0, doc[0].1)
    } else {
        section_text(doc[0].0, doc[0].1).push('\n') + doc_text(doc.drop_first())
    }
}

/// Serializing one more pair appends one more `key = value` line.
pub proof fn lemma_items_text_snoc(items: SecModel)
    requires
        items.len() > 0,
    ensures
        items_text(items) == items_text(items.drop_last()) + item_line(
            items.last().0,
            items.last().1,
        ).push('\n'),
    decreases items.len(),
{
    if items.len() == 1 {
        assert(items.drop_first() =~= Seq::<(Seq<char>, Seq<char>)>::empty());
        assert(items.drop_last() =~= Seq::<(Seq<char>, Seq<char>)>::empty());
        assert(items_text(items) =~= items_text(items.drop_last()) + item_line(
            items.last().0,
            items.last().1,
        ).push('\n'));
    } else {
        let t = items.drop_first();
        lemma_items_text_snoc(t);
        assert(t.drop_last() =~= items.drop_last().drop_first());
        assert(t.last() == items.last());
        assert(items_text(items) =~= items_text(items.drop_last()) + item_line(
            items.last().0,
            items.last().1,
        ).push('\n'));
    }
}

/// Serializing one more section appends a blank separator line (when it is
/// not the first section) and then the section's text.
pub proof fn lemma_doc_text_snoc(doc: DocModel)
    requires
        doc.len() > 0,
    ensures
        doc_text(doc) == doc_text(doc.drop_last()) + (if doc.len() > 1 {
            seq!['\n']
        } else {
            Seq::<char>::empty()
        }) + section_text(doc.last().0, doc.last().1),
    decreases doc.len(),
{
    if doc.len() == 1 {
        assert(doc.drop_last() =~= Seq::<(Seq<char>, SecModel)>::empty());
        assert(doc_text(doc) =~= doc_text(doc.drop_last()) + Seq::<char>::empty() + section_text(
            doc.last().0,
            doc.last().1,
        ));
    } else {
        let t = doc.drop_first();
        lemma_doc_text_snoc(t);
        assert(t.drop_last() =~= doc.drop_last().drop_first());
        assert(t.last() == doc.last());
        assert(doc_text(doc) =~= doc_text(doc.drop_last()) + seq!['\n'] + section_text(
            doc.last().0,
            doc.last().1,
        ));
    }
}

} // verus!
