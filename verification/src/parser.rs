//! The line parser.
//!
//! `parse_line` classifies a single line of an INI file as blank, a section
//! header, or a key-value assignment, and reports anything else as a typed
//! error carrying the caller's line number.  `spec_parse_line` states the
//! classification rules over the line's characters; the executable function
//! returns exactly what the specification says, for every line.

use vstd::prelude::*;

use vstd::string::StrSliceExecFns;

use crate::error::ParseError;
use crate::text::find_char_from;
use crate::text::find_char_in;
use crate::text::lemma_find_char_from;
use crate::text::str_chars;
use crate::text::trim_bounds;
use crate::text::trim_bracket_bounds;
use crate::text::trim_brackets_spec;
use crate::text::trim_spec;

verus! {

/// The classification of one line, at the specification level.
pub ghost enum LineView {
    /// Nothing left after comment stripping and trimming
    Blank,
    /// `[name]`, with bracket characters stripped from both ends
    Header(Seq<char>),
    /// `key = value`, both sides trimmed; the value may be empty
    Pair(Seq<char>, Seq<char>),
}

/// The classification of one line: blank, a section header, or a key-value
/// assignment.
#[derive(Debug)]
pub enum Parsed {
    /// empty line (or a line holding only a comment)
    Empty,
    /// [section]
    Section(String),
    /// item = value
    Value(String, String),
}

impl View for Parsed {
    type V = LineView;

    open spec fn view(&self) -> LineView {
        match self {
            Parsed::Empty => LineView::Blank,
            Parsed::Section(n) => LineView::Header(n@),
            Parsed::Value(k, v) => LineView::Pair(k@, v@),
        }
    }
}

/// What `parse_line` returns for the line `s` when the caller numbers it
/// `index`:
/// everything from the first `;` on is dropped and the rest trimmed;
/// an empty remainder is blank; a remainder opening with `[` must close
/// with `]` and names a section; otherwise the remainder must contain `=`,
/// splits at the first one, and both sides are trimmed, the key being
/// required not to be empty.
pub open spec fn spec_parse_line(s: Seq<char>, index: usize) -> Result<LineView, ParseError> {
    let content = trim_spec(s.take(find_char_from(s, ';', 0)));
    if content.len() == 0 {
        Ok(LineView::Blank)
    } else if content[0] == '[' {
        if content[content.len() - 1] == ']' {
            Ok(LineView::Header(trim_brackets_spec(content)))
        } else {
            Err(ParseError::IncorrectSection(index))
        }
    } else {
        let e = find_char_from(content, '=', 0);
        if e < content.len() {
            let k = trim_spec(content.take(e));
            let v = trim_spec(content.skip(e + 1));
            if k.len() == 0 {
                Err(ParseError::EmptyKey(index))
            } else {
                Ok(LineView::Pair(k, v))
            }
        } else {
            Err(ParseError::IncorrectSyntax(index))
        }
    }
}

/// Parses a single line of an INI file, reporting `index` as the line
/// number in any error.
pub fn parse_line(line: &str, index: usize) -> (r: Result<Parsed, ParseError>)
    ensures
        match r {
            Ok(p) => spec_parse_line(line@, index) == Ok::<LineView, ParseError>(p@),
            Err(e) => spec_parse_line(line@, index) == Err::<LineView, ParseError>(e),
        },
{
    let v = str_chars(line);
    let n = v.len();
    let semi = find_char_in(&v, ';', 0, n);
    proof {
        lemma_find_char_from(line@, ';', 0);
        assert(semi as int == find_char_from(line@, ';', 0));
        assert(v@.subrange(0, semi as int) =~= line@.take(semi as int));
    }
    let (lo, hi) = trim_bounds(&v, 0, semi);
    let ghost content = trim_spec(line@.take(find_char_from(line@, ';', 0)));
    proof {
        assert(v@.subrange(lo as int, hi as int) == content);
        assert(content.len() == hi - lo);
        assert(forall|j: int| 0 <= j < content.len() ==> content[j] == v@[lo + j]);
    }
    if lo == hi {
        return Ok(Parsed::Empty);
    }
    if v[lo] == '[' {
        if v[hi - 1] == ']' {
            let (a, b) = trim_bracket_bounds(&v, lo, hi);
            let name = line.substring_char(a, b).to_owned();
            proof {
                assert(name@ == trim_brackets_spec(content));
            }
            return Ok(Parsed::Section(name));
        }
        return Err(ParseError::IncorrectSection(index));
    }
    let eq = find_char_in(&v, '=', lo, hi);
    proof {
        lemma_find_char_from(content, '=', 0);
        assert(forall|j: int| 0 <= j < eq - lo ==> content[j] != '=');
        assert(eq as int - lo < content.len() ==> content[eq - lo] == '=');
        assert(eq - lo == find_char_from(content, '=', 0));
    }
    if eq < hi {
        let (ka, kb) = trim_bounds(&v, lo, eq);
        proof {
            assert(v@.subrange(lo as int, eq as int) =~= content.take(eq - lo));
        }
        if ka == kb {
            return Err(ParseError::EmptyKey(index));
        }
        let (va, vb) = trim_bounds(&v, eq + 1, hi);
        proof {
            assert(v@.subrange(eq + 1, hi as int) =~= content.skip(eq - lo + 1));
        }
        let key = line.substring_char(ka, kb).to_owned();
        let value = line.substring_char(va, vb).to_owned();
        return Ok(Parsed::Value(key, value));
    }
    Err(ParseError::IncorrectSyntax(index))
}

} // verus!
