//! A small, verified INI-file library.
//!
//! The library parses, represents, mutates, and serializes configuration
//! documents in the INI format: ordered sections containing ordered
//! key-value pairs.  A document is an insertion-ordered mapping from section
//! name to an insertion-ordered mapping from key to value; the parser is
//! line-oriented, fails fast, and reports the first malformed line with its
//! 1-based line number.
//!
//! `;` begins a comment that runs to the end of the line; comments and
//! blank lines are discarded.  Section headers are bracketed names; keys
//! and values are split at the first `=` of a line and trimmed, and a value
//! may be empty.  Looking up a missing section or key is never an error:
//! it yields an ordinary "not found".

use vstd::prelude::*;

use vstd::string::StrSliceExecFns;
use vstd::string::StringExecFns;

pub mod error;
pub mod model;
pub mod ordered_hashmap;
pub mod parser;
pub mod roundtrip;
pub mod section;
pub mod text;

pub use error::Error;
pub use error::ParseError;

use model::DocModel;
use model::SecModel;
use model::doc_insert;
use model::doc_text;
use model::lines_of;
use model::spec_fold_lines;
use model::spec_parse_full;
use model::strip_cr;
use model::header_line;
use model::items_text;
use model::lemma_doc_text_snoc;
use model::lemma_items_text_snoc;
use model::section_text;
use ordered_hashmap::OrderedHashMap;
use ordered_hashmap::lemma_om_distinct_same_keys;
use ordered_hashmap::lemma_om_index_of;
use ordered_hashmap::om_contains;
use ordered_hashmap::om_index_of;
use ordered_hashmap::om_get;
use ordered_hashmap::om_insert;
use ordered_hashmap::om_remove_swap;
use parser::Parsed;
use parser::parse_line;
use section::Section;
use text::find_char_from;
use text::find_char_in;
use text::lemma_find_char_from;
use text::split_trim_spec;
use text::split_trimmed;
use text::str_chars;
use text::strs_view;

verus! {

/// The value bound to `key` in the section named `sec` of `doc`, if both
/// exist.
pub open spec fn doc_lookup(doc: DocModel, sec: Seq<char>, key: Seq<char>) -> Option<Seq<char>> {
    match om_get(doc, sec) {
        Some(s) => om_get(s, key),
        None => None,
    }
}

/// `doc` with `key` removed from the section named `cur`; unchanged when
/// the section or the key is absent.  Within the section the last key moves
/// into the removed slot.
pub open spec fn doc_erase(doc: DocModel, cur: Seq<char>, key: Seq<char>) -> DocModel {
    match om_get(doc, cur) {
        Some(s) => om_insert(doc, cur, om_remove_swap(s, key)),
        None => doc,
    }
}

/// `doc` with each pair of `pairs` inserted in turn into the section named
/// `cur`.
pub open spec fn doc_insert_list(doc: DocModel, cur: Seq<char>, pairs: SecModel) -> DocModel
    decreases pairs.len(),
{
    if pairs.len() == 0 {
        doc
    } else {
        doc_insert_list(doc_insert(doc, cur, pairs[0].0, pairs[0].1), cur, pairs.drop_first())
    }
}

/// The views of a vector of owned string pairs.
pub open spec fn pairs_view(v: Seq<(String, String)>) -> SecModel {
    v.map_values(|p: (String, String)| (p.0@, p.1@))
}

/// The first `i` of `parts` joined with `sep` between consecutive parts.
pub open spec fn join_upto(parts: Seq<Seq<char>>, sep: Seq<char>, i: int) -> Seq<char>
    decreases i,
{
    if i <= 0 {
        Seq::empty()
    } else if i == 1 {
        parts[0]
    } else {
        join_upto(parts, sep, i - 1) + sep + parts[i - 1]
    }
}

/// All of `parts` joined with `sep` between consecutive parts.
pub open spec fn join_with(parts: Seq<Seq<char>>, sep: Seq<char>) -> Seq<char> {
    join_upto(parts, sep, parts.len() as int)
}

/// Relies on `str::parse`: turns text into a `T` by `T`'s own parsing
/// rules, `None` where that fails.
#[verifier::external_body]
fn parse_str_value<T: core::str::FromStr>(s: &str) -> (r: Option<T>) {
    s.parse().ok()
}

/// An INI document: its sections in insertion order, each holding its
/// key-value pairs in insertion order, together with the name of the
/// section that the next chained call inserts into.
pub struct Ini {
    document: OrderedHashMap<String, Section>,
    last_section_name: String,
    empty_section: Section,
}

impl View for Ini {
    type V = DocModel;

    closed spec fn view(&self) -> DocModel {
        self.document@
    }
}

impl Ini {
    /// The document map and every section in it are well formed, and the
    /// pre-built empty section really is empty.
    pub closed spec fn wf(&self) -> bool {
        &&& self.document.wf()
        &&& self.document.spec_values().len() == self.document@.len()
        &&& forall|i: int|
            0 <= i < self.document@.len() ==> (#[trigger] self.document.spec_values()[i]).wf()
        &&& self.empty_section.wf()
        &&& self.empty_section@ == Seq::<(Seq<char>, Seq<char>)>::empty()
    }

    /// The section name that the next chained `item`-like call inserts
    /// into: the argument of the last `section` call, or the name of the
    /// last header parsed.
    pub closed spec fn spec_last_section(&self) -> Seq<char> {
        self.last_section_name@
    }

    /// Creates an empty document; no section is selected.
    pub fn new() -> (ini: Ini)
        ensures
            ini.wf(),
            ini@ == Seq::<(Seq<char>, SecModel)>::empty(),
            ini.spec_last_section() == Seq::<char>::empty(),
    {
        Ini {
            document: OrderedHashMap::new(),
            last_section_name: String::new(),
            empty_section: Section::new(),
        }
    }

    /// Parses `string` line by line into a document, failing fast: the
    /// first malformed line aborts the whole parse and is reported with
    /// its 1-based line number.  An assignment that appears before any
    /// section header lands in a section whose name is the empty string.
    pub fn parse(string: &str) -> (r: Result<Ini, Error>)
        ensures
            match r {
                Ok(ini) => {
                    &&& ini.wf()
                    &&& spec_parse_full(string@) matches Ok(p) && ini@ == p.0
                        && ini.spec_last_section() == p.1
                },
                Err(e) => e matches Error::Parse(pe) && spec_parse_full(string@) == Err::<
                    (DocModel, Seq<char>),
                    ParseError,
                >(pe),
            },
    {
        let v = str_chars(string);
        let n = v.len();
        let mut ini = Ini::new();
        let mut pos: usize = 0;
        let mut lineno: usize = 1;
        proof {
            assert(string@.skip(0) =~= string@);
        }
        while pos < n
            invariant
                ini.wf(),
                0 <= pos <= n,
                n == v@.len(),
                v@ == string@,
                1 <= lineno as int <= pos + 1,
                spec_parse_full(string@) == spec_fold_lines(
                    lines_of(string@.skip(pos as int)),
                    lineno as int,
                    ini@,
                    ini.spec_last_section(),
                ),
            decreases n - pos,
        {
            let ghost rem = string@.skip(pos as int);
            let ghost doc0 = ini@;
            let ghost cur0 = ini.spec_last_section();
            let j = find_char_in(&v, '\n', pos, n);
            proof {
                lemma_find_char_from(rem, '\n', 0);
                assert(forall|t: int| 0 <= t < j - pos ==> rem[t] != '\n');
                assert(j < n ==> rem[j - pos] == '\n');
                assert(find_char_from(rem, '\n', 0) == j - pos);
            }
            let line_end = if j < n && j > pos && v[j - 1] == '\r' {
                j - 1
            } else {
                j
            };
            let line = string.substring_char(pos, line_end);
            proof {
                if j < n {
                    assert(line@ =~= strip_cr(rem.take(j - pos)));
                    assert(lines_of(rem) == seq![strip_cr(rem.take(j - pos))] + lines_of(
                        rem.skip(j - pos + 1),
                    ));
                    assert(lines_of(rem)[0] == line@);
                    assert(lines_of(rem).drop_first() =~= lines_of(rem.skip(j - pos + 1)));
                    assert(rem.skip(j - pos + 1) =~= string@.skip(j + 1));
                } else {
                    assert(line@ =~= rem);
                    assert(lines_of(rem) == seq![rem]);
                    assert(lines_of(rem)[0] == line@);
                    assert(lines_of(rem).drop_first() =~= Seq::<Seq<char>>::empty());
                    assert(string@.skip(n as int) =~= Seq::<char>::empty());
                }
            }
            match parse_line(line, lineno) {
                Err(e) => {
                    proof {
                        assert(spec_fold_lines(lines_of(rem), lineno as int, doc0, cur0)
                            == Err::<(DocModel, Seq<char>), ParseError>(e));
                    }
                    return Err(Error::Parse(e));
                },
                Ok(p) => {
                    match p {
                        Parsed::Empty => {},
                        Parsed::Section(name) => {
                            ini.last_section_name = name;
                        },
                        Parsed::Value(k, val) => {
                            ini = ini.item(k.as_str(), val.as_str());
                        },
                    }
                },
            }
            let newpos = if j < n {
                j + 1
            } else {
                n
            };
            proof {
                assert(spec_fold_lines(lines_of(rem), lineno as int, doc0, cur0)
                    == spec_fold_lines(
                    lines_of(string@.skip(newpos as int)),
                    lineno + 1,
                    ini@,
                    ini.spec_last_section(),
                ));
                if newpos == n {
                    assert(lines_of(string@.skip(newpos as int)) =~= Seq::<Seq<char>>::empty());
                }
            }
            pos = newpos;
            if pos < n {
                lineno += 1;
            }
        }
        proof {
            assert(string@.skip(n as int) =~= Seq::<char>::empty());
            assert(lines_of(string@.skip(n as int)) =~= Seq::<Seq<char>>::empty());
        }
        Ok(ini)
    }

    /// Parses `buf` as `parse` does.
    pub fn from_string(buf: &str) -> (r: Result<Ini, Error>)
        ensures
            match r {
                Ok(ini) => {
                    &&& ini.wf()
                    &&& spec_parse_full(buf@) matches Ok(p) && ini@ == p.0
                        && ini.spec_last_section() == p.1
                },
                Err(e) => e matches Error::Parse(pe) && spec_parse_full(buf@) == Err::<
                    (DocModel, Seq<char>),
                    ParseError,
                >(pe),
            },
    {
        Ini::parse(buf)
    }

    /// Selects the section that the following chained calls insert into.
    /// The section itself is only created when it first receives an item.
    pub fn section(self, name: &str) -> (r: Ini)
        requires
            self.wf(),
        ensures
            r.wf(),
            r@ == self@,
            r.spec_last_section() == name@,
    {
        let mut me = self;
        me.last_section_name = name.to_owned();
        me
    }

    /// Adds `name = value` at the end of the selected section, creating the
    /// section at the end of the document if needed; an existing key keeps
    /// its position and only its value changes.
    pub fn item(self, name: &str, value: &str) -> (r: Ini)
        requires
            self.wf(),
        ensures
            r.wf(),
            r@ == doc_insert(self@, self.spec_last_section(), name@, value@),
            r.spec_last_section() == self.spec_last_section(),
    {
        let mut me = self;
        let ghost doc0 = me.document@;
        let ghost vals0 = me.document.spec_values();
        let ghost cur = me.last_section_name@;
        let i = me.document.position(me.last_section_name.as_str());
        if i < me.document.len() {
            let sec = me.document.value_at_mut(i);
            sec.insert(name.to_owned(), value.to_owned());
            proof {
                lemma_om_distinct_same_keys(doc0, me.document@);
                assert(me.document@ =~= doc_insert(doc0, cur, name@, value@));
                assert forall|j: int|
                    0 <= j < me.document@.len() implies (
                #[trigger] me.document.spec_values()[j]).wf() by {
                    if j != i as int {
                        assert(me.document.spec_values()[j] == vals0[j]);
                    }
                }
            }
        } else {
            let mut s = Section::new();
            s.insert(name.to_owned(), value.to_owned());
            me.document.insert(me.last_section_name.clone(), s);
            proof {
                assert(om_insert(Seq::<(Seq<char>, Seq<char>)>::empty(), name@, value@)
                    =~= seq![(name@, value@)]);
                assert(me.document@ =~= doc_insert(doc0, cur, name@, value@));
                assert forall|j: int|
                    0 <= j < me.document@.len() implies (
                #[trigger] me.document.spec_values()[j]).wf() by {
                    if j < vals0.len() {
                        assert(me.document.spec_values()[j] == vals0[j]);
                    }
                }
            }
        }
        me
    }

    /// Adds every pair of `items` in turn to the selected section, as
    /// `item` would.
    pub fn items(self, items: Vec<(String, String)>) -> (r: Ini)
        requires
            self.wf(),
        ensures
            r.wf(),
            r@ == doc_insert_list(self@, self.spec_last_section(), pairs_view(items@)),
            r.spec_last_section() == self.spec_last_section(),
    {
        let ghost doc0 = self@;
        let ghost cur = self.spec_last_section();
        let ghost ps = pairs_view(items@);
        let mut me = self;
        proof {
            assert(ps.skip(0) =~= ps);
        }
        let n = items.len();
        let mut i: usize = 0;
        while i < n
            invariant
                0 <= i <= n,
                n == items@.len(),
                me.wf(),
                me.spec_last_section() == cur,
                ps == pairs_view(items@),
                doc_insert_list(doc0, cur, ps) == doc_insert_list(me@, cur, ps.skip(i as int)),
            decreases n - i,
        {
            me = me.item(items[i].0.as_str(), items[i].1.as_str());
            proof {
                assert(ps.skip(i as int)[0] == (items@[i as int].0@, items@[i as int].1@));
                assert(ps.skip(i as int).drop_first() =~= ps.skip(i + 1));
            }
            i += 1;
        }
        proof {
            assert(ps.skip(n as int) =~= Seq::<(Seq<char>, Seq<char>)>::empty());
        }
        me
    }

    /// Adds `name` bound to the elements of `vector` joined with `sep`
    /// between consecutive elements, as one value.
    pub fn item_vec_with_sep(self, name: &str, vector: &Vec<String>, sep: &str) -> (r: Ini)
        requires
            self.wf(),
        ensures
            r.wf(),
            r@ == doc_insert(
                self@,
                self.spec_last_section(),
                name@,
                join_with(strs_view(vector@), sep@),
            ),
            r.spec_last_section() == self.spec_last_section(),
    {
        let mut joined = String::new();
        let n = vector.len();
        let mut i: usize = 0;
        while i < n
            invariant
                0 <= i <= n,
                n == vector@.len(),
                joined@ == join_upto(strs_view(vector@), sep@, i as int),
            decreases n - i,
        {
            if i > 0 {
                joined.append(sep);
            }
            joined.append(vector[i].as_str());
            proof {
                assert(strs_view(vector@)[i as int] == vector@[i as int]@);
                if i == 0 {
                    assert(joined@ =~= join_upto(strs_view(vector@), sep@, 1));
                }
            }
            i += 1;
        }
        self.item(name, joined.as_str())
    }

    /// Adds `name` bound to the elements of `vector` joined with `", "`.
    pub fn item_vec(self, name: &str, vector: &Vec<String>) -> (r: Ini)
        requires
            self.wf(),
        ensures
            r.wf(),
            r@ == doc_insert(
                self@,
                self.spec_last_section(),
                name@,
                join_with(strs_view(vector@), ", "@),
            ),
            r.spec_last_section() == self.spec_last_section(),
    {
        self.item_vec_with_sep(name, vector, ", ")
    }

    /// Removes the selected section whole; the document is unchanged when
    /// no section of that name exists.  The last section in the order moves
    /// into the removed slot.
    pub fn clear(self) -> (r: Ini)
        requires
            self.wf(),
        ensures
            r.wf(),
            r@ == om_remove_swap(self@, self.spec_last_section()),
            r.spec_last_section() == self.spec_last_section(),
    {
        let mut me = self;
        let ghost doc0 = me.document@;
        let ghost vals0 = me.document.spec_values();
        let ghost cur = me.last_section_name@;
        me.document.remove(me.last_section_name.as_str());
        proof {
            if om_contains(doc0, cur) {
                lemma_om_index_of(doc0, cur);
                let ghost idx = om_index_of(doc0, cur);
                assert forall|j: int|
                    0 <= j < me.document@.len() implies (
                #[trigger] me.document.spec_values()[j]).wf() by {
                    if j == idx {
                        assert(me.document.spec_values()[j] == vals0[vals0.len() - 1]);
                    } else {
                        assert(me.document.spec_values()[j] == vals0[j]);
                    }
                }
            }
        }
        me
    }

    /// Removes `key` from the selected section; the document is unchanged
    /// when the section or the key is absent.  Within the section the last
    /// key moves into the removed slot.
    pub fn erase(self, key: &str) -> (r: Ini)
        requires
            self.wf(),
        ensures
            r.wf(),
            r@ == doc_erase(self@, self.spec_last_section(), key@),
            r.spec_last_section() == self.spec_last_section(),
    {
        let mut me = self;
        let ghost doc0 = me.document@;
        let ghost vals0 = me.document.spec_values();
        let ghost cur = me.last_section_name@;
        let i = me.document.position(me.last_section_name.as_str());
        if i < me.document.len() {
            let sec = me.document.value_at_mut(i);
            sec.remove(key);
            proof {
                lemma_om_distinct_same_keys(doc0, me.document@);
                assert(me.document@ =~= doc_erase(doc0, cur, key@));
                assert forall|j: int|
                    0 <= j < me.document@.len() implies (
                #[trigger] me.document.spec_values()[j]).wf() by {
                    if j != i as int {
                        assert(me.document.spec_values()[j] == vals0[j]);
                    }
                }
            }
        }
        me
    }

    /// The raw text bound to `key` in the section named `section`, if both
    /// exist; absence is an ordinary `None`, never an error.
    pub fn get_raw(&self, section: &str, key: &str) -> (r: Option<&String>)
        requires
            self.wf(),
        ensures
            match r {
                Some(v) => doc_lookup(self@, section@, key@) == Some(v@),
                None => doc_lookup(self@, section@, key@) is None,
            },
            r is Some <==> doc_lookup(self@, section@, key@) is Some,
    {
        match self.document.get(section) {
            Some(s) => s.get(key),
            None => None,
        }
    }

    /// The value bound to `key` in the section named `section`, parsed as
    /// a `T`; `None` when the section or the key is absent or the text does
    /// not parse.  This is convenience glue over `get_raw`, which states
    /// the lookup exactly.
    pub fn get<T: core::str::FromStr>(&self, section: &str, key: &str) -> (r: Option<T>)
        requires
            self.wf(),
        ensures
            doc_lookup(self@, section@, key@) is None ==> r is None,
            r is Some ==> doc_lookup(self@, section@, key@) is Some,
    {
        match self.get_raw(section, key) {
            Some(v) => parse_str_value::<T>(v.as_str()),
            None => None,
        }
    }

    /// The value bound to `key` in the section named `section`, split at
    /// `","` and each piece trimmed and parsed as a `T`; `None` when the
    /// lookup fails or any piece does not parse.
    pub fn get_vec<T: core::str::FromStr>(&self, section: &str, key: &str) -> (r: Option<Vec<T>>)
        requires
            self.wf(),
        ensures
            doc_lookup(self@, section@, key@) is None ==> r is None,
            r is Some ==> doc_lookup(self@, section@, key@) is Some,
    {
        self.get_vec_with_sep(section, key, ",")
    }

    /// The value bound to `key` in the section named `section`, split at
    /// every occurrence of `sep` and each piece trimmed and parsed as a
    /// `T`; `None` when the lookup fails, when `sep` is empty, or when any
    /// piece does not parse.  On success there is one element per piece of
    /// the split; what each piece parses to is `T`'s own affair.
    pub fn get_vec_with_sep<T: core::str::FromStr>(
        &self,
        section: &str,
        key: &str,
        sep: &str,
    ) -> (r: Option<Vec<T>>)
        requires
            self.wf(),
        ensures
            doc_lookup(self@, section@, key@) is None ==> r is None,
            r matches Some(out) ==> doc_lookup(self@, section@, key@) matches Some(val)
                && sep@.len() >= 1 && out@.len() == split_trim_spec(val, sep@).len(),
    {
        let raw = match self.get_raw(section, key) {
            Some(v) => v,
            None => {
                return None;
            },
        };
        if sep.is_empty() {
            return None;
        }
        let pieces = split_trimmed(raw.as_str(), sep);
        let n = pieces.len();
        let mut out: Vec<T> = Vec::new();
        let mut i: usize = 0;
        while i < n
            invariant
                0 <= i <= n,
                n == pieces@.len(),
                out@.len() == i,
            decreases n - i,
        {
            match parse_str_value::<T>(pieces[i].as_str()) {
                Some(t) => out.push(t),
                None => {
                    return None;
                },
            }
            i += 1;
        }
        proof {
            assert(strs_view(pieces@).len() == pieces@.len());
        }
        Some(out)
    }

    /// An iterator over the pairs of the section named `section`, in
    /// insertion order of the keys; over nothing when no such section
    /// exists.
    pub fn section_iter<'a>(&'a self, section: &str) -> (it: section::Iter<'a>)
        requires
            self.wf(),
        ensures
            it.wf(),
            it.pos() == 0,
            it.src() == match om_get(self@, section@) {
                Some(s) => s,
                None => Seq::<(Seq<char>, Seq<char>)>::empty(),
            },
    {
        match self.document.get(section) {
            Some(s) => s.iter(),
            None => self.empty_section.iter(),
        }
    }

    /// The document serialized to text: each section as `[name]` followed
    /// by one `key = value` line per pair, with one blank line between
    /// consecutive sections and a newline after every line.
    pub fn to_string(&self) -> (r: String)
        requires
            self.wf(),
        ensures
            r@ == doc_text(self@),
    {
        proof {
            reveal_strlit("\n");
            reveal_strlit("[");
            reveal_strlit("]\n");
            reveal_strlit(" = ");
            assert("\n"@ =~= seq!['\n']);
            assert("["@ =~= seq!['[']);
            assert("]\n"@ =~= seq![']', '\n']);
            assert(" = "@ =~= seq![' ', '=', ' ']);
        }
        let mut out = String::new();
        let n = self.document.len();
        let mut i: usize = 0;
        proof {
            assert(self@.take(0) =~= Seq::<(Seq<char>, SecModel)>::empty());
        }
        while i < n
            invariant
                self.wf(),
                0 <= i <= n,
                n == self@.len(),
                out@ == doc_text(self@.take(i as int)),
                "\n"@ =~= seq!['\n'],
                "["@ =~= seq!['['],
                "]\n"@ =~= seq![']', '\n'],
                " = "@ =~= seq![' ', '=', ' '],
            decreases n - i,
        {
            if i > 0 {
                out.append("\n");
            }
            out.append("[");
            out.append(self.document.key_at(i).as_str());
            out.append("]\n");
            let ghost mid = out@;
            let sec = self.document.value_at(i);
            let m = sec.len();
            let mut j: usize = 0;
            proof {
                assert(sec.wf());
                assert(sec@.take(0) =~= Seq::<(Seq<char>, Seq<char>)>::empty());
                assert(mid =~= doc_text(self@.take(i as int)) + (if i > 0 {
                    seq!['\n']
                } else {
                    Seq::<char>::empty()
                }) + header_line(self@[i as int].0).push('\n'));
            }
            while j < m
                invariant
                    self.wf(),
                    0 <= i < n,
                    n == self@.len(),
                    0 <= j <= m,
                    sec.wf(),
                    m == sec@.len(),
                    sec@ == self@[i as int].1,
                    mid == doc_text(self@.take(i as int)) + (if i > 0 {
                        seq!['\n']
                    } else {
                        Seq::<char>::empty()
                    }) + header_line(self@[i as int].0).push('\n'),
                    out@ == mid + items_text(sec@.take(j as int)),
                    "\n"@ =~= seq!['\n'],
                    " = "@ =~= seq![' ', '=', ' '],
                decreases m - j,
            {
                out.append(sec.key_at(j).as_str());
                out.append(" = ");
                out.append(sec.value_at(j).as_str());
                out.append("\n");
                proof {
                    lemma_items_text_snoc(sec@.take(j + 1));
                    assert(sec@.take(j + 1).drop_last() =~= sec@.take(j as int));
                    assert(sec@.take(j + 1).last() == sec@[j as int]);
                    assert(out@ =~= mid + items_text(sec@.take(j + 1)));
                }
                j += 1;
            }
            proof {
                assert(sec@.take(m as int) =~= sec@);
                lemma_doc_text_snoc(self@.take(i + 1));
                assert(self@.take(i + 1).drop_last() =~= self@.take(i as int));
                assert(self@.take(i + 1).last() == self@[i as int]);
                assert(section_text(self@[i as int].0, self@[i as int].1) == header_line(
                    self@[i as int].0,
                ).push('\n') + items_text(sec@));
                assert(out@ =~= doc_text(self@.take(i + 1)));
            }
            i += 1;
        }
        proof {
            assert(self@.take(n as int) =~= self@);
        }
        out
    }

    /// An iterator over the sections, in insertion order of their names.
    pub fn iter<'a>(&'a self) -> (it: IniIter<'a>)
        requires
            self.wf(),
        ensures
            it.wf(),
            it.pos() == 0,
            it.src() == self@,
    {
        IniIter { iter: self.document.iter() }
    }
}

impl Default for Ini {
    /// Same as `new`: an empty document with no section selected.
    fn default() -> (ini: Self)
        ensures
            ini.wf(),
            ini@ == Seq::<(Seq<char>, SecModel)>::empty(),
            ini.spec_last_section() == Seq::<char>::empty(),
    {
        Ini::new()
    }
}

/// A borrowing iterator over a document's sections, in insertion order of
/// their names.
pub struct IniIter<'a> {
    iter: ordered_hashmap::Iter<'a, String, Section>,
}

impl<'a> IniIter<'a> {
    /// The named sections being walked.
    pub closed spec fn src(&self) -> DocModel {
        self.iter.src()
    }

    /// How many sections have been yielded.
    pub closed spec fn pos(&self) -> int {
        self.iter.pos()
    }

    /// The position never runs past the end, and every section to be
    /// yielded is well formed.
    pub closed spec fn wf(&self) -> bool {
        &&& self.iter.wf()
        &&& forall|i: int|
            0 <= i < self.iter.vals().len() ==> (#[trigger] self.iter.vals()[i]).wf()
    }

    /// The next named section in order, or `None` at the end.
    pub fn next(&mut self) -> (r: Option<(&'a String, &'a Section)>)
        requires
            old(self).wf(),
        ensures
            final(self).wf(),
            final(self).src() == old(self).src(),
            if old(self).pos() < old(self).src().len() {
                &&& final(self).pos() == old(self).pos() + 1
                &&& r matches Some(p) && (p.0@, p.1@) == old(self).src()[old(self).pos()]
                    && p.1.wf()
            } else {
                r is None && final(self).pos() == old(self).pos()
            },
    {
        let r = self.iter.next();
        proof {
            if old(self).pos() < old(self).src().len() {
                let p = r->Some_0;
                assert(self.iter.vals().len() == self.iter.src().len());
                assert(old(self).iter.vals().len() == old(self).iter.src().len());
                assert(0 <= old(self).pos() < old(self).iter.vals().len());
                assert(*p.1 == old(self).iter.vals()[old(self).pos()]);
                assert(old(self).iter.vals()[old(self).pos()].wf());
            }
        }
        r
    }
}

} // verus!
