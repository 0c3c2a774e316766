//! One INI section: an insertion-ordered mapping from key to value, both
//! stored as text.

use vstd::prelude::*;

use crate::ordered_hashmap;
use crate::ordered_hashmap::OrderedHashMap;
use crate::ordered_hashmap::om_contains;
use crate::ordered_hashmap::om_get;
use crate::ordered_hashmap::om_index_of;
use crate::ordered_hashmap::om_insert;
use crate::ordered_hashmap::om_remove_swap;

verus! {

/// A named section's key-value pairs, in insertion order of the keys.
pub struct Section {
    base: OrderedHashMap<String, String>,
}

impl View for Section {
    type V = Seq<(Seq<char>, Seq<char>)>;

    closed spec fn view(&self) -> Self::V {
        self.base@
    }
}

impl Section {
    /// The underlying map is well formed.
    pub closed spec fn wf(&self) -> bool {
        self.base.wf()
    }

    /// Creates an empty section.
    pub fn new() -> (s: Section)
        ensures
            s.wf(),
            s@ == Seq::<(Seq<char>, Seq<char>)>::empty(),
    {
        Section { base: OrderedHashMap::new() }
    }

    /// An iterator over the pairs, in insertion order of the keys.
    pub fn iter<'a>(&'a self) -> (it: Iter<'a>)
        requires
            self.wf(),
        ensures
            it.src() == self@,
            it.pos() == 0,
            it.wf(),
    {
        Iter { iter: self.base.iter() }
    }

    /// How many pairs the section holds.
    pub fn len(&self) -> (n: usize)
        ensures
            n == self@.len(),
    {
        self.base.len()
    }

    /// The key at position `i` in the order.
    pub fn key_at(&self, i: usize) -> (k: &String)
        requires
            i < self@.len(),
        ensures
            k@ == self@[i as int].0,
    {
        self.base.key_at(i)
    }

    /// The value at position `i` in the order.
    pub fn value_at(&self, i: usize) -> (v: &String)
        requires
            self.wf(),
            i < self@.len(),
        ensures
            v@ == self@[i as int].1,
    {
        self.base.value_at(i)
    }

    /// Looks a key up; absence is an ordinary `None`, never an error.
    pub fn get(&self, key: &str) -> (r: Option<&String>)
        requires
            self.wf(),
        ensures
            match r {
                Some(v) => om_get(self@, key@) == Some(v@),
                None => om_get(self@, key@) is None,
            },
            r is Some <==> om_contains(self@, key@),
    {
        self.base.get(key)
    }

    /// An iterator over the keys, in insertion order.
    pub fn keys<'a>(&'a self) -> (it: Keys<'a>)
        requires
            self.wf(),
        ensures
            it.src() == self@,
            it.pos() == 0,
            it.wf(),
    {
        Keys { iter: self.base.keys() }
    }

    /// Binds `key` to `value`: an absent key is appended to the order, a
    /// present key keeps its position and only its value changes.  Returns
    /// the previous value, if any.
    pub fn insert(&mut self, key: String, value: String) -> (prev: Option<String>)
        requires
            old(self).wf(),
        ensures
            final(self).wf(),
            final(self)@ == om_insert(old(self)@, key@, value@),
            match prev {
                Some(pv) => om_get(old(self)@, key@) == Some(pv@),
                None => om_get(old(self)@, key@) is None,
            },
            prev is Some <==> om_contains(old(self)@, key@),
    {
        self.base.insert(key, value)
    }

    /// Removes `key` and returns its value, if present.  The last key in
    /// the order moves into the removed slot.
    pub fn remove(&mut self, key: &str) -> (r: Option<String>)
        requires
            old(self).wf(),
        ensures
            final(self).wf(),
            final(self)@ == om_remove_swap(old(self)@, key@),
            match r {
                Some(v) => om_get(old(self)@, key@) == Some(v@),
                None => om_get(old(self)@, key@) is None,
            },
            r is Some <==> om_contains(old(self)@, key@),
    {
        self.base.remove(key)
    }

    /// Consumes the section into an iterator over owned pairs, in insertion
    /// order of the keys.
    pub fn into_iter(self) -> (it: IntoIter)
        requires
            self.wf(),
        ensures
            it.remaining() == self@,
            it.wf(),
    {
        IntoIter { iter: self.base.into_iter() }
    }
}

/// A borrowing iterator over a section's keys, in insertion order.
pub struct Keys<'a> {
    iter: ordered_hashmap::Keys<'a, String, String>,
}

impl<'a> Keys<'a> {
    /// The pairs whose keys are being walked.
    pub closed spec fn src(&self) -> Seq<(Seq<char>, Seq<char>)> {
        self.iter.src()
    }

    /// How many keys have been yielded.
    pub closed spec fn pos(&self) -> int {
        self.iter.pos()
    }

    /// The position never runs past the end.
    pub closed spec fn wf(&self) -> bool {
        self.iter.wf()
    }

    /// The next key in order, or `None` at the end.
    pub fn next(&mut self) -> (r: Option<&'a String>)
        requires
            old(self).wf(),
        ensures
            final(self).wf(),
            final(self).src() == old(self).src(),
            if old(self).pos() < old(self).src().len() {
                &&& final(self).pos() == old(self).pos() + 1
                &&& r matches Some(s) && s@ == old(self).src()[old(self).pos()].0
            } else {
                r is None && final(self).pos() == old(self).pos()
            },
    {
        self.iter.next()
    }
}

/// A borrowing iterator over a section's pairs, in insertion order of the
/// keys.
pub struct Iter<'a> {
    iter: ordered_hashmap::Iter<'a, String, String>,
}

impl<'a> Iter<'a> {
    /// The pairs being walked.
    pub closed spec fn src(&self) -> Seq<(Seq<char>, Seq<char>)> {
        self.iter.src()
    }

    /// How many pairs have been yielded.
    pub closed spec fn pos(&self) -> int {
        self.iter.pos()
    }

    /// The position never runs past the end.
    pub closed spec fn wf(&self) -> bool {
        self.iter.wf()
    }

    /// The next pair in order, or `None` at the end.
    pub fn next(&mut self) -> (r: Option<(&'a String, &'a String)>)
        requires
            old(self).wf(),
        ensures
            final(self).wf(),
            final(self).src() == old(self).src(),
            if old(self).pos() < old(self).src().len() {
                &&& final(self).pos() == old(self).pos() + 1
                &&& r matches Some(p) && (p.0@, p.1@) == old(self).src()[old(self).pos()]
            } else {
                r is None && final(self).pos() == old(self).pos()
            },
    {
        self.iter.next()
    }
}

/// An owning iterator over a section's pairs, in insertion order of the
/// keys.
pub struct IntoIter {
    iter: ordered_hashmap::IntoIter<String, String>,
}

impl IntoIter {
    /// The pairs not yet yielded, in order.
    pub closed spec fn remaining(&self) -> Seq<(Seq<char>, Seq<char>)> {
        self.iter.remaining()
    }

    /// The not-yet-yielded rest is itself well formed.
    pub closed spec fn wf(&self) -> bool {
        self.iter.wf()
    }

    /// The next owned pair in order, or `None` at the end.
    pub fn next(&mut self) -> (r: Option<(String, String)>)
        requires
            old(self).wf(),
        ensures
            final(self).wf(),
            if old(self).remaining().len() > 0 {
                &&& r matches Some(p) && (p.0@, p.1@) == old(self).remaining()[0]
                &&& final(self).remaining() == old(self).remaining().drop_first()
            } else {
                r is None && final(self).remaining() == old(self).remaining()
            },
    {
        self.iter.next()
    }
}

} // verus!
