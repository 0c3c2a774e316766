//! An insertion-ordered map with string keys.
//!
//! The map is modeled as a sequence of `(key, value)` pairs whose keys are
//! pairwise distinct.  Iteration follows that sequence, so it follows the
//! order in which keys were first inserted; re-inserting an existing key
//! overwrites its value in place without moving it.  `remove` takes the
//! removed slot's place with the last pair, so it is constant-time but does
//! not keep the relative order of the remaining keys.
//!
//! There is no mutable iterator; a value is overwritten in place through
//! `insert`, or through `position` and `value_at_mut`, both of which leave
//! the key order untouched.

use vstd::prelude::*;

use crate::text::str_eq;

verus! {

/// The index of the first pair in `m` at or after `i` whose key is `k`, or
/// `m.len()` if there is none.
pub open spec fn om_first_from<T>(m: Seq<(Seq<char>, T)>, k: Seq<char>, i: int) -> int
    decreases m.len() - i,
{
    if i < 0 || i >= m.len() {
        m.len() as int
    } else if m[i].0 == k {
        i
    } else {
        om_first_from(m, k, i + 1)
    }
}

/// The index of the first pair in `m` whose key is `k`, or `m.len()` if
/// there is none.
pub open spec fn om_index_of<T>(m: Seq<(Seq<char>, T)>, k: Seq<char>) -> int {
    om_first_from(m, k, 0)
}

/// Whether some pair of `m` has key `k`.
pub open spec fn om_contains<T>(m: Seq<(Seq<char>, T)>, k: Seq<char>) -> bool {
    om_index_of(m, k) < m.len()
}

/// The value bound to `k` in `m`, if any.
pub open spec fn om_get<T>(m: Seq<(Seq<char>, T)>, k: Seq<char>) -> Option<T> {
    if om_contains(m, k) {
        Some(m[om_index_of(m, k)].1)
    } else {
        None
    }
}

/// `m` with `k` bound to `v`: an absent key is appended, a present key's
/// value is overwritten in place.
pub open spec fn om_insert<T>(m: Seq<(Seq<char>, T)>, k: Seq<char>, v: T) -> Seq<
    (Seq<char>, T),
> {
    if om_contains(m, k) {
        m.update(om_index_of(m, k), (k, v))
    } else {
        m.push((k, v))
    }
}

/// `m` with the pair keyed `k` removed by swapping the last pair into its
/// place; `m` unchanged when `k` is absent.
pub open spec fn om_remove_swap<T>(m: Seq<(Seq<char>, T)>, k: Seq<char>) -> Seq<
    (Seq<char>, T),
> {
    if om_contains(m, k) {
        m.update(om_index_of(m, k), m.last()).drop_last()
    } else {
        m
    }
}

/// The keys of `m`, in order.
pub open spec fn om_keys<T>(m: Seq<(Seq<char>, T)>) -> Seq<Seq<char>> {
    m.map_values(|p: (Seq<char>, T)| p.0)
}

/// Whether the keys of `m` are pairwise distinct.
pub open spec fn om_distinct<T>(m: Seq<(Seq<char>, T)>) -> bool {
    forall|i: int, j: int| 0 <= i < j < m.len() ==> m[i].0 != m[j].0
}

/// Characterizes `om_first_from`: everything between `i` and the result has
/// a different key, and the result (when in range) has key `k`.
pub proof fn lemma_om_first_from<T>(m: Seq<(Seq<char>, T)>, k: Seq<char>, i: int)
    requires
        0 <= i <= m.len(),
    ensures
        i <= om_first_from(m, k, i) <= m.len(),
        forall|j: int| i <= j < om_first_from(m, k, i) ==> m[j].0 != k,
        om_first_from(m, k, i) < m.len() ==> m[om_first_from(m, k, i)].0 == k,
    decreases m.len() - i,
{
    if i < m.len() && m[i].0 != k {
        lemma_om_first_from(m, k, i + 1);
    }
}

/// Two pair sequences with the same keys at the same positions are
/// distinct-keyed together.
pub proof fn lemma_om_distinct_same_keys<T>(a: Seq<(Seq<char>, T)>, b: Seq<(Seq<char>, T)>)
    requires
        a.len() == b.len(),
        forall|x: int| 0 <= x < a.len() ==> a[x].0 == b[x].0,
        om_distinct(a),
    ensures
        om_distinct(b),
{
    assert forall|i: int, j: int| 0 <= i < j < b.len() implies b[i].0 != b[j].0 by {
        assert(a[i].0 != a[j].0);
    }
}

/// Characterizes `om_index_of` over the whole sequence.
pub proof fn lemma_om_index_of<T>(m: Seq<(Seq<char>, T)>, k: Seq<char>)
    ensures
        0 <= om_index_of(m, k) <= m.len(),
        forall|j: int| 0 <= j < om_index_of(m, k) ==> m[j].0 != k,
        om_index_of(m, k) < m.len() ==> m[om_index_of(m, k)].0 == k,
{
    lemma_om_first_from(m, k, 0);
}

/// Order preservation: binding a key already present leaves the key order
/// exactly as it was, and binding a new key appends it at the end; no
/// other key moves either way.
pub proof fn lemma_insert_order<T>(m: Seq<(Seq<char>, T)>, k: Seq<char>, v: T)
    ensures
        om_contains(m, k) ==> om_keys(om_insert(m, k, v)) == om_keys(m),
        !om_contains(m, k) ==> om_keys(om_insert(m, k, v)) == om_keys(m).push(k),
{
    lemma_om_index_of(m, k);
    if om_contains(m, k) {
        assert(om_keys(om_insert(m, k, v)) =~= om_keys(m));
    } else {
        assert(om_keys(om_insert(m, k, v)) =~= om_keys(m).push(k));
    }
}

/// An insertion-ordered map built from a vector of keys and a parallel
/// vector of values.
#[verifier::reject_recursive_types(K)]
#[verifier::reject_recursive_types(V)]
pub struct OrderedHashMap<K, V> {
    keys: Vec<K>,
    values: Vec<V>,
}

impl<V: View> View for OrderedHashMap<String, V> {
    type V = Seq<(Seq<char>, <V as View>::V)>;

    closed spec fn view(&self) -> Self::V {
        Seq::new(self.keys@.len() as nat, |i: int| (self.keys@[i]@, self.values@[i]@))
    }
}

impl<V: View> OrderedHashMap<String, V> {
    /// The key vector and the value vector run in parallel.
    pub closed spec fn len_ok(&self) -> bool {
        self.keys@.len() == self.values@.len()
    }

    /// The two vectors run in parallel and no key occurs twice.
    pub open spec fn wf(&self) -> bool {
        &&& self.len_ok()
        &&& om_distinct(self@)
    }

    /// The stored values, in insertion order of their keys.
    pub closed spec fn spec_values(&self) -> Seq<V> {
        self.values@
    }

    /// Creates an empty map.
    pub fn new() -> (m: OrderedHashMap<String, V>)
        ensures
            m.wf(),
            m@ == Seq::<(Seq<char>, <V as View>::V)>::empty(),
            m.spec_values() == Seq::<V>::empty(),
    {
        let m = OrderedHashMap { keys: Vec::<String>::new(), values: Vec::<V>::new() };
        proof {
            assert(m@ =~= Seq::<(Seq<char>, <V as View>::V)>::empty());
        }
        m
    }

    /// The position of `k` among the keys, or the map's length when `k` is
    /// absent.
    fn index_of(&self, k: &str) -> (r: usize)
        requires
            self.keys@.len() == self.values@.len(),
        ensures
            r as int == om_index_of(self@, k@),
    {
        let n = self.keys.len();
        let mut i: usize = 0;
        while i < n
            invariant
                0 <= i <= n,
                n == self.keys@.len() == self.values@.len(),
                om_first_from(self@, k@, 0) == om_first_from(self@, k@, i as int),
            decreases n - i,
        {
            if str_eq(self.keys[i].as_str(), k) {
                proof {
                    assert(self@[i as int].0 == k@);
                }
                return i;
            }
            proof {
                assert(self@[i as int].0 != k@);
            }
            i += 1;
        }
        n
    }

    /// Looks `k` up; absence is an ordinary `None`, never an error.
    pub fn get(&self, k: &str) -> (r: Option<&V>)
        requires
            self.wf(),
        ensures
            self.spec_values().len() == self@.len(),
            match r {
                Some(v) => {
                    &&& om_get(self@, k@) == Some(v@)
                    &&& 0 <= om_index_of(self@, k@) < self@.len()
                    &&& *v == self.spec_values()[om_index_of(self@, k@)]
                },
                None => om_get(self@, k@) is None,
            },
            r is Some <==> om_contains(self@, k@),
    {
        proof {
            lemma_om_index_of(self@, k@);
        }
        let i = self.index_of(k);
        if i < self.keys.len() {
            Some(&self.values[i])
        } else {
            None
        }
    }

    /// How many pairs the map holds.
    pub fn len(&self) -> (n: usize)
        ensures
            n == self@.len(),
    {
        self.keys.len()
    }

    /// The key at position `i` in the order.
    pub fn key_at(&self, i: usize) -> (k: &String)
        requires
            i < self@.len(),
        ensures
            k@ == self@[i as int].0,
    {
        &self.keys[i]
    }

    /// The value at position `i` in the order.
    pub fn value_at(&self, i: usize) -> (v: &V)
        requires
            self.len_ok(),
            i < self@.len(),
        ensures
            v@ == self@[i as int].1,
            *v == self.spec_values()[i as int],
    {
        &self.values[i]
    }

    /// Borrows the value bound to `k` mutably, if present.  Nothing is
    /// promised of the map afterwards beyond presence: for an update whose
    /// effect is verified, pair `position` with `value_at_mut` instead.
    pub fn get_mut(&mut self, k: &str) -> (r: Option<&mut V>)
        requires
            old(self).wf(),
        ensures
            r is Some <==> om_contains(old(self)@, k@),
    {
        proof {
            lemma_om_index_of(self@, k@);
        }
        let i = self.index_of(k);
        if i < self.keys.len() {
            Some(&mut self.values[i])
        } else {
            None
        }
    }

    /// The position of `k` in the order, or the map's length when `k` is
    /// absent.
    pub fn position(&self, k: &str) -> (r: usize)
        requires
            self.wf(),
        ensures
            r as int == om_index_of(self@, k@),
            r <= self@.len(),
            r < self@.len() <==> om_contains(self@, k@),
            r < self@.len() ==> self@[r as int].0 == k@,
    {
        proof {
            lemma_om_index_of(self@, k@);
        }
        self.index_of(k)
    }

    /// Borrows the value at position `i` mutably.  Writing through the
    /// result overwrites that value in place: the keys and their order are
    /// unchanged.
    pub fn value_at_mut(&mut self, i: usize) -> (v: &mut V)
        requires
            old(self).wf(),
            i < old(self)@.len(),
        ensures
            *v == old(self).spec_values()[i as int],
            (*v)@ == old(self)@[i as int].1,
            final(self).spec_values() == old(self).spec_values().update(i as int, *final(v)),
            final(self)@.len() == old(self)@.len(),
            forall|j: int|
                0 <= j < old(self)@.len() && j != i ==> final(self)@[j] == old(self)@[j],
            final(self)@[i as int] == (old(self)@[i as int].0, (*final(v))@),
            final(self).len_ok(),
    {
        &mut self.values[i]
    }

    /// Whether `k` is present.
    pub fn contains_key(&self, k: &str) -> (r: bool)
        requires
            self.wf(),
        ensures
            r == om_contains(self@, k@),
    {
        let i = self.index_of(k);
        i < self.keys.len()
    }

    /// Binds `k` to `v`.  An absent key is appended at the end of the
    /// order; a present key keeps its position and only its value changes.
    /// Returns the value previously bound to `k`, if any.
    pub fn insert(&mut self, k: String, v: V) -> (prev: Option<V>)
        requires
            old(self).wf(),
        ensures
            final(self).wf(),
            final(self)@ == om_insert(old(self)@, k@, v@),
            match prev {
                Some(pv) => om_get(old(self)@, k@) == Some(pv@),
                None => om_get(old(self)@, k@) is None,
            },
            prev is Some <==> om_contains(old(self)@, k@),
            final(self).spec_values() == if om_contains(old(self)@, k@) {
                old(self).spec_values().update(om_index_of(old(self)@, k@), v)
            } else {
                old(self).spec_values().push(v)
            },
    {
        let i = self.index_of(k.as_str());
        if i < self.keys.len() {
            self.values.push(v);
            let prev = self.values.swap_remove(i);
            proof {
                lemma_om_index_of(old(self)@, k@);
                assert(self@ =~= om_insert(old(self)@, k@, v@));
                assert(self.spec_values() =~= old(self).spec_values().update(
                    om_index_of(old(self)@, k@),
                    v,
                ));
            }
            Some(prev)
        } else {
            self.keys.push(k);
            self.values.push(v);
            proof {
                assert(self@ =~= om_insert(old(self)@, k@, v@));
                assert(forall|a: int, b: int|
                    0 <= a < b < self@.len() && b < old(self)@.len() ==> self@[a].0 != self@[b].0);
                lemma_om_index_of(old(self)@, k@);
                assert(forall|a: int|
                    0 <= a < old(self)@.len() ==> old(self)@[a].0 != k@ && self@[a].0 != k@);
            }
            None
        }
    }

    /// Removes `k` and returns its value, if present.  The last pair in the
    /// order moves into the removed slot, so the relative order of the
    /// remaining keys is not preserved.
    pub fn remove(&mut self, k: &str) -> (r: Option<V>)
        requires
            old(self).wf(),
        ensures
            final(self).wf(),
            final(self)@ == om_remove_swap(old(self)@, k@),
            match r {
                Some(v) => om_get(old(self)@, k@) == Some(v@),
                None => om_get(old(self)@, k@) is None,
            },
            r is Some <==> om_contains(old(self)@, k@),
            final(self).spec_values() == if om_contains(old(self)@, k@) {
                old(self).spec_values().update(
                    om_index_of(old(self)@, k@),
                    old(self).spec_values().last(),
                ).drop_last()
            } else {
                old(self).spec_values()
            },
    {
        let i = self.index_of(k);
        if i < self.keys.len() {
            proof {
                lemma_om_index_of(old(self)@, k@);
            }
            self.keys.swap_remove(i);
            let v = self.values.swap_remove(i);
            proof {
                assert(self@ =~= om_remove_swap(old(self)@, k@));
                let f = self@;
                let m = old(self)@;
                assert forall|a: int, b: int| 0 <= a < b < f.len() implies f[a].0 != f[b].0 by {
                    assert(f[a] == if a == i as int {
                        m[m.len() - 1]
                    } else {
                        m[a]
                    });
                    assert(f[b] == if b == i as int {
                        m[m.len() - 1]
                    } else {
                        m[b]
                    });
                }
            }
            Some(v)
        } else {
            None
        }
    }

    /// An iterator over the pairs, in insertion order of their keys.
    pub fn iter<'a>(&'a self) -> (it: Iter<'a, String, V>)
        requires
            self.wf(),
        ensures
            it.src() == self@,
            it.vals() == self.spec_values(),
            it.vals().len() == it.src().len(),
            it.pos() == 0,
            it.wf(),
    {
        Iter { m: self, pos: 0 }
    }

    /// An iterator over the keys, in insertion order.
    pub fn keys<'a>(&'a self) -> (it: Keys<'a, String, V>)
        requires
            self.wf(),
        ensures
            it.src() == self@,
            it.pos() == 0,
            it.wf(),
    {
        Keys { m: self, pos: 0 }
    }

    /// Consumes the map into an iterator over owned pairs, in insertion
    /// order of the keys.
    pub fn into_iter(self) -> (it: IntoIter<String, V>)
        requires
            self.wf(),
        ensures
            it.remaining() == self@,
            it.wf(),
    {
        IntoIter { m: self }
    }
}

impl<V: View> Default for OrderedHashMap<String, V> {
    /// Same as `new`: an empty map.
    fn default() -> (m: Self)
        ensures
            m.wf(),
            m@ == Seq::<(Seq<char>, <V as View>::V)>::empty(),
    {
        OrderedHashMap::<String, V>::new()
    }
}

/// A borrowing iterator over the pairs of an `OrderedHashMap`, in insertion
/// order of the keys.
#[verifier::reject_recursive_types(K)]
#[verifier::reject_recursive_types(V)]
pub struct Iter<'a, K, V> {
    m: &'a OrderedHashMap<K, V>,
    pos: usize,
}

impl<'a, V: View> Iter<'a, String, V> {
    /// The pairs being walked.
    pub closed spec fn src(&self) -> Seq<(Seq<char>, <V as View>::V)> {
        self.m@
    }

    /// The stored values being walked, in the same order.
    pub closed spec fn vals(&self) -> Seq<V> {
        self.m.spec_values()
    }

    /// How many pairs have been yielded.
    pub closed spec fn pos(&self) -> int {
        self.pos as int
    }

    /// The position never runs past the end.
    pub closed spec fn wf(&self) -> bool {
        self.m.len_ok() && 0 <= self.pos() <= self.src().len()
    }

    /// The next pair in order, or `None` at the end.
    pub fn next(&mut self) -> (r: Option<(&'a String, &'a V)>)
        requires
            old(self).wf(),
        ensures
            final(self).wf(),
            final(self).src() == old(self).src(),
            final(self).vals() == old(self).vals(),
            final(self).vals().len() == final(self).src().len(),
            0 <= old(self).pos() <= old(self).src().len(),
            if old(self).pos() < old(self).src().len() {
                &&& final(self).pos() == old(self).pos() + 1
                &&& r matches Some(p) && (p.0@, p.1@) == old(self).src()[old(self).pos()]
                    && *p.1 == old(self).vals()[old(self).pos()]
            } else {
                r is None && final(self).pos() == old(self).pos()
            },
    {
        let m = self.m;
        if self.pos < m.keys.len() {
            let i = self.pos;
            self.pos = i + 1;
            Some((&m.keys[i], &m.values[i]))
        } else {
            None
        }
    }
}

/// A borrowing iterator over the keys of an `OrderedHashMap`, in insertion
/// order.
#[verifier::reject_recursive_types(K)]
#[verifier::reject_recursive_types(V)]
pub struct Keys<'a, K, V> {
    m: &'a OrderedHashMap<K, V>,
    pos: usize,
}

impl<'a, V: View> Keys<'a, String, V> {
    /// The pairs whose keys are being walked.
    pub closed spec fn src(&self) -> Seq<(Seq<char>, <V as View>::V)> {
        self.m@
    }

    /// How many keys have been yielded.
    pub closed spec fn pos(&self) -> int {
        self.pos as int
    }

    /// The position never runs past the end.
    pub closed spec fn wf(&self) -> bool {
        self.m.len_ok() && 0 <= self.pos() <= self.src().len()
    }

    /// The next key in order, or `None` at the end.
    pub fn next(&mut self) -> (r: Option<&'a String>)
        requires
            old(self).wf(),
        ensures
            final(self).wf(),
            final(self).src() == old(self).src(),
            if old(self).pos() < old(self).src().len() {
                &&& final(self).pos() == old(self).pos() + 1
                &&& r matches Some(s) && s@ == old(self).src()[old(self).pos()].0
            } else {
                r is None && final(self).pos() == old(self).pos()
            },
    {
        let m = self.m;
        if self.pos < m.keys.len() {
            let i = self.pos;
            self.pos = i + 1;
            Some(&m.keys[i])
        } else {
            None
        }
    }
}

/// An owning iterator over the pairs of an `OrderedHashMap`, in insertion
/// order of the keys.
#[verifier::reject_recursive_types(K)]
#[verifier::reject_recursive_types(V)]
pub struct IntoIter<K, V> {
    m: OrderedHashMap<K, V>,
}

impl<V: View> IntoIter<String, V> {
    /// The pairs not yet yielded, in order.
    pub closed spec fn remaining(&self) -> Seq<(Seq<char>, <V as View>::V)> {
        self.m@
    }

    /// The not-yet-yielded rest is itself a well-formed map.
    pub closed spec fn wf(&self) -> bool {
        self.m.wf()
    }

    /// The next owned pair in order, or `None` at the end.
    pub fn next(&mut self) -> (r: Option<(String, V)>)
        requires
            old(self).wf(),
        ensures
            final(self).wf(),
            if old(self).remaining().len() > 0 {
                &&& r matches Some(p) && (p.0@, p.1@) == old(self).remaining()[0]
                &&& final(self).remaining() == old(self).remaining().drop_first()
            } else {
                r is None && final(self).remaining() == old(self).remaining()
            },
    {
        if self.m.keys.len() > 0 {
            let k = self.m.keys.remove(0);
            let v = self.m.values.remove(0);
            proof {
                assert(self.m@ =~= old(self).m@.drop_first());
            }
            Some((k, v))
        } else {
            None
        }
    }
}

} // verus!
