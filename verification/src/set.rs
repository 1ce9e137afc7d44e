//! Hash set built on top of [`crate::map::HashMap`].
//!
//! A set is a map whose values carry no information, so this module is a
//! thin wrapper that renames the API around elements (`insert(x)` /
//! `contains(x)`) and adds the standard set-algebra operations. All the
//! probing, resize, and hashing logic lives in the map.
use vstd::prelude::*;
use crate::key::HashKey;
use vstd::std_specs::iter::IteratorSpec;
use crate::map::{HashMap, MAX_SLOTS, MIN_CAPACITY};

verus! {

/// The elements of `s` whose view is (when `inside`) or is not (otherwise)
/// in `m`, in their order in `s`.
pub open spec fn select<T: View>(s: Seq<T>, m: Set<T::V>, inside: bool) -> Seq<T>
    decreases s.len(),
{
    if s.len() == 0 {
        Seq::empty()
    } else {
        let rest = select(s.drop_last(), m, inside);
        if m.contains(s.last()@) == inside {
            rest.push(s.last())
        } else {
            rest
        }
    }
}

/// No two elements of `s` have the same view.
pub open spec fn distinct_views<T: View>(s: Seq<T>) -> bool {
    forall|i: int, j: int| 0 <= i < j < s.len() ==> (#[trigger] s[i])@ != (#[trigger] s[j])@
}

/// The set of the views of the elements of `s`.
pub open spec fn view_set<T: View>(s: Seq<T>) -> Set<T::V> {
    Set::new(|v: T::V| exists|i: int| 0 <= i < s.len() && (#[trigger] s[i])@ == v)
}

/// The values behind a sequence of references.
pub open spec fn derefs<T>(s: Seq<&T>) -> Seq<T> {
    s.map_values(|x: &T| *x)
}

proof fn lemma_concat_views<T: View>(a: Seq<T>, b: Seq<T>)
    requires
        distinct_views(a),
        distinct_views(b),
        view_set(a).disjoint(view_set(b)),
    ensures
        distinct_views(a + b),
        view_set(a + b) =~= view_set(a).union(view_set(b)),
{
    let c = a + b;
    assert forall|i: int, j: int| 0 <= i < j < c.len() implies (#[trigger] c[i])@ != (
    #[trigger] c[j])@ by {
        if j < a.len() {
            assert(c[i] == a[i] && c[j] == a[j]);
        } else if i >= a.len() {
            assert(c[i] == b[i - a.len()] && c[j] == b[j - a.len()]);
        } else {
            assert(c[i] == a[i] && c[j] == b[j - a.len()]);
            assert(view_set(a).contains(a[i]@));
            assert(view_set(b).contains(b[j - a.len()]@));
        }
    }
    assert forall|v: T::V| #[trigger] view_set(c).contains(v) <==> view_set(a).union(
        view_set(b),
    ).contains(v) by {
        if view_set(c).contains(v) {
            let i = choose|i: int| 0 <= i < c.len() && (#[trigger] c[i])@ == v;
            if i < a.len() {
                assert(c[i] == a[i]);
            } else {
                assert(c[i] == b[i - a.len()]);
            }
        }
        if view_set(a).contains(v) {
            let i = choose|i: int| 0 <= i < a.len() && (#[trigger] a[i])@ == v;
            assert(c[i] == a[i]);
        }
        if view_set(b).contains(v) {
            let i = choose|i: int| 0 <= i < b.len() && (#[trigger] b[i])@ == v;
            assert(c[i + a.len()] == b[i]);
        }
    }
}

proof fn lemma_select<T: View>(s: Seq<T>, m: Set<T::V>, inside: bool)
    requires
        distinct_views(s),
    ensures
        distinct_views(select(s, m, inside)),
        view_set(select(s, m, inside)) =~= view_set(s).filter(|v: T::V| m.contains(v) == inside),
    decreases s.len(),
{
    let r = select(s, m, inside);
    if s.len() > 0 {
        let t = s.drop_last();
        assert(distinct_views(t)) by {
            assert forall|i: int, j: int| 0 <= i < j < t.len() implies (#[trigger] t[i])@ != (
            #[trigger] t[j])@ by {
                assert(t[i] == s[i] && t[j] == s[j]);
            }
        }
        lemma_select(t, m, inside);
        let rt = select(t, m, inside);
        assert(view_set(s) =~= view_set(t).insert(s.last()@)) by {
            assert forall|v: T::V| #[trigger] view_set(s).contains(v) implies view_set(t).insert(
                s.last()@,
            ).contains(v) by {
                let i = choose|i: int| 0 <= i < s.len() && (#[trigger] s[i])@ == v;
                if i < s.len() - 1 {
                    assert(t[i] == s[i]);
                }
            }
            assert forall|v: T::V| #[trigger] view_set(t).insert(s.last()@).contains(v) implies view_set(
                s,
            ).contains(v) by {
                if v != s.last()@ {
                    let i = choose|i: int| 0 <= i < t.len() && (#[trigger] t[i])@ == v;
                    assert(s[i] == t[i]);
                } else {
                    assert(s[s.len() - 1]@ == v);
                }
            }
        }
        if m.contains(s.last()@) == inside {
            assert(r == rt.push(s.last()));
            assert(!view_set(t).contains(s.last()@)) by {
                if view_set(t).contains(s.last()@) {
                    let i = choose|i: int| 0 <= i < t.len() && (#[trigger] t[i])@ == s.last()@;
                    assert(s[i] == t[i]);
                    assert(s[i]@ != s[s.len() - 1]@);
                }
            }
            assert forall|i: int, j: int| 0 <= i < j < r.len() implies (#[trigger] r[i])@ != (
            #[trigger] r[j])@ by {
                if j == r.len() - 1 {
                    assert(r[i] == rt[i]);
                    assert(view_set(rt).contains(rt[i]@));
                } else {
                    assert(r[i] == rt[i] && r[j] == rt[j]);
                }
            }
            assert forall|v: T::V| #[trigger] view_set(r).contains(v) <==> view_set(rt).insert(
                s.last()@,
            ).contains(v) by {
                if view_set(r).contains(v) {
                    let i = choose|i: int| 0 <= i < r.len() && (#[trigger] r[i])@ == v;
                    if i < r.len() - 1 {
                        assert(r[i] == rt[i]);
                    }
                }
                if view_set(rt).contains(v) {
                    let i = choose|i: int| 0 <= i < rt.len() && (#[trigger] rt[i])@ == v;
                    assert(r[i] == rt[i]);
                }
                if v == s.last()@ {
                    assert(r[r.len() - 1]@ == v);
                }
            }
        } else {
            assert(r == rt);
        }
    } else {
        assert(view_set(r) =~= Set::empty());
        assert(view_set(s) =~= Set::empty());
    }
}

pub struct HashSet<T: HashKey> {
    map: HashMap<T, ()>,
}

impl<T: HashKey> View for HashSet<T> {
    type V = Set<T::V>;

    /// The views of the elements.
    closed spec fn view(&self) -> Set<T::V> {
        self.map@.dom()
    }
}

impl<T: HashKey> HashSet<T> {
    pub closed spec fn wf(&self) -> bool {
        self.map.wf()
    }

    /// The number of slots of the underlying table.
    pub closed spec fn slot_count(&self) -> nat {
        self.map.slot_count()
    }

    /// Occupied slots plus tombstones of the underlying table.
    pub closed spec fn load(&self) -> nat {
        self.map.load()
    }

    /// Whether the next insertion rebuilds the table first.
    pub open spec fn over_threshold(&self) -> bool {
        self.slot_count() == 0 || self.load() * 4 >= self.slot_count() * 3
    }

    /// The number of slots after a rebuild: the minimum for an empty
    /// table, double when elements fill at least half the slots, and
    /// unchanged when tombstones dominate.
    pub open spec fn rebuilt_slot_count(&self) -> nat {
        if self.slot_count() == 0 {
            MIN_CAPACITY as nat
        } else if self@.len() * 2 >= self.slot_count() {
            self.slot_count() * 2
        } else {
            self.slot_count()
        }
    }

    /// Whether inserting an element with view `v` that the set lacks fills
    /// a tombstone of the underlying table.
    pub closed spec fn reuses_tombstone(&self, v: T::V) -> bool {
        self.map.reuses_tombstone(v)
    }

    /// The elements in the order `iter` yields them.
    pub closed spec fn elements(&self) -> Seq<T> {
        self.map.entry_seq().map_values(|e: (T, ())| e.0)
    }

    /// The elements are exactly the set, each once.
    pub proof fn lemma_elements(&self)
        requires
            self.wf(),
        ensures
            distinct_views(self.elements()),
            view_set(self.elements()) =~= self@,
    {
        self.map.lemma_entry_seq();
        let e = self.elements();
        let es = self.map.entry_seq();
        assert forall|i: int, j: int| 0 <= i < j < e.len() implies (#[trigger] e[i])@ != (
        #[trigger] e[j])@ by {
            assert(es[i].0@ != es[j].0@);
        }
        assert forall|v: T::V| #[trigger] view_set(e).contains(v) <==> self@.contains(v) by {
            if view_set(e).contains(v) {
                let i = choose|i: int| 0 <= i < e.len() && (#[trigger] e[i])@ == v;
                assert(self.map@.contains_key(es[i].0@));
            }
            if self@.contains(v) {
                assert(self.map@.contains_key(v));
                let j = choose|j: int| 0 <= j < es.len() && (#[trigger] es[j]).0@ == v;
                assert(e[j]@ == v);
            }
        }
    }

    /// The slot count is zero or a power of two of at least the minimum,
    /// a table with no slots holds nothing, and a set whose elements stay
    /// under a quarter of `MAX_SLOTS` keeps meeting `insert`'s bound.
    pub proof fn lemma_table_shape(&self)
        requires
            self.wf(),
        ensures
            self.slot_count() == 0 || (crate::map::is_pow2(self.slot_count() as usize)
                && self.slot_count() >= MIN_CAPACITY),
            self.slot_count() == 0 || self.load() < self.slot_count(),
            self@.len() <= self.load(),
            self.slot_count() == 0 ==> self@.len() == 0 && self.load() == 0,
            self.slot_count() <= MAX_SLOTS && self@.len() < MAX_SLOTS / 4
                ==> self.rebuilt_slot_count() <= MAX_SLOTS,
    {
        self.map.lemma_table_shape();
    }

    /// A set whose load stays under the capacity it was built for does not
    /// rebuild.
    pub proof fn lemma_reserved_load(&self, n: nat)
        requires
            self.slot_count() * 3 > n * 4,
            self.load() < n,
        ensures
            !self.over_threshold(),
    {
    }

    pub fn new() -> (set: Self)
        ensures
            set.wf(),
            set@ =~= Set::empty(),
            set.slot_count() == 0,
            set.load() == 0,
    {
        Self { map: HashMap::new() }
    }

    /// A set with room for `capacity` elements before its first rebuild.
    pub fn with_capacity(capacity: usize) -> (set: Self)
        requires
            capacity <= MAX_SLOTS / 4,
        ensures
            set.wf(),
            set@ =~= Set::empty(),
            set.load() == 0,
            capacity == 0 ==> set.slot_count() == 0,
            capacity > 0 ==> {
                let needed = capacity * 4 / 3 + 1;
                &&& crate::map::is_pow2(set.slot_count() as usize)
                &&& set.slot_count() >= needed
                &&& set.slot_count() >= MIN_CAPACITY
                &&& set.slot_count() == MIN_CAPACITY || set.slot_count() / 2 < needed
                &&& set.slot_count() * 3 > capacity * 4
            },
            set.slot_count() <= MAX_SLOTS,
    {
        Self { map: HashMap::with_capacity(capacity) }
    }

    pub fn len(&self) -> (n: usize)
        requires
            self.wf(),
        ensures
            n == self@.len(),
    {
        self.map.len()
    }

    pub fn is_empty(&self) -> (b: bool)
        requires
            self.wf(),
        ensures
            b == (self@.len() == 0),
    {
        self.map.is_empty()
    }

    /// The number of slots of the underlying table.
    pub fn capacity(&self) -> (n: usize)
        ensures
            n == self.slot_count(),
    {
        self.map.capacity()
    }

    /// An iterator over the elements.
    pub fn iter(&self) -> (it: Iter<'_, T>)
        ensures
            it.wf(),
            it.remaining() == self.elements(),
    {
        let inner = self.map.iter();
        Iter { inner }
    }

    /// Adds `value` to the set. Returns `true` if it was newly inserted.
    pub fn insert(&mut self, value: T) -> (added: bool)
        requires
            old(self).wf(),
            old(self).over_threshold() ==> old(self).rebuilt_slot_count() <= MAX_SLOTS,
        ensures
            final(self).wf(),
            final(self)@ == old(self)@.insert(value@),
            added == !old(self)@.contains(value@),
            final(self).slot_count() == if old(self).over_threshold() {
                old(self).rebuilt_slot_count()
            } else {
                old(self).slot_count()
            },
            !old(self).over_threshold() && old(self)@.contains(value@) ==> final(self).load()
                == old(self).load(),
            !old(self).over_threshold() && !old(self)@.contains(value@) ==> final(self).load()
                == old(self).load() + if old(self).reuses_tombstone(value@) {
                0nat
            } else {
                1nat
            },
            old(self).over_threshold() ==> final(self).load() == final(self)@.len(),
            old(self).over_threshold() ==> final(self).load() * 4 < final(self).slot_count() * 3
                + 4,
    {
        let r = self.map.insert(value, ());
        proof {
            assert(self@ =~= old(self)@.insert(value@));
        }
        r.is_none()
    }

    pub fn contains(&self, value: &T) -> (b: bool)
        requires
            self.wf(),
        ensures
            b == self@.contains(value@),
    {
        self.map.contains_key(value)
    }

    /// Removes `value` from the set. Returns `true` if it was present.
    pub fn remove(&mut self, value: &T) -> (removed: bool)
        requires
            old(self).wf(),
        ensures
            final(self).wf(),
            final(self)@ == old(self)@.remove(value@),
            removed == old(self)@.contains(value@),
            final(self).slot_count() == old(self).slot_count(),
            final(self).load() == old(self).load(),
    {
        let r = self.map.remove(value);
        proof {
            assert(self@ =~= old(self)@.remove(value@));
        }
        r.is_some()
    }

    /// The elements of `self` whose view is (when `inside`) or is not in
    /// `other`, appended to `r`.
    fn push_selected<'a>(&'a self, other: &HashSet<T>, inside: bool, r: &mut std::vec::Vec<&'a T>)
        requires
            self.wf(),
            other.wf(),
        ensures
            derefs(final(r)@) == derefs(old(r)@) + select(self.elements(), other@, inside),
    {
        let ghost start = derefs(r@);
        let ghost mut done: Seq<T> = Seq::empty();
        let mut it = self.iter();
        proof {
            assert(done + it.remaining() =~= self.elements());
            assert(derefs(r@) =~= start + select(done, other@, inside));
        }
        loop
            invariant
                self.wf(),
                other.wf(),
                it.wf(),
                done + it.remaining() == self.elements(),
                derefs(r@) == start + select(done, other@, inside),
            ensures
                derefs(r@) == start + select(self.elements(), other@, inside),
            decreases it.remaining().len(),
        {
            let ghost rem = it.remaining();
            let ghost before = r@;
            match it.next() {
                Some(x) => {
                    if other.contains(x) == inside {
                        r.push(x);
                    }
                    proof {
                        let d2 = done.push(*x);
                        assert(d2.drop_last() =~= done);
                        assert(d2 + rem.drop_first() =~= done + rem);
                        if other@.contains(x@) == inside {
                            assert(derefs(before.push(x)) =~= derefs(before).push(*x));
                        }
                        done = d2;
                    }
                },
                None => {
                    proof {
                        assert(done + rem =~= done);
                    }
                    break ;
                },
            }
        }
    }

    /// The elements of `self` followed by those of `other` that `self`
    /// lacks.
    pub fn union<'a>(&'a self, other: &'a HashSet<T>) -> (r: std::vec::Vec<&'a T>)
        requires
            self.wf(),
            other.wf(),
        ensures
            derefs(r@) == self.elements() + select(other.elements(), self@, false),
            distinct_views(derefs(r@)),
            view_set(derefs(r@)) =~= self@.union(other@),
    {
        let mut r: std::vec::Vec<&'a T> = std::vec::Vec::new();
        let mut it = self.iter();
        proof {
            assert(derefs(r@) + it.remaining() =~= self.elements());
        }
        loop
            invariant
                self.wf(),
                it.wf(),
                derefs(r@) + it.remaining() == self.elements(),
            ensures
                derefs(r@) == self.elements(),
            decreases it.remaining().len(),
        {
            let ghost rem = it.remaining();
            let ghost before = r@;
            match it.next() {
                Some(x) => {
                    r.push(x);
                    proof {
                        assert(derefs(before.push(x)) =~= derefs(before).push(*x));
                        assert(derefs(before).push(*x) + rem.drop_first() =~= derefs(before)
                            + rem);
                    }
                },
                None => {
                    proof {
                        assert(derefs(r@) + rem =~= derefs(r@));
                    }
                    break ;
                },
            }
        }
        other.push_selected(self, false, &mut r);
        proof {
            self.lemma_elements();
            other.lemma_elements();
            lemma_select(other.elements(), self@, false);
            lemma_concat_views(self.elements(), select(other.elements(), self@, false));
        }
        r
    }

    /// The elements of `self` that `other` also holds.
    pub fn intersection<'a>(&'a self, other: &'a HashSet<T>) -> (r: std::vec::Vec<&'a T>)
        requires
            self.wf(),
            other.wf(),
        ensures
            derefs(r@) == select(self.elements(), other@, true),
            distinct_views(derefs(r@)),
            view_set(derefs(r@)) =~= self@.intersect(other@),
    {
        let mut r: std::vec::Vec<&'a T> = std::vec::Vec::new();
        proof {
            assert(derefs(r@) =~= Seq::<T>::empty());
        }
        self.push_selected(other, true, &mut r);
        proof {
            assert(Seq::<T>::empty() + select(self.elements(), other@, true) =~= select(
                self.elements(),
                other@,
                true,
            ));
            self.lemma_elements();
            lemma_select(self.elements(), other@, true);
        }
        r
    }

    /// The elements of `self` that `other` lacks.
    pub fn difference<'a>(&'a self, other: &'a HashSet<T>) -> (r: std::vec::Vec<&'a T>)
        requires
            self.wf(),
            other.wf(),
        ensures
            derefs(r@) == select(self.elements(), other@, false),
            distinct_views(derefs(r@)),
            view_set(derefs(r@)) =~= self@.difference(other@),
    {
        let mut r: std::vec::Vec<&'a T> = std::vec::Vec::new();
        proof {
            assert(derefs(r@) =~= Seq::<T>::empty());
        }
        self.push_selected(other, false, &mut r);
        proof {
            assert(Seq::<T>::empty() + select(self.elements(), other@, false) =~= select(
                self.elements(),
                other@,
                false,
            ));
            self.lemma_elements();
            lemma_select(self.elements(), other@, false);
        }
        r
    }
}

/// Walks the elements of a set.
pub struct Iter<'a, T: HashKey> {
    inner: crate::map::Iter<'a, T, ()>,
}

impl<'a, T: HashKey> Iter<'a, T> {
    pub closed spec fn wf(&self) -> bool {
        self.inner.wf()
    }

    /// The elements still to come.
    pub closed spec fn remaining(&self) -> Seq<T> {
        self.inner.remaining().map_values(|e: (T, ())| e.0)
    }

    /// The next element, or `None` once every element was yielded.
    pub fn next(&mut self) -> (r: Option<&'a T>)
        requires
            old(self).wf(),
        ensures
            final(self).wf(),
            old(self).remaining().len() == 0 ==> r is None && final(self).remaining() == old(
                self,
            ).remaining(),
            old(self).remaining().len() > 0 ==> {
                &&& r matches Some(x)
                &&& *x == old(self).remaining()[0]
                &&& final(self).remaining() == old(self).remaining().drop_first()
            },
    {
        let r = self.inner.next();
        proof {
            if old(self).remaining().len() > 0 {
                assert(old(self).inner.remaining().drop_first().map_values(|e: (T, ())| e.0)
                    =~= old(self).remaining().drop_first());
            }
        }
        match r {
            Some((k, _)) => Some(k),
            None => None,
        }
    }
}

/// An inserted element is present, so inserting it again changes nothing
/// and reports `false`; a removed element is absent, so removing it again
/// reports `false`.
pub proof fn lemma_insert_remove_membership<V>(s: Set<V>, v: V)
    ensures
        s.insert(v).contains(v),
        s.insert(v).insert(v) == s.insert(v),
        !s.remove(v).contains(v),
        s.remove(v).remove(v) == s.remove(v),
{
    assert(s.insert(v).insert(v) =~= s.insert(v));
    assert(s.remove(v).remove(v) =~= s.remove(v));
}

impl<'a, T: HashKey> IntoIterator for &'a HashSet<T> {
    type Item = &'a T;

    type IntoIter = std::vec::IntoIter<&'a T>;

    /// The elements in the order `iter` yields them.
    fn into_iter(self) -> (it: std::vec::IntoIter<&'a T>)
        ensures
            derefs(it.remaining()) == self.elements(),
    {
        let mut r: std::vec::Vec<&'a T> = std::vec::Vec::new();
        let mut it = self.iter();
        proof {
            assert(derefs(r@) + it.remaining() =~= self.elements());
        }
        loop
            invariant
                it.wf(),
                derefs(r@) + it.remaining() == self.elements(),
            ensures
                derefs(r@) == self.elements(),
            decreases it.remaining().len(),
        {
            let ghost rem = it.remaining();
            let ghost before = r@;
            match it.next() {
                Some(x) => {
                    r.push(x);
                    proof {
                        assert(derefs(before.push(x)) =~= derefs(before).push(*x));
                        assert(derefs(before).push(*x) + rem.drop_first() =~= derefs(before)
                            + rem);
                    }
                },
                None => {
                    proof {
                        assert(derefs(r@) + rem =~= derefs(r@));
                    }
                    break ;
                },
            }
        }
        r.into_iter()
    }
}

impl<T: HashKey> Default for HashSet<T> {
    fn default() -> (set: Self)
        ensures
            set.wf(),
            set@ =~= Set::empty(),
    {
        Self::new()
    }
}

} // verus!
