//! Dynamic array (growable vector).
//!
//! The elements live in a buffer whose capacity doubles on demand, from
//! one slot for the first push. Zero-sized types never need storage: their
//! capacity is `usize::MAX` from the start and never grows.
use vstd::prelude::*;
use vstd::layout::size_of;
use vstd::std_specs::iter::IteratorSpec;

verus! {

/// The capacity after a grow from `cap`: one slot for an empty buffer,
/// double otherwise.
pub open spec fn grown_capacity(cap: nat) -> nat {
    if cap == 0 {
        1
    } else {
        cap * 2
    }
}

/// A buffer of `cap` elements of `T` fits an allocation.
pub open spec fn fits_allocation<T>(cap: nat) -> bool {
    cap * size_of::<T>() <= isize::MAX
}

/// The capacity of a new, empty vector.
pub open spec fn initial_capacity<T>() -> nat {
    if size_of::<T>() == 0 {
        usize::MAX as nat
    } else {
        0
    }
}

pub struct Vec<T> {
    data: std::vec::Vec<T>,
    cap: usize,
}

impl<T> View for Vec<T> {
    type V = Seq<T>;

    /// The elements, front to back.
    closed spec fn view(&self) -> Seq<T> {
        self.data@
    }
}

/// Appends mutable references to the elements of `s`, front to back.
pub(crate) fn collect_mut<'a, T>(s: &'a mut [T], out: &mut std::vec::Vec<&'a mut T>)
    ensures
        final(out)@.len() == old(out)@.len() + old(s)@.len(),
        forall|i: int| 0 <= i < old(out)@.len() ==> final(out)@[i] == old(out)@[i],
        forall|i: int| 0 <= i < old(s)@.len() ==> *final(out)@[old(out)@.len() + i] == old(s)@[i],
        final(s)@.len() == old(s)@.len(),
        forall|i: int|
            0 <= i < old(s)@.len() ==> final(s)@[i] == *final(final(out)@[old(out)@.len() + i]),
    decreases old(s)@.len(),
{
    if s.len() == 0 {
        return ;
    }
    let ghost s0 = s@;
    let ghost o0 = out@;
    let (a, b) = s.split_at_mut(1);
    let first = a.first_mut().unwrap();
    out.push(first);
    let ghost b0 = b@;
    collect_mut(b, out);
    assert forall|i: int| 0 <= i < s0.len() implies *out@[o0.len() + i] == s0[i] by {
        if i > 0 {
            assert(b0[i - 1] == s0[i]);
        }
    }
}

impl<T> Vec<T> {
    /// The number of elements the buffer holds room for.
    pub closed spec fn spec_capacity(&self) -> nat {
        self.cap as nat
    }

    /// The elements fit the buffer, the buffer fits an allocation, and a
    /// buffer of zero-sized elements is as large as can be counted.
    pub closed spec fn wf(&self) -> bool {
        &&& self.data@.len() <= self.cap
        &&& size_of::<T>() == 0 ==> self.cap == usize::MAX
        &&& fits_allocation::<T>(self.cap as nat)
    }

    pub fn new() -> (v: Self)
        ensures
            v.wf(),
            v@ =~= Seq::<T>::empty(),
            v.spec_capacity() == initial_capacity::<T>(),
    {
        let cap = if core::mem::size_of::<T>() == 0 {
            usize::MAX
        } else {
            0
        };
        Self { data: std::vec::Vec::new(), cap }
    }

    /// An empty vector with room for `capacity` elements.
    pub fn with_capacity(capacity: usize) -> (v: Self)
        requires
            fits_allocation::<T>(capacity as nat),
        ensures
            v.wf(),
            v@ =~= Seq::<T>::empty(),
            v.spec_capacity() == if size_of::<T>() == 0 || capacity == 0 {
                initial_capacity::<T>()
            } else {
                capacity as nat
            },
    {
        if core::mem::size_of::<T>() == 0 || capacity == 0 {
            return Self::new();
        }
        Self { data: std::vec::Vec::with_capacity(capacity), cap: capacity }
    }

    pub fn len(&self) -> (n: usize)
        ensures
            n == self@.len(),
    {
        self.data.len()
    }

    pub fn is_empty(&self) -> (b: bool)
        ensures
            b == (self@.len() == 0),
    {
        self.data.len() == 0
    }

    pub fn capacity(&self) -> (n: usize)
        ensures
            n == self.spec_capacity(),
    {
        self.cap
    }

    /// Whether a push into this vector can proceed: there is a free slot,
    /// or the buffer can grow and the grown buffer fits an allocation.
    ///
    /// The allocation bound depends on `size_of::<T>()`. Verus knows the
    /// size of primitive types; for another element type a verified caller
    /// states it with a `global layout` directive before it can show this
    /// for a full buffer.
    pub open spec fn can_push(&self) -> bool {
        ||| self@.len() < self.spec_capacity()
        ||| size_of::<T>() != 0 && fits_allocation::<T>(grown_capacity(self.spec_capacity()))
    }

    /// Appends `value`, growing the buffer when it is full.
    pub fn push(&mut self, value: T)
        requires
            old(self).wf(),
            old(self).can_push(),
        ensures
            final(self).wf(),
            final(self)@ == old(self)@.push(value),
            final(self).spec_capacity() == if old(self)@.len() < old(self).spec_capacity() {
                old(self).spec_capacity()
            } else {
                grown_capacity(old(self).spec_capacity())
            },
    {
        if self.data.len() == self.cap {
            self.grow();
        }
        self.data.push(value);
    }

    /// Removes and returns the last element.
    pub fn pop(&mut self) -> (r: Option<T>)
        requires
            old(self).wf(),
        ensures
            final(self).wf(),
            final(self).spec_capacity() == old(self).spec_capacity(),
            old(self)@.len() == 0 ==> r is None && final(self)@ == old(self)@,
            old(self)@.len() > 0 ==> r == Some(old(self)@.last()) && final(self)@
                == old(self)@.drop_last(),
    {
        self.data.pop()
    }

    /// The element at `index`, if there is one.
    pub fn get(&self, index: usize) -> (r: Option<&T>)
        ensures
            r == if index < self@.len() {
                Some(&self@[index as int])
            } else {
                None
            },
    {
        if index >= self.data.len() {
            return None;
        }
        Some(&self.data[index])
    }

    /// A mutable reference to the element at `index`, if there is one.
    pub fn get_mut(&mut self, index: usize) -> (r: Option<&mut T>)
        requires
            old(self).wf(),
        ensures
            final(self).wf(),
            final(self).spec_capacity() == old(self).spec_capacity(),
            index < old(self)@.len() ==> {
                &&& r is Some
                &&& *r->0 == old(self)@[index as int]
                &&& final(self)@ == old(self)@.update(index as int, *final(r->0))
            },
            index >= old(self)@.len() ==> r is None && final(self)@ == old(self)@,
    {
        if index >= self.data.len() {
            return None;
        }
        Some(&mut self.data[index])
    }

    /// Replaces the element at `index`, returning the old one; `None`,
    /// with nothing changed, when `index` is out of bounds.
    pub fn set(&mut self, index: usize, value: T) -> (r: Option<T>)
        requires
            old(self).wf(),
        ensures
            final(self).wf(),
            final(self).spec_capacity() == old(self).spec_capacity(),
            index < old(self)@.len() ==> r == Some(old(self)@[index as int]) && final(self)@
                == old(self)@.update(index as int, value),
            index >= old(self)@.len() ==> r is None && final(self)@ == old(self)@,
    {
        if index >= self.data.len() {
            return None;
        }
        let mut value = value;
        std::mem::swap(&mut self.data[index], &mut value);
        Some(value)
    }

    /// The elements as a slice.
    pub fn as_slice(&self) -> (s: &[T])
        ensures
            s@ == self@,
    {
        self.data.as_slice()
    }

    /// The elements as a mutable slice.
    pub fn as_mut_slice(&mut self) -> (s: &mut [T])
        requires
            old(self).wf(),
        ensures
            s@ == old(self)@,
            final(self)@ == final(s)@,
            final(s)@.len() == s@.len() ==> final(self).wf(),
            final(self).spec_capacity() == old(self).spec_capacity(),
    {
        self.data.as_mut_slice()
    }

    /// An iterator over references to the elements, front to back.
    pub fn iter(&self) -> (it: std::slice::Iter<'_, T>)
        ensures
            it.remaining() == self@.as_ref(),
    {
        self.data.as_slice().iter()
    }

    /// Mutable references to the elements, front to back.
    pub fn iter_mut(&mut self) -> (r: std::vec::Vec<&mut T>)
        ensures
            r@.len() == old(self)@.len(),
            forall|j: int| 0 <= j < r@.len() ==> *r@[j] == old(self)@[j],
            old(self).wf() ==> final(self).wf(),
            final(self).spec_capacity() == old(self).spec_capacity(),
            final(self)@.len() == old(self)@.len(),
            forall|j: int| 0 <= j < r@.len() ==> final(self)@[j] == *final(r@[j]),
    {
        let mut r: std::vec::Vec<&mut T> = std::vec::Vec::new();
        collect_mut(self.data.as_mut_slice(), &mut r);
        r
    }

    /// A well-formed vector never holds more elements than its capacity;
    /// the capacity of zero-sized elements is `usize::MAX`, and any other
    /// buffer fits an allocation.
    pub proof fn lemma_len_within_capacity(&self)
        requires
            self.wf(),
        ensures
            self@.len() <= self.spec_capacity(),
            size_of::<T>() == 0 ==> self.spec_capacity() == usize::MAX,
            fits_allocation::<T>(self.spec_capacity()),
    {
    }

    /// Makes room for more elements: one slot for an empty buffer, double
    /// the slots otherwise.
    fn grow(&mut self)
        requires
            old(self).wf(),
            size_of::<T>() != 0,
            fits_allocation::<T>(grown_capacity(old(self).spec_capacity())),
        ensures
            final(self).wf(),
            final(self)@ == old(self)@,
            final(self).spec_capacity() == grown_capacity(old(self).spec_capacity()),
    {
        let new_cap = if self.cap == 0 {
            1
        } else {
            proof {
                assert(self.cap * 2 * size_of::<T>() <= isize::MAX);
                assert(self.cap * 2 <= self.cap * 2 * size_of::<T>()) by (nonlinear_arith)
                    requires
                        size_of::<T>() >= 1,
                ;
            }
            self.cap * 2
        };
        self.data.reserve(new_cap - self.data.len());
        self.cap = new_cap;
    }
}

/// `pop` undoes `push`: it returns the pushed value and leaves the
/// elements as they were.
pub proof fn lemma_push_then_pop<T>(s: Seq<T>, x: T)
    ensures
        s.push(x).len() > 0,
        s.push(x).last() == x,
        s.push(x).drop_last() == s,
{
    assert(s.push(x).drop_last() =~= s);
}

/// Reading a position after writing it gives the written value, and the
/// other positions keep theirs.
pub proof fn lemma_set_then_get<T>(s: Seq<T>, i: int, x: T)
    requires
        0 <= i < s.len(),
    ensures
        s.update(i, x)[i] == x,
        forall|j: int| 0 <= j < s.len() && j != i ==> #[trigger] s.update(i, x)[j] == s[j],
        s.update(i, x).len() == s.len(),
{
}

impl<T> Default for Vec<T> {
    fn default() -> (v: Self)
        ensures
            v.wf(),
            v@ =~= Seq::<T>::empty(),
            v.spec_capacity() == initial_capacity::<T>(),
    {
        Self::new()
    }
}

impl<T> vstd::std_specs::core::IndexSpecImpl<usize> for Vec<T> {
    open spec fn index_req(&self, index: &usize) -> bool {
        *index < self@.len()
    }
}

impl<T> core::ops::Index<usize> for Vec<T> {
    type Output = T;

    fn index(&self, index: usize) -> (r: &T)
        ensures
            *r == self@[index as int],
    {
        &self.data[index]
    }
}

impl<'a, T> IntoIterator for &'a Vec<T> {
    type Item = &'a T;

    type IntoIter = std::slice::Iter<'a, T>;

    fn into_iter(self) -> (it: std::slice::Iter<'a, T>)
        ensures
            it.remaining() == self@.as_ref(),
    {
        self.iter()
    }
}

impl<'a, T> IntoIterator for &'a mut Vec<T> {
    type Item = &'a mut T;

    type IntoIter = std::vec::IntoIter<&'a mut T>;

    fn into_iter(self) -> (it: std::vec::IntoIter<&'a mut T>)
        ensures
            it.remaining().len() == old(self)@.len(),
            forall|j: int| 0 <= j < old(self)@.len() ==> *it.remaining()[j] == old(self)@[j],
            old(self).wf() ==> final(self).wf(),
            final(self)@.len() == old(self)@.len(),
            forall|j: int| 0 <= j < old(self)@.len() ==> final(self)@[j] == *final(it.remaining()[j]),
    {
        self.iter_mut().into_iter()
    }
}

} // verus!
