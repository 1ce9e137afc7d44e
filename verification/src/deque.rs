//! Double-ended queue backed by a ring buffer.
//!
//! Elements live in a buffer of `cap` slots. `head` is the index of the
//! front element; the back element sits at `(head + len - 1) mod cap`. The
//! data may wrap around the end of the buffer, in which case it is seen
//! as two runs.
//!
//! Capacity doubles on demand; growing moves the data into a contiguous
//! run starting at index 0. Zero-sized types report a capacity of
//! `usize::MAX` and never allocate: their elements live in a plain vector,
//! which needs no memory for them.
use vstd::prelude::*;
use vstd::layout::size_of;
use vstd::std_specs::iter::IteratorSpec;
use crate::vec::{fits_allocation, grown_capacity};

verus! {

/// The value in a filled slot.
pub open spec fn filled<T>(o: Option<T>) -> T {
    match o {
        Some(x) => x,
        None => arbitrary(),
    }
}

/// The buffer index of logical position `j`, counting from `head` and
/// wrapping at `cap`.
pub open spec fn ring_index(head: int, j: int, cap: int) -> int {
    if head + j < cap {
        head + j
    } else {
        head + j - cap
    }
}

/// The logical position of buffer index `i`: how far it lies past `head`,
/// wrapping at `cap`.
pub open spec fn ring_offset(head: int, i: int, cap: int) -> int {
    if i >= head {
        i - head
    } else {
        i - head + cap
    }
}

/// The values behind a sequence of references.
pub open spec fn derefs<T>(s: Seq<&T>) -> Seq<T> {
    s.map_values(|x: &T| *x)
}

/// Exactly the `len` slots from `head` on, wrapping around, are filled.
pub open spec fn ring_ok<T>(buf: Seq<Option<T>>, head: int, len: int) -> bool {
    let cap = buf.len() as int;
    &&& cap == 0 ==> head == 0
    &&& cap > 0 ==> 0 <= head < cap
    &&& 0 <= len <= cap
    &&& forall|i: int|
        #![trigger buf[i]]
        0 <= i < cap ==> (buf[i] is Some <==> ring_offset(head, i, cap) < len)
}

/// The `len` values from `head` on, wrapping around.
pub open spec fn ring_view<T>(buf: Seq<Option<T>>, head: int, len: int) -> Seq<T> {
    Seq::new(len as nat, |j: int| filled(buf[ring_index(head, j, buf.len() as int)]))
}

fn ring_add(head: usize, j: usize, cap: usize) -> (p: usize)
    requires
        head < cap,
        j < cap,
    ensures
        p == ring_index(head as int, j as int, cap as int),
{
    if j < cap - head {
        head + j
    } else {
        j - (cap - head)
    }
}

/// A buffer of `n` empty slots.
fn empty_ring<T>(n: usize) -> (v: std::vec::Vec<Option<T>>)
    ensures
        v@.len() == n,
        forall|i: int| 0 <= i < n ==> #[trigger] v@[i] is None,
{
    let mut v = std::vec::Vec::with_capacity(n);
    let mut k: usize = 0;
    while k < n
        invariant
            k <= n,
            v@.len() == k,
            forall|i: int| 0 <= i < k ==> #[trigger] v@[i] is None,
        decreases n - k,
    {
        v.push(None);
        k = k + 1;
    }
    v
}

/// Appends mutable references to the values of the filled slots of `s`,
/// passing over empty ones. When every slot is filled, each reference
/// stands for its slot, in order.
fn collect_mut<'a, T>(s: &'a mut [Option<T>], out: &mut std::vec::Vec<&'a mut T>)
    ensures
        (forall|i: int| 0 <= i < old(s)@.len() ==> (#[trigger] old(s)@[i]) is Some) ==> {
            &&& final(out)@.len() == old(out)@.len() + old(s)@.len()
            &&& forall|i: int| 0 <= i < old(out)@.len() ==> final(out)@[i] == old(out)@[i]
            &&& forall|i: int|
                0 <= i < old(s)@.len() ==> *final(out)@[old(out)@.len() + i] == filled(old(s)@[i])
            &&& final(s)@.len() == old(s)@.len()
            &&& forall|i: int|
                0 <= i < old(s)@.len() ==> final(s)@[i] == Some(
                    *final(final(out)@[old(out)@.len() + i]),
                )
        },
    decreases old(s)@.len(),
{
    if s.len() == 0 {
        return ;
    }
    let ghost s0 = s@;
    let ghost o0 = out@;
    let (a, b) = s.split_at_mut(1);
    let first = a.first_mut().unwrap();
    match first.as_mut() {
        Some(r) => out.push(r),
        None => {},
    }
    let ghost b0 = b@;
    proof {
        if forall|i: int| 0 <= i < s0.len() ==> (#[trigger] s0[i]) is Some {
            assert forall|i: int| 0 <= i < b0.len() implies (#[trigger] b0[i]) is Some by {
                assert(b0[i] == s0[i + 1]);
            }
        }
    }
    collect_mut(b, out);
    proof {
        if forall|i: int| 0 <= i < s0.len() ==> (#[trigger] s0[i]) is Some {
            assert(s0[0] is Some);
            assert forall|i: int| 0 <= i < s0.len() implies *out@[o0.len() + i] == filled(s0[i]) by {
                if i > 0 {
                    assert(b0[i - 1] == s0[i]);
                }
            }
        }
    }
}

pub struct Deque<T> {
    buf: std::vec::Vec<Option<T>>,
    head: usize,
    len: usize,
    /// The elements when they are zero-sized, front to back.
    items: std::vec::Vec<T>,
}

impl<T> View for Deque<T> {
    type V = Seq<T>;

    /// The elements, front to back.
    closed spec fn view(&self) -> Seq<T> {
        if size_of::<T>() == 0 {
            self.items@
        } else {
            ring_view(self.buf@, self.head as int, self.len as int)
        }
    }
}

impl<T> Deque<T> {
    /// The ring invariant: exactly the `len` slots from `head` on, wrapping
    /// around, are filled. Zero-sized elements leave the ring empty.
    pub closed spec fn wf(&self) -> bool {
        &&& ring_ok(self.buf@, self.head as int, self.len as int)
        &&& size_of::<T>() != 0 ==> fits_allocation::<T>(self.buf@.len()) && self.items@.len()
            == 0
        &&& size_of::<T>() == 0 ==> self.buf@.len() == 0 && self.len == 0
    }

    /// The number of slots in the ring buffer.
    pub closed spec fn ring_size(&self) -> nat {
        self.buf@.len()
    }

    /// The buffer slot that holds the front element.
    pub closed spec fn head_slot(&self) -> nat {
        self.head as nat
    }

    /// The capacity callers see: the ring's slots, or `usize::MAX` for
    /// zero-sized elements.
    pub open spec fn spec_capacity(&self) -> nat {
        if size_of::<T>() == 0 {
            usize::MAX as nat
        } else {
            self.ring_size()
        }
    }

    /// How many elements, from the front, lie in one run of the buffer
    /// before it wraps around: all of them for zero-sized elements.
    pub open spec fn front_run(&self) -> nat {
        if size_of::<T>() == 0 || self.head_slot() + self@.len() <= self.ring_size() {
            self@.len()
        } else {
            (self.ring_size() - self.head_slot()) as nat
        }
    }

    /// A well-formed deque never holds more elements than its ring has
    /// slots, and its front sits inside the ring.
    pub proof fn lemma_len_within_capacity(&self)
        requires
            self.wf(),
        ensures
            size_of::<T>() != 0 ==> self@.len() <= self.ring_size(),
            size_of::<T>() == 0 ==> self.ring_size() == 0,
            self@.len() <= self.spec_capacity(),
            self.ring_size() <= usize::MAX,
            self.ring_size() == 0 ==> self.head_slot() == 0,
            self.ring_size() > 0 ==> self.head_slot() < self.ring_size(),
            self.front_run() <= self@.len(),
            size_of::<T>() != 0 ==> fits_allocation::<T>(self.ring_size()),
    {
        assert(self.buf.len() == self.buf@.len());
        assert(self.items.len() == self.items@.len());
    }

    /// The ring size after one push: unchanged while a slot is free, grown
    /// when full; zero-sized elements keep no ring.
    pub open spec fn ring_after_push(&self) -> nat {
        if size_of::<T>() == 0 {
            0
        } else if self@.len() < self.ring_size() {
            self.ring_size()
        } else {
            grown_capacity(self.ring_size())
        }
    }

    /// Where the front sits before the new element of a push is placed: a
    /// full ring grows and moves its elements to the start of the buffer.
    pub open spec fn head_before_push(&self) -> nat {
        if self@.len() < self.ring_size() {
            self.head_slot()
        } else {
            0
        }
    }

    proof fn lemma_index(&self, j: int)
        requires
            self.wf(),
            size_of::<T>() != 0,
            0 <= j < self.len,
        ensures
            0 <= ring_index(self.head as int, j, self.buf@.len() as int) < self.buf@.len(),
            self.buf@[ring_index(self.head as int, j, self.buf@.len() as int)] is Some,
            self@[j] == filled(self.buf@[ring_index(self.head as int, j, self.buf@.len() as int)]),
    {
        let i = ring_index(self.head as int, j, self.buf@.len() as int);
        assert(ring_offset(self.head as int, i, self.buf@.len() as int) == j);
    }

    pub fn new() -> (d: Self)
        ensures
            d.wf(),
            d@ =~= Seq::<T>::empty(),
            d.spec_capacity() == if size_of::<T>() == 0 {
                usize::MAX as nat
            } else {
                0
            },
            d.ring_size() == 0,
            d.head_slot() == 0,
    {
        Self { buf: std::vec::Vec::new(), head: 0, len: 0, items: std::vec::Vec::new() }
    }

    /// An empty deque with room for `capacity` elements.
    pub fn with_capacity(capacity: usize) -> (d: Self)
        requires
            fits_allocation::<T>(capacity as nat),
        ensures
            d.wf(),
            d@ =~= Seq::<T>::empty(),
            d.spec_capacity() == if size_of::<T>() == 0 {
                usize::MAX as nat
            } else {
                capacity as nat
            },
            d.ring_size() == if size_of::<T>() == 0 {
                0
            } else {
                capacity as nat
            },
            d.head_slot() == 0,
    {
        if core::mem::size_of::<T>() == 0 || capacity == 0 {
            return Self::new();
        }
        Self { buf: empty_ring(capacity), head: 0, len: 0, items: std::vec::Vec::new() }
    }

    pub fn len(&self) -> (n: usize)
        ensures
            n == self@.len(),
    {
        if core::mem::size_of::<T>() == 0 {
            self.items.len()
        } else {
            self.len
        }
    }

    pub fn is_empty(&self) -> (b: bool)
        ensures
            b == (self@.len() == 0),
    {
        self.len() == 0
    }

    pub fn capacity(&self) -> (n: usize)
        ensures
            n == self.spec_capacity(),
    {
        if core::mem::size_of::<T>() == 0 {
            usize::MAX
        } else {
            self.buf.len()
        }
    }

    /// Whether a push can proceed: there is a free slot, or the buffer can
    /// grow and the grown buffer fits an allocation.
    ///
    /// The allocation bound depends on `size_of::<T>()`. Verus knows the
    /// size of primitive types; for another element type a verified caller
    /// states it with a `global layout` directive before it can show this
    /// for a full buffer.
    pub open spec fn can_push(&self) -> bool {
        ||| self@.len() < self.spec_capacity()
        ||| size_of::<T>() != 0 && fits_allocation::<T>(grown_capacity(self.spec_capacity()))
    }

    /// The capacity after one push.
    pub open spec fn capacity_after_push(&self) -> nat {
        if self@.len() < self.spec_capacity() {
            self.spec_capacity()
        } else {
            grown_capacity(self.spec_capacity())
        }
    }

    pub fn push_back(&mut self, value: T)
        requires
            old(self).wf(),
            old(self).can_push(),
        ensures
            final(self).wf(),
            final(self)@ == old(self)@.push(value),
            final(self).spec_capacity() == old(self).capacity_after_push(),
            final(self).ring_size() == old(self).ring_after_push(),
            final(self).head_slot() == old(self).head_before_push(),
    {
        if core::mem::size_of::<T>() == 0 {
            self.items.push(value);
            return ;
        }
        if self.len == self.buf.len() {
            self.grow();
        }
        let ghost b = self.buf@;
        let cap = self.buf.len();
        let index = ring_add(self.head, self.len, cap);
        self.buf.set(index, Some(value));
        self.len = self.len + 1;
        proof {
            assert forall|i: int| #![trigger self.buf@[i]] 0 <= i < cap implies (
            self.buf@[i] is Some <==> ring_offset(self.head as int, i, cap as int) < self.len) by {
                if i != index {
                    assert(b[i] == self.buf@[i]);
                }
            }
            assert forall|j: int| 0 <= j < self.len implies #[trigger] self@[j] == old(self)@.push(
                value,
            )[j] by {
                if j < self.len - 1 {
                    old(self).lemma_index(j);
                }
            }
        }
    }

    pub fn push_front(&mut self, value: T)
        requires
            old(self).wf(),
            old(self).can_push(),
        ensures
            final(self).wf(),
            final(self)@ == seq![value] + old(self)@,
            final(self).spec_capacity() == old(self).capacity_after_push(),
            final(self).ring_size() == old(self).ring_after_push(),
            final(self).head_slot() == if size_of::<T>() == 0 {
                0
            } else if old(self).head_before_push() == 0 {
                (old(self).ring_after_push() - 1) as nat
            } else {
                (old(self).head_before_push() - 1) as nat
            },
    {
        if core::mem::size_of::<T>() == 0 {
            self.items.insert(0, value);
            return ;
        }
        if self.len == self.buf.len() {
            self.grow();
        }
        let ghost b = self.buf@;
        let ghost mid = self@;
        let ghost head0 = self.head;
        let cap = self.buf.len();
        self.head = if self.head == 0 {
            cap - 1
        } else {
            self.head - 1
        };
        self.buf.set(self.head, Some(value));
        self.len = self.len + 1;
        proof {
            assert forall|i: int| #![trigger self.buf@[i]] 0 <= i < cap implies (
            self.buf@[i] is Some <==> ring_offset(self.head as int, i, cap as int) < self.len) by {
                if i != self.head {
                    assert(b[i] == self.buf@[i]);
                }
            }
            assert forall|j: int| 0 <= j < self.len implies #[trigger] self@[j] == (seq![value]
                + mid)[j] by {
                if j > 0 {
                    assert(ring_index(self.head as int, j, cap as int) == ring_index(
                        head0 as int,
                        j - 1,
                        cap as int,
                    ));
                }
            }
        }
    }

    pub fn pop_back(&mut self) -> (r: Option<T>)
        requires
            old(self).wf(),
        ensures
            final(self).wf(),
            final(self).spec_capacity() == old(self).spec_capacity(),
            final(self).ring_size() == old(self).ring_size(),
            final(self).head_slot() == old(self).head_slot(),
            old(self)@.len() == 0 ==> r is None && final(self)@ == old(self)@,
            old(self)@.len() > 0 ==> r == Some(old(self)@.last()) && final(self)@ == old(
                self,
            )@.drop_last(),
    {
        if core::mem::size_of::<T>() == 0 {
            return self.items.pop();
        }
        if self.len == 0 {
            return None;
        }
        proof {
            self.lemma_index(self.len - 1);
        }
        let ghost b = self.buf@;
        self.len = self.len - 1;
        let index = ring_add(self.head, self.len, self.buf.len());
        let mut out = None;
        std::mem::swap(&mut self.buf[index], &mut out);
        proof {
            let cap = b.len();
            assert forall|i: int| #![trigger self.buf@[i]] 0 <= i < cap implies (
            self.buf@[i] is Some <==> ring_offset(self.head as int, i, cap as int) < self.len) by {
                if i != index {
                    assert(b[i] == self.buf@[i]);
                }
            }
            assert forall|j: int| 0 <= j < self.len implies #[trigger] self@[j] == old(
                self,
            )@.drop_last()[j] by {
                old(self).lemma_index(j);
            }
        }
        out
    }

    pub fn pop_front(&mut self) -> (r: Option<T>)
        requires
            old(self).wf(),
        ensures
            final(self).wf(),
            final(self).spec_capacity() == old(self).spec_capacity(),
            final(self).ring_size() == old(self).ring_size(),
            final(self).head_slot() == if old(self)@.len() == 0 || size_of::<T>() == 0 {
                old(self).head_slot()
            } else if old(self).head_slot() + 1 == old(self).ring_size() {
                0
            } else {
                old(self).head_slot() + 1
            },
            old(self)@.len() == 0 ==> r is None && final(self)@ == old(self)@,
            old(self)@.len() > 0 ==> r == Some(old(self)@[0]) && final(self)@ == old(
                self,
            )@.drop_first(),
    {
        if core::mem::size_of::<T>() == 0 {
            if self.items.len() == 0 {
                return None;
            }
            return Some(self.items.remove(0));
        }
        if self.len == 0 {
            return None;
        }
        proof {
            self.lemma_index(0);
        }
        let ghost b = self.buf@;
        let ghost head0 = self.head;
        let mut out = None;
        std::mem::swap(&mut self.buf[self.head], &mut out);
        let cap = self.buf.len();
        self.head = if self.head + 1 == cap {
            0
        } else {
            self.head + 1
        };
        self.len = self.len - 1;
        proof {
            assert forall|i: int| #![trigger self.buf@[i]] 0 <= i < cap implies (
            self.buf@[i] is Some <==> ring_offset(self.head as int, i, cap as int) < self.len) by {
                if i != head0 {
                    assert(b[i] == self.buf@[i]);
                }
            }
            assert forall|j: int| 0 <= j < self.len implies #[trigger] self@[j] == old(
                self,
            )@.drop_first()[j] by {
                old(self).lemma_index(j + 1);
                assert(ring_index(self.head as int, j, cap as int) == ring_index(
                    head0 as int,
                    j + 1,
                    cap as int,
                ));
            }
        }
        out
    }

    pub fn front(&self) -> (r: Option<&T>)
        requires
            self.wf(),
        ensures
            r == if self@.len() > 0 {
                Some(&self@[0])
            } else {
                None
            },
    {
        self.get(0)
    }

    pub fn back(&self) -> (r: Option<&T>)
        requires
            self.wf(),
        ensures
            r == if self@.len() > 0 {
                Some(&self@[self@.len() - 1])
            } else {
                None
            },
    {
        let n = self.len();
        if n == 0 {
            None
        } else {
            self.get(n - 1)
        }
    }

    /// The element at logical position `index`, if there is one.
    pub fn get(&self, index: usize) -> (r: Option<&T>)
        requires
            self.wf(),
        ensures
            r == if index < self@.len() {
                Some(&self@[index as int])
            } else {
                None
            },
    {
        if core::mem::size_of::<T>() == 0 {
            if index >= self.items.len() {
                return None;
            }
            return Some(&self.items[index]);
        }
        if index >= self.len {
            return None;
        }
        proof {
            self.lemma_index(index as int);
        }
        let pos = ring_add(self.head, index, self.buf.len());
        self.buf[pos].as_ref()
    }

    /// A mutable reference to the element at logical position `index`, if
    /// there is one.
    pub fn get_mut(&mut self, index: usize) -> (r: Option<&mut T>)
        requires
            old(self).wf(),
        ensures
            final(self).wf(),
            final(self).spec_capacity() == old(self).spec_capacity(),
            final(self).ring_size() == old(self).ring_size(),
            final(self).head_slot() == old(self).head_slot(),
            index < old(self)@.len() ==> {
                &&& r is Some
                &&& *r->0 == old(self)@[index as int]
                &&& final(self)@ == old(self)@.update(index as int, *final(r->0))
            },
            index >= old(self)@.len() ==> r is None && final(self)@ == old(self)@,
    {
        if core::mem::size_of::<T>() == 0 {
            if index >= self.items.len() {
                return None;
            }
            return Some(&mut self.items[index]);
        }
        if index >= self.len {
            return None;
        }
        proof {
            self.lemma_index(index as int);
        }
        let pos = ring_add(self.head, index, self.buf.len());
        let ghost b = self.buf@;
        let ghost head = self.head as int;
        let ghost len = self.len as int;
        proof {
            assert forall|x: T| #[trigger] ring_view(b.update(pos as int, Some(x)), head, len)
                =~= old(self)@.update(index as int, x) by {
                assert forall|j: int| 0 <= j < len implies ring_view(b.update(pos as int, Some(x)), head, len)[j]
                    == old(self)@.update(index as int, x)[j] by {
                    if j != index {
                        old(self).lemma_index(j);
                    }
                }
            }
            assert forall|x: T| #[trigger] ring_ok(b.update(pos as int, Some(x)), head, len) by {
                assert forall|i: int| 0 <= i < b.len() implies (#[trigger] b.update(pos as int, Some(x))[i] is Some
                    <==> ring_offset(head, i, b.len() as int) < len) by {
                    if i != pos {
                        assert(b[i] == b.update(pos as int, Some(x))[i]);
                    }
                }
            }
        }
        match &mut self.buf[pos] {
            Some(x) => Some(x),
            None => None,
        }
    }

    /// The elements as two runs of the buffer, front to back: the first
    /// run ends where the buffer wraps around.
    pub fn as_slices(&self) -> (r: (std::vec::Vec<&T>, std::vec::Vec<&T>))
        requires
            self.wf(),
        ensures
            derefs(r.0@) == self@.take(self.front_run() as int),
            derefs(r.1@) == self@.skip(self.front_run() as int),
            derefs(r.0@) + derefs(r.1@) == self@,
    {
        let n = self.len();
        let k = if core::mem::size_of::<T>() == 0 || n <= self.buf.len() - self.head {
            n
        } else {
            self.buf.len() - self.head
        };
        let a = self.refs(0, k);
        let b = self.refs(k, n);
        proof {
            assert(self@.take(k as int) + self@.skip(k as int) =~= self@);
        }
        (a, b)
    }

    /// Mutable references to the elements as two runs of the buffer, front
    /// to back: the first run ends where the buffer wraps around.
    pub fn as_mut_slices(&mut self) -> (r: (std::vec::Vec<&mut T>, std::vec::Vec<&mut T>))
        requires
            old(self).wf(),
        ensures
            r.0@.len() == old(self).front_run(),
            r.1@.len() == old(self)@.len() - old(self).front_run(),
            forall|j: int| 0 <= j < r.0@.len() ==> *r.0@[j] == old(self)@[j],
            forall|j: int| 0 <= j < r.1@.len() ==> *r.1@[j] == old(self)@[r.0@.len() + j],
            final(self).wf(),
            final(self).spec_capacity() == old(self).spec_capacity(),
            final(self).ring_size() == old(self).ring_size(),
            final(self).head_slot() == old(self).head_slot(),
            final(self)@.len() == old(self)@.len(),
            forall|j: int| 0 <= j < r.0@.len() ==> final(self)@[j] == *final(r.0@[j]),
            forall|j: int| 0 <= j < r.1@.len() ==> final(self)@[r.0@.len() + j] == *final(r.1@[j]),
    {
        self.runs_mut()
    }

    /// The two runs of `as_mut_slices`, cut out of the buffer with bounds
    /// checked as it goes, so that it asks nothing of the caller; on a
    /// well-formed deque the checks always pass.
    fn runs_mut(&mut self) -> (r: (std::vec::Vec<&mut T>, std::vec::Vec<&mut T>))
        ensures
            old(self).wf() ==> {
                &&& r.0@.len() == old(self).front_run()
                &&& r.1@.len() == old(self)@.len() - old(self).front_run()
                &&& forall|j: int| 0 <= j < r.0@.len() ==> *r.0@[j] == old(self)@[j]
                &&& forall|j: int|
                    0 <= j < r.1@.len() ==> *r.1@[j] == old(self)@[r.0@.len() + j]
                &&& final(self).wf()
                &&& final(self).spec_capacity() == old(self).spec_capacity()
                &&& final(self).ring_size() == old(self).ring_size()
                &&& final(self).head_slot() == old(self).head_slot()
                &&& final(self)@.len() == old(self)@.len()
                &&& forall|j: int| 0 <= j < r.0@.len() ==> final(self)@[j] == *final(r.0@[j])
                &&& forall|j: int|
                    0 <= j < r.1@.len() ==> final(self)@[r.0@.len() + j] == *final(r.1@[j])
            },
    {
        if core::mem::size_of::<T>() == 0 {
            let mut a: std::vec::Vec<&mut T> = std::vec::Vec::new();
            crate::vec::collect_mut(self.items.as_mut_slice(), &mut a);
            return (a, std::vec::Vec::new());
        }
        let len = self.len;
        let head = self.head;
        let cap = self.buf.len();
        if head > cap || len > cap {
            return (std::vec::Vec::new(), std::vec::Vec::new());
        }
        let k = if len <= cap - head {
            len
        } else {
            cap - head
        };
        if len - k > head {
            return (std::vec::Vec::new(), std::vec::Vec::new());
        }
        proof {
            if old(self).wf() {
                assert forall|j: int| 0 <= j < len implies #[trigger] self@[j] == filled(
                    self.buf@[ring_index(head as int, j, cap as int)],
                ) by {
                    self.lemma_index(j);
                }
            }
        }
        let ghost b0 = self.buf@;
        let s = self.buf.as_mut_slice();
        let (lo, hi) = s.split_at_mut(head);
        let (mid, rest) = hi.split_at_mut(k);
        let (lo2, rest2) = lo.split_at_mut(len - k);
        proof {
            if old(self).wf() {
                assert forall|i: int| 0 <= i < mid@.len() implies (#[trigger] mid@[i]) is Some by {
                    assert(mid@[i] == b0[head + i]);
                    assert(ring_offset(head as int, head + i, cap as int) == i);
                }
                assert forall|i: int| 0 <= i < lo2@.len() implies (#[trigger] lo2@[i]) is Some by {
                    assert(lo2@[i] == b0[i]);
                    assert(ring_offset(head as int, i, cap as int) == i - head + cap);
                }
            }
        }
        let ghost mid0 = mid@;
        let ghost lo20 = lo2@;
        let mut a: std::vec::Vec<&mut T> = std::vec::Vec::new();
        collect_mut(mid, &mut a);
        let mut b: std::vec::Vec<&mut T> = std::vec::Vec::new();
        collect_mut(lo2, &mut b);
        proof {
            if old(self).wf() {
                assert forall|j: int| 0 <= j < k implies *a@[j] == old(self)@[j] by {
                    assert(ring_index(head as int, j, cap as int) == head + j);
                    assert(mid0[j] == b0[head + j]);
                }
                assert forall|j: int| 0 <= j < len - k implies *b@[j] == old(self)@[k + j] by {
                    assert(ring_index(head as int, k + j, cap as int) == j);
                    assert(lo20[j] == b0[j]);
                }
            }
        }
        (a, b)
    }

    /// Mutable references to the elements, front to back.
    pub fn iter_mut(&mut self) -> (r: std::vec::Vec<&mut T>)
        requires
            old(self).wf(),
        ensures
            r@.len() == old(self)@.len(),
            forall|j: int| 0 <= j < r@.len() ==> *r@[j] == old(self)@[j],
            final(self).wf(),
            final(self).spec_capacity() == old(self).spec_capacity(),
            final(self).ring_size() == old(self).ring_size(),
            final(self).head_slot() == old(self).head_slot(),
            final(self)@.len() == old(self)@.len(),
            forall|j: int| 0 <= j < r@.len() ==> final(self)@[j] == *final(r@[j]),
    {
        self.all_mut()
    }

    /// The references of `iter_mut`, gathered without asking anything of
    /// the caller; on a well-formed deque they are exactly its elements.
    fn all_mut(&mut self) -> (r: std::vec::Vec<&mut T>)
        ensures
            old(self).wf() ==> {
                &&& r@.len() == old(self)@.len()
                &&& forall|j: int| 0 <= j < r@.len() ==> *r@[j] == old(self)@[j]
                &&& final(self).wf()
                &&& final(self).spec_capacity() == old(self).spec_capacity()
                &&& final(self).ring_size() == old(self).ring_size()
                &&& final(self).head_slot() == old(self).head_slot()
                &&& final(self)@.len() == old(self)@.len()
                &&& forall|j: int| 0 <= j < r@.len() ==> final(self)@[j] == *final(r@[j])
            },
    {
        let (mut a, mut b) = self.runs_mut();
        a.append(&mut b);
        a
    }

    /// References to the elements at logical positions `from` up to `to`.
    fn refs(&self, from: usize, to: usize) -> (r: std::vec::Vec<&T>)
        requires
            self.wf(),
            from <= to <= self@.len(),
        ensures
            derefs(r@) == self@.subrange(from as int, to as int),
    {
        let mut r: std::vec::Vec<&T> = std::vec::Vec::new();
        let mut j = from;
        while j < to
            invariant
                self.wf(),
                from <= j <= to <= self@.len(),
                derefs(r@) == self@.subrange(from as int, j as int),
            decreases to - j,
        {
            let x = self.get(j).unwrap();
            let ghost before = r@;
            r.push(x);
            proof {
                assert(derefs(before.push(x)) =~= derefs(before).push(*x));
                assert(self@.subrange(from as int, j + 1) =~= self@.subrange(from as int, j as int).push(
                    self@[j as int],
                ));
            }
            j = j + 1;
        }
        r
    }

    /// References to the elements, front to back.
    pub fn iter(&self) -> (r: std::vec::Vec<&T>)
        requires
            self.wf(),
        ensures
            derefs(r@) == self@,
    {
        self.all_refs()
    }

    /// The references of `iter`, gathered with bounds checked as it goes,
    /// so that it asks nothing of the caller; on a well-formed deque they
    /// are exactly its elements.
    fn all_refs(&self) -> (r: std::vec::Vec<&T>)
        ensures
            self.wf() ==> derefs(r@) == self@,
    {
        let mut r: std::vec::Vec<&T> = std::vec::Vec::new();
        if core::mem::size_of::<T>() == 0 {
            let mut j: usize = 0;
            while j < self.items.len()
                invariant
                    size_of::<T>() == 0,
                    j <= self.items@.len(),
                    derefs(r@) == self.items@.take(j as int),
                decreases self.items@.len() - j,
            {
                let x = &self.items[j];
                let ghost before = r@;
                r.push(x);
                proof {
                    assert(derefs(before.push(x)) =~= derefs(before).push(*x));
                    assert(self.items@.take(j + 1) =~= self.items@.take(j as int).push(
                        self.items@[j as int],
                    ));
                }
                j = j + 1;
            }
            proof {
                assert(self.items@.take(self.items@.len() as int) =~= self.items@);
            }
            return r;
        }
        let cap = self.buf.len();
        if self.head >= cap || self.len > cap {
            proof {
                assert(derefs(r@) =~= Seq::<T>::empty());
            }
            return r;
        }
        let mut j: usize = 0;
        while j < self.len
            invariant
                size_of::<T>() != 0,
                cap == self.buf@.len(),
                self.head < cap,
                self.len <= cap,
                j <= self.len,
                self.wf() ==> derefs(r@) == self@.take(j as int),
            decreases self.len - j,
        {
            let p = ring_add(self.head, j, cap);
            let ghost before = r@;
            match &self.buf[p] {
                Some(x) => {
                    r.push(x);
                    proof {
                        assert(derefs(before.push(x)) =~= derefs(before).push(*x));
                    }
                },
                None => {},
            }
            proof {
                if self.wf() {
                    self.lemma_index(j as int);
                    assert(self@.take(j + 1) =~= self@.take(j as int).push(self@[j as int]));
                }
            }
            j = j + 1;
        }
        proof {
            if self.wf() {
                assert(self@.take(self.len as int) =~= self@);
            }
        }
        r
    }

    /// Makes room for more elements and moves them to the start of the
    /// buffer: one slot for an empty buffer, double the slots otherwise.
    /// Zero-sized elements take no memory, so their buffer stops growing
    /// at the largest count.
    fn grow(&mut self)
        requires
            old(self).wf(),
            size_of::<T>() != 0,
            old(self).len == old(self).buf@.len(),
            old(self).can_push(),
        ensures
            final(self).wf(),
            final(self)@ == old(self)@,
            final(self).head == 0,
            final(self).len == old(self).len,
            final(self).buf@.len() > old(self).len,
            final(self).buf@.len() == grown_capacity(old(self).buf@.len()),
            final(self).spec_capacity() == grown_capacity(old(self).buf@.len()),
    {
        let cap = self.buf.len();
        proof {
            assert(grown_capacity(cap as nat) <= grown_capacity(cap as nat) * size_of::<T>())
                by (nonlinear_arith)
                requires
                    size_of::<T>() >= 1,
            ;
        }
        let new_cap = if cap == 0 {
            1
        } else {
            cap * 2
        };
        let mut old_buf = empty_ring(new_cap);
        std::mem::swap(&mut self.buf, &mut old_buf);
        let ghost b = old_buf@;
        let mut j: usize = 0;
        while j < self.len
            invariant
                self.len == old(self).len,
                self.head == old(self).head,
                self.items == old(self).items,
                b == old(self).buf@,
                old(self).wf(),
                cap == b.len(),
                self.len == cap,
                self.buf@.len() == new_cap,
                new_cap > cap,
                j <= self.len,
                old_buf@.len() == cap,
                forall|i: int| 0 <= i < j ==> #[trigger] self.buf@[i] == b[ring_index(self.head as int, i, cap as int)],
                forall|i: int| j <= i < new_cap ==> #[trigger] self.buf@[i] is None,
                forall|i: int| j <= i < cap ==> #[trigger] old_buf@[ring_index(self.head as int, i, cap as int)] == b[ring_index(self.head as int, i, cap as int)],
            decreases self.len - j,
        {
            let p = ring_add(self.head, j, cap);
            let mut x = None;
            std::mem::swap(&mut old_buf[p], &mut x);
            self.buf.set(j, x);
            proof {
                assert forall|i: int| j < i < cap implies #[trigger] old_buf@[ring_index(self.head as int, i, cap as int)] == b[ring_index(self.head as int, i, cap as int)] by {
                    assert(ring_index(self.head as int, i, cap as int) != p);
                }
            }
            j = j + 1;
        }
        self.head = 0;
        proof {
            let nb = self.buf@;
            assert forall|i: int| #![trigger nb[i]] 0 <= i < new_cap implies (nb[i] is Some
                <==> ring_offset(0, i, new_cap as int) < self.len) by {
                if i < self.len {
                    old(self).lemma_index(i);
                }
            }
            assert forall|i: int| 0 <= i < self.len implies #[trigger] self@[i] == old(self)@[i] by {
                old(self).lemma_index(i);
            }
        }
    }
}

/// `pop_back` undoes `push_back`.
pub proof fn lemma_push_back_then_pop_back<T>(s: Seq<T>, x: T)
    ensures
        s.push(x).last() == x,
        s.push(x).drop_last() == s,
{
    assert(s.push(x).drop_last() =~= s);
}

/// `pop_front` undoes `push_front`.
pub proof fn lemma_push_front_then_pop_front<T>(s: Seq<T>, x: T)
    ensures
        (seq![x] + s)[0] == x,
        (seq![x] + s).drop_first() == s,
{
    assert((seq![x] + s).drop_first() =~= s);
}

/// First in, first out: on a non-empty deque, pushing at the back does not
/// change what `pop_front` returns, and the two commute.
pub proof fn lemma_push_back_pop_front_commute<T>(s: Seq<T>, x: T)
    requires
        s.len() > 0,
    ensures
        s.push(x)[0] == s[0],
        s.push(x).drop_first() == s.drop_first().push(x),
{
    assert(s.push(x).drop_first() =~= s.drop_first().push(x));
}

/// First in, first out the other way round: on a non-empty deque,
/// pushing at the front does not change what `pop_back` returns, and the
/// two commute.
pub proof fn lemma_push_front_pop_back_commute<T>(s: Seq<T>, x: T)
    requires
        s.len() > 0,
    ensures
        (seq![x] + s).last() == s.last(),
        (seq![x] + s).drop_last() == seq![x] + s.drop_last(),
{
    assert((seq![x] + s).drop_last() =~= seq![x] + s.drop_last());
}

impl<T> Default for Deque<T> {
    fn default() -> (d: Self)
        ensures
            d.wf(),
            d@ =~= Seq::<T>::empty(),
    {
        Self::new()
    }
}

impl<'a, T> IntoIterator for &'a Deque<T> {
    type Item = &'a T;

    type IntoIter = std::vec::IntoIter<&'a T>;

    /// The elements, front to back.
    fn into_iter(self) -> (it: std::vec::IntoIter<&'a T>)
        ensures
            self.wf() ==> derefs(it.remaining()) == self@,
    {
        self.all_refs().into_iter()
    }
}

impl<'a, T> IntoIterator for &'a mut Deque<T> {
    type Item = &'a mut T;

    type IntoIter = std::vec::IntoIter<&'a mut T>;

    /// Mutable references to the elements, front to back.
    fn into_iter(self) -> (it: std::vec::IntoIter<&'a mut T>)
        ensures
            old(self).wf() ==> {
                &&& it.remaining().len() == old(self)@.len()
                &&& forall|j: int|
                    0 <= j < old(self)@.len() ==> *it.remaining()[j] == old(self)@[j]
                &&& final(self).wf()
                &&& final(self).spec_capacity() == old(self).spec_capacity()
                &&& final(self)@.len() == old(self)@.len()
                &&& forall|j: int|
                    0 <= j < old(self)@.len() ==> final(self)@[j] == *final(it.remaining()[j])
            },
    {
        self.all_mut().into_iter()
    }
}

} // verus!

