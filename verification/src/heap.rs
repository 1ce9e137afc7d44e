//! Binary max-heap (priority queue).
//!
//! Stored as an implicit binary tree in a `Vec`, where the element at
//! index `i` has its children at `2i + 1` and `2i + 2`. The root holds
//! the largest element under the element type's `TotalOrder`.
use vstd::prelude::*;
use vstd::multiset::Multiset;
use vstd::seq_lib::group_to_multiset_ensures;
use crate::order::TotalOrder;

verus! {

broadcast use group_to_multiset_ensures;

/// Index of the parent of node `i` in the implicit tree.
pub open spec fn parent(i: int) -> int {
    (i - 1) / 2
}

/// `x` is a largest element of `m`.
pub open spec fn is_max<T: TotalOrder>(m: Multiset<T>, x: T) -> bool {
    &&& m.contains(x)
    &&& forall|y: T| #[trigger] m.contains(y) ==> T::ord_le(y, x)
}

/// `s` with the elements at `i` and `j` exchanged.
pub open spec fn swap_seq<T>(s: Seq<T>, i: int, j: int) -> Seq<T> {
    s.update(i, s[j]).update(j, s[i])
}

/// Every node sorts at or before its parent.
pub open spec fn heap_ordered<T: TotalOrder>(s: Seq<T>) -> bool {
    forall|i: int| #![trigger s[i]] 0 < i < s.len() ==> T::ord_le(s[i], s[parent(i)])
}

/// Heap order holds everywhere except between node `k` and its parent;
/// the children of `k` already sort at or before `k`'s parent.
spec fn heap_except_up<T: TotalOrder>(s: Seq<T>, k: int) -> bool {
    &&& forall|i: int|
        #![trigger s[i]]
        0 < i < s.len() && i != k ==> T::ord_le(s[i], s[parent(i)])
    &&& k > 0 ==> forall|i: int|
        #![trigger s[i]]
        0 < i < s.len() && parent(i) == k ==> T::ord_le(s[i], s[parent(k)])
}

/// Heap order holds everywhere except between node `k` and its children;
/// those children already sort at or before `k`'s parent.
spec fn heap_except_down<T: TotalOrder>(s: Seq<T>, k: int) -> bool {
    &&& forall|i: int|
        #![trigger s[i]]
        0 < i < s.len() && parent(i) != k ==> T::ord_le(s[i], s[parent(i)])
    &&& k > 0 ==> forall|i: int|
        #![trigger s[i]]
        0 < i < s.len() && parent(i) == k ==> T::ord_le(s[i], s[parent(k)])
}

proof fn lemma_update_multiset<T>(s: Seq<T>, i: int, x: T)
    requires
        0 <= i < s.len(),
    ensures
        s.update(i, x).to_multiset() =~= s.to_multiset().remove(s[i]).insert(x),
{
    let u = s.update(i, x);
    assert(u.remove(i) =~= s.remove(i));
    vstd::seq_lib::to_multiset_remove(u, i);
    vstd::seq_lib::to_multiset_remove(s, i);
    assert(u[i] == x);
    assert(u.contains(x));
    assert(u.to_multiset().count(x) > 0);
}

proof fn lemma_swap_multiset<T>(s: Seq<T>, i: int, j: int)
    requires
        0 <= i < s.len(),
        0 <= j < s.len(),
    ensures
        swap_seq(s, i, j).to_multiset() =~= s.to_multiset(),
{
    let u = s.update(i, s[j]);
    lemma_update_multiset(s, i, s[j]);
    lemma_update_multiset(u, j, s[i]);
    assert(s.contains(s[j]));
    assert(s.to_multiset().count(s[j]) > 0);
    if i != j {
        assert(u[j] == s[j]);
        assert(s.contains(s[i]));
        assert(s.to_multiset().count(s[i]) > 0);
    }
}

/// In a heap-ordered sequence every element sorts at or before the root.
proof fn lemma_root_is_max<T: TotalOrder>(s: Seq<T>, i: int)
    requires
        heap_ordered(s),
        0 <= i < s.len(),
    ensures
        T::ord_le(s[i], s[0]),
    decreases i,
{
    if i == 0 {
        T::ord_reflexive(s[0]);
    } else {
        let p = parent(i);
        lemma_root_is_max(s, p);
        T::ord_transitive(s[i], s[p], s[0]);
    }
}

proof fn lemma_root_is_max_multiset<T: TotalOrder>(s: Seq<T>)
    requires
        heap_ordered(s),
        s.len() > 0,
    ensures
        is_max(s.to_multiset(), s[0]),
{
    assert(s.contains(s[0]));
    assert forall|y: T| #[trigger] s.to_multiset().contains(y) implies T::ord_le(y, s[0]) by {
        assert(s.contains(y));
        let i = choose|i: int| 0 <= i < s.len() && s[i] == y;
        lemma_root_is_max(s, i);
    }
}

proof fn lemma_sift_up_step<T: TotalOrder>(s: Seq<T>, k: int)
    requires
        0 < k < s.len(),
        heap_except_up(s, k),
        !T::ord_le(s[k], s[parent(k)]),
    ensures
        heap_except_up(swap_seq(s, parent(k), k), parent(k)),
{
    let p = parent(k);
    let t = swap_seq(s, p, k);
    T::ord_total(s[k], s[p]);
    assert forall|i: int| 0 < i < t.len() && i != p implies #[trigger] T::ord_le(
        t[i],
        t[parent(i)],
    ) by {
        if i == k {
        } else if parent(i) == k {
            assert(t[i] == s[i]);
        } else if parent(i) == p {
            assert(t[i] == s[i]);
            assert(T::ord_le(s[i], s[parent(i)]));
            T::ord_transitive(s[i], s[p], s[k]);
        } else {
            assert(t[i] == s[i]);
            assert(T::ord_le(s[i], s[parent(i)]));
        }
    }
    if p > 0 {
        let pp = parent(p);
        assert(T::ord_le(s[p], s[pp]));
        assert forall|i: int| 0 < i < t.len() && parent(i) == p implies #[trigger] T::ord_le(
            t[i],
            t[pp],
        ) by {
            if i != k {
                assert(t[i] == s[i]);
                assert(T::ord_le(s[i], s[parent(i)]));
                T::ord_transitive(s[i], s[p], s[pp]);
            }
        }
    }
    assert(heap_except_up(t, p));
}

proof fn lemma_sift_down_step<T: TotalOrder>(s: Seq<T>, k: int, m: int)
    requires
        0 <= k < m < s.len(),
        parent(m) == k,
        heap_except_down(s, k),
        T::ord_le(s[k], s[m]),
        forall|c: int| 0 < c < s.len() && parent(c) == k ==> T::ord_le(#[trigger] s[c], s[m]),
    ensures
        heap_except_down(swap_seq(s, k, m), m),
{
    let t = swap_seq(s, k, m);
    assert forall|i: int| 0 < i < t.len() && parent(i) != m implies #[trigger] T::ord_le(
        t[i],
        t[parent(i)],
    ) by {
        if i == m {
        } else if parent(i) == k {
            assert(t[i] == s[i]);
            assert(T::ord_le(s[i], s[m]));
        } else if i == k {
            assert(T::ord_le(s[m], s[parent(k)]));
        } else {
            assert(t[i] == s[i]);
            assert(T::ord_le(s[i], s[parent(i)]));
        }
    }
    assert forall|i: int| 0 < i < t.len() && parent(i) == m implies #[trigger] T::ord_le(
        t[i],
        t[parent(m)],
    ) by {
        assert(t[i] == s[i]);
        assert(T::ord_le(s[i], s[parent(i)]));
    }
    assert(heap_except_down(t, m));
}

/// Exchanges the elements at `i` and `j`.
fn swap_elems<T>(v: &mut std::vec::Vec<T>, i: usize, j: usize)
    requires
        i < j < old(v)@.len(),
    ensures
        final(v)@ == swap_seq(old(v)@, i as int, j as int),
{
    let s = v.as_mut_slice();
    let (a, b) = s.split_at_mut(j);
    std::mem::swap(&mut a[i], &mut b[0]);
}

pub struct BinaryHeap<T: TotalOrder> {
    data: std::vec::Vec<T>,
}

impl<T: TotalOrder> View for BinaryHeap<T> {
    type V = Multiset<T>;

    /// The elements of the heap, with their multiplicities.
    closed spec fn view(&self) -> Multiset<T> {
        self.data@.to_multiset()
    }
}

impl<T: TotalOrder> BinaryHeap<T> {
    /// The heap invariant: every element sorts at or before its parent.
    pub closed spec fn wf(&self) -> bool {
        heap_ordered(self.data@)
    }

    /// The element at the root, which `peek` shows and `pop` removes.
    pub closed spec fn top(&self) -> T {
        self.data@[0]
    }

    /// The root of a non-empty heap is one of its largest elements.
    pub proof fn lemma_top_is_max(&self)
        requires
            self.wf(),
            self@.len() > 0,
        ensures
            is_max(self@, self.top()),
    {
        lemma_root_is_max_multiset(self.data@);
    }

    pub fn new() -> (heap: Self)
        ensures
            heap.wf(),
            heap@ =~= Multiset::empty(),
    {
        Self { data: std::vec::Vec::new() }
    }

    /// An empty heap with room for `capacity` elements; the buffer must
    /// fit an allocation.
    pub fn with_capacity(capacity: usize) -> (heap: Self)
        requires
            capacity * vstd::layout::size_of::<T>() <= isize::MAX,
        ensures
            heap.wf(),
            heap@ =~= Multiset::empty(),
    {
        Self { data: std::vec::Vec::with_capacity(capacity) }
    }

    pub fn len(&self) -> (n: usize)
        ensures
            n == self@.len(),
    {
        self.data.len()
    }

    pub fn is_empty(&self) -> (b: bool)
        ensures
            b == (self@.len() == 0),
    {
        self.data.len() == 0
    }

    /// A largest element, or `None` when the heap is empty.
    pub fn peek(&self) -> (r: Option<&T>)
        requires
            self.wf(),
        ensures
            self@.len() == 0 ==> r is None,
            self@.len() > 0 ==> r == Some(&self.top()) && is_max(self@, self.top()),
    {
        if self.data.len() == 0 {
            None
        } else {
            proof {
                self.lemma_top_is_max();
            }
            Some(&self.data[0])
        }
    }

    pub fn push(&mut self, item: T)
        requires
            old(self).wf(),
        ensures
            final(self).wf(),
            final(self)@ =~= old(self)@.insert(item),
    {
        self.data.push(item);
        self.sift_up(self.data.len() - 1);
    }

    /// Removes and returns a largest element, or `None` when the heap is
    /// empty.
    pub fn pop(&mut self) -> (r: Option<T>)
        requires
            old(self).wf(),
        ensures
            final(self).wf(),
            old(self)@.len() == 0 ==> r is None && final(self)@ == old(self)@,
            old(self)@.len() > 0 ==> {
                &&& r == Some(old(self).top())
                &&& is_max(old(self)@, old(self).top())
                &&& final(self)@ =~= old(self)@.remove(old(self).top())
            },
    {
        if self.data.len() == 0 {
            return None;
        }
        proof {
            old(self).lemma_top_is_max();
        }
        let ghost s = self.data@;
        let last = self.data.len() - 1;
        if last > 0 {
            swap_elems(&mut self.data, 0, last);
            proof {
                lemma_swap_multiset(s, 0, last as int);
            }
        }
        let ghost t = self.data@;
        let result = self.data.pop();
        proof {
            assert(t.remove(last as int) =~= self.data@);
            vstd::seq_lib::to_multiset_remove(t, last as int);
            assert forall|i: int|
                #![trigger self.data@[i]]
                0 < i < self.data@.len() && parent(i) != 0 implies T::ord_le(
                self.data@[i],
                self.data@[parent(i)],
            ) by {
                assert(self.data@[i] == s[i]);
                assert(T::ord_le(s[i], s[parent(i)]));
            }
            assert(heap_except_down(self.data@, 0));
        }
        if self.data.len() > 0 {
            self.sift_down(0);
        }
        result
    }

    fn sift_up(&mut self, index: usize)
        requires
            index < old(self).data@.len(),
            heap_except_up(old(self).data@, index as int),
        ensures
            final(self).wf(),
            final(self).data@.to_multiset() =~= old(self).data@.to_multiset(),
            final(self).data@.len() == old(self).data@.len(),
    {
        let mut index = index;
        while index > 0 && T::is_greater(&self.data[index], &self.data[(index - 1) / 2])
            invariant
                index < self.data@.len(),
                self.data@.len() == old(self).data@.len(),
                heap_except_up(self.data@, index as int),
                self.data@.to_multiset() =~= old(self).data@.to_multiset(),
            decreases index,
        {
            let parent_index = (index - 1) / 2;
            proof {
                lemma_sift_up_step(self.data@, index as int);
                lemma_swap_multiset(self.data@, parent_index as int, index as int);
            }
            swap_elems(&mut self.data, parent_index, index);
            index = parent_index;
        }
        proof {
            let s = self.data@;
            assert forall|i: int| #![trigger s[i]] 0 < i < s.len() implies T::ord_le(
                s[i],
                s[parent(i)],
            ) by {
                if i == index {
                    assert(T::ord_le(s[i], s[parent(i)]));
                }
            }
        }
    }

    fn sift_down(&mut self, index: usize)
        requires
            index < old(self).data@.len(),
            heap_except_down(old(self).data@, index as int),
        ensures
            final(self).wf(),
            final(self).data@.to_multiset() =~= old(self).data@.to_multiset(),
            final(self).data@.len() == old(self).data@.len(),
    {
        let len = self.data.len();
        let mut index = index;
        loop
            invariant
                len == self.data@.len(),
                len == old(self).data@.len(),
                index < len,
                heap_except_down(self.data@, index as int),
                self.data@.to_multiset() =~= old(self).data@.to_multiset(),
            ensures
                heap_ordered(self.data@),
                self.data@.to_multiset() =~= old(self).data@.to_multiset(),
                len == self.data@.len(),
            decreases len - index,
        {
            let ghost s = self.data@;
            let mut largest = index;
            if index < len / 2 {
                let left = 2 * index + 1;
                if T::is_greater(&self.data[left], &self.data[largest]) {
                    largest = left;
                }
                let right = left + 1;
                if right < len && T::is_greater(&self.data[right], &self.data[largest]) {
                    largest = right;
                }
            }
            proof {
                let k = index as int;
                let m = largest as int;
                T::ord_reflexive(s[k]);
                if k < len / 2 {
                    let l = 2 * k + 1;
                    let r = l + 1;
                    T::ord_total(s[l], s[k]);
                    if r < len {
                        T::ord_total(s[r], s[l]);
                        T::ord_total(s[r], s[k]);
                        if T::ord_le(s[k], s[l]) && T::ord_le(s[l], s[r]) {
                            T::ord_transitive(s[k], s[l], s[r]);
                        }
                        if T::ord_le(s[l], s[k]) && T::ord_le(s[k], s[r]) {
                            T::ord_transitive(s[l], s[k], s[r]);
                        }
                    }
                    T::ord_reflexive(s[m]);
                    assert forall|c: int| 0 < c < len && parent(c) == k implies T::ord_le(
                        #[trigger] s[c],
                        s[m],
                    ) by {
                        assert(c == l || c == r);
                    }
                } else {
                    assert forall|c: int| 0 < c < len && parent(c) == k implies T::ord_le(
                        #[trigger] s[c],
                        s[m],
                    ) by {
                        assert(c >= 2 * k + 1);
                    }
                }
            }
            if largest == index {
                proof {
                    assert forall|i: int| #![trigger s[i]] 0 < i < s.len() implies T::ord_le(
                        s[i],
                        s[parent(i)],
                    ) by {
                        if parent(i) == index {
                            assert(T::ord_le(s[i], s[index as int]));
                        }
                    }
                }
                break;
            }
            proof {
                lemma_sift_down_step(s, index as int, largest as int);
                lemma_swap_multiset(s, index as int, largest as int);
            }
            swap_elems(&mut self.data, index, largest);
            index = largest;
        }
    }
}

impl<T: TotalOrder> Default for BinaryHeap<T> {
    fn default() -> (heap: Self)
        ensures
            heap.wf(),
            heap@ =~= Multiset::empty(),
    {
        Self::new()
    }
}

/// Successive pops come out in non-increasing order: once a largest
/// element `a` is removed, a largest element `b` of what remains sorts
/// at or before `a`.
pub proof fn lemma_pop_order<T: TotalOrder>(m: Multiset<T>, a: T, b: T)
    requires
        is_max(m, a),
        is_max(m.remove(a), b),
    ensures
        T::ord_le(b, a),
{
    assert(m.remove(a).contains(b));
    assert(m.contains(b));
}

/// `out` lists what popping a heap that holds `m` gives until it is empty:
/// each element is a largest one of what is left.
pub open spec fn pop_sequence<T: TotalOrder>(m: Multiset<T>, out: Seq<T>) -> bool
    decreases out.len(),
{
    if out.len() == 0 {
        m.len() == 0
    } else {
        is_max(m, out[0]) && pop_sequence(m.remove(out[0]), out.drop_first())
    }
}

/// Popping a heap until it is empty gives its elements sorted from
/// largest to smallest: the pops are non-increasing and hold exactly the
/// heap's elements.
pub proof fn lemma_pop_sequence_sorted<T: TotalOrder>(m: Multiset<T>, out: Seq<T>)
    requires
        pop_sequence(m, out),
    ensures
        forall|i: int, j: int| 0 <= i < j < out.len() ==> T::ord_le(#[trigger] out[j], #[trigger] out[i]),
        out.to_multiset() =~= m,
    decreases out.len(),
{
    if out.len() == 0 {
        assert(out.to_multiset() =~= Multiset::empty());
        assert(m =~= Multiset::empty());
    } else {
        let x = out[0];
        let rest = out.drop_first();
        lemma_pop_sequence_sorted(m.remove(x), rest);
        assert(out.remove(0) =~= rest);
        vstd::seq_lib::to_multiset_remove(out, 0);
        assert(out.contains(x));
        assert(out.to_multiset().count(x) > 0);
        assert(m.contains(x));
        assert forall|i: int, j: int| 0 <= i < j < out.len() implies T::ord_le(
            #[trigger] out[j],
            #[trigger] out[i],
        ) by {
            assert(out[j] == rest[j - 1]);
            if i == 0 {
                assert(rest.contains(rest[j - 1]));
                assert(rest.to_multiset().contains(rest[j - 1]));
                assert(m.contains(out[j]));
            } else {
                assert(out[i] == rest[i - 1]);
            }
        }
        assert(out.to_multiset() =~= out.to_multiset().remove(x).insert(x));
        assert(m =~= m.remove(x).insert(x));
    }
}

/// In a heap of `i8`, the element `peek` shows and `pop` removes is
/// numerically at least every element of the heap.
pub proof fn lemma_i8_top_is_largest(h: &BinaryHeap<i8>)
    requires
        h.wf(),
        h@.len() > 0,
    ensures
        h@.contains(h.top()),
        forall|y: i8| #[trigger] h@.contains(y) ==> y <= h.top(),
{
    h.lemma_top_is_max();
}

/// Popping a heap of `i8` until it is empty gives its values in
/// numerically non-increasing order.
pub proof fn lemma_i8_pops_descend(m: Multiset<i8>, out: Seq<i8>)
    requires
        pop_sequence(m, out),
    ensures
        forall|i: int, j: int| 0 <= i < j < out.len() ==> #[trigger] out[j] <= #[trigger] out[i],
        out.to_multiset() =~= m,
{
    lemma_pop_sequence_sorted(m, out);
}

/// In a heap of `i16`, the element `peek` shows and `pop` removes is
/// numerically at least every element of the heap.
pub proof fn lemma_i16_top_is_largest(h: &BinaryHeap<i16>)
    requires
        h.wf(),
        h@.len() > 0,
    ensures
        h@.contains(h.top()),
        forall|y: i16| #[trigger] h@.contains(y) ==> y <= h.top(),
{
    h.lemma_top_is_max();
}

/// Popping a heap of `i16` until it is empty gives its values in
/// numerically non-increasing order.
pub proof fn lemma_i16_pops_descend(m: Multiset<i16>, out: Seq<i16>)
    requires
        pop_sequence(m, out),
    ensures
        forall|i: int, j: int| 0 <= i < j < out.len() ==> #[trigger] out[j] <= #[trigger] out[i],
        out.to_multiset() =~= m,
{
    lemma_pop_sequence_sorted(m, out);
}

/// In a heap of `i32`, the element `peek` shows and `pop` removes is
/// numerically at least every element of the heap.
pub proof fn lemma_i32_top_is_largest(h: &BinaryHeap<i32>)
    requires
        h.wf(),
        h@.len() > 0,
    ensures
        h@.contains(h.top()),
        forall|y: i32| #[trigger] h@.contains(y) ==> y <= h.top(),
{
    h.lemma_top_is_max();
}

/// Popping a heap of `i32` until it is empty gives its values in
/// numerically non-increasing order.
pub proof fn lemma_i32_pops_descend(m: Multiset<i32>, out: Seq<i32>)
    requires
        pop_sequence(m, out),
    ensures
        forall|i: int, j: int| 0 <= i < j < out.len() ==> #[trigger] out[j] <= #[trigger] out[i],
        out.to_multiset() =~= m,
{
    lemma_pop_sequence_sorted(m, out);
}

/// In a heap of `i64`, the element `peek` shows and `pop` removes is
/// numerically at least every element of the heap.
pub proof fn lemma_i64_top_is_largest(h: &BinaryHeap<i64>)
    requires
        h.wf(),
        h@.len() > 0,
    ensures
        h@.contains(h.top()),
        forall|y: i64| #[trigger] h@.contains(y) ==> y <= h.top(),
{
    h.lemma_top_is_max();
}

/// Popping a heap of `i64` until it is empty gives its values in
/// numerically non-increasing order.
pub proof fn lemma_i64_pops_descend(m: Multiset<i64>, out: Seq<i64>)
    requires
        pop_sequence(m, out),
    ensures
        forall|i: int, j: int| 0 <= i < j < out.len() ==> #[trigger] out[j] <= #[trigger] out[i],
        out.to_multiset() =~= m,
{
    lemma_pop_sequence_sorted(m, out);
}

/// In a heap of `i128`, the element `peek` shows and `pop` removes is
/// numerically at least every element of the heap.
pub proof fn lemma_i128_top_is_largest(h: &BinaryHeap<i128>)
    requires
        h.wf(),
        h@.len() > 0,
    ensures
        h@.contains(h.top()),
        forall|y: i128| #[trigger] h@.contains(y) ==> y <= h.top(),
{
    h.lemma_top_is_max();
}

/// Popping a heap of `i128` until it is empty gives its values in
/// numerically non-increasing order.
pub proof fn lemma_i128_pops_descend(m: Multiset<i128>, out: Seq<i128>)
    requires
        pop_sequence(m, out),
    ensures
        forall|i: int, j: int| 0 <= i < j < out.len() ==> #[trigger] out[j] <= #[trigger] out[i],
        out.to_multiset() =~= m,
{
    lemma_pop_sequence_sorted(m, out);
}

/// In a heap of `isize`, the element `peek` shows and `pop` removes is
/// numerically at least every element of the heap.
pub proof fn lemma_isize_top_is_largest(h: &BinaryHeap<isize>)
    requires
        h.wf(),
        h@.len() > 0,
    ensures
        h@.contains(h.top()),
        forall|y: isize| #[trigger] h@.contains(y) ==> y <= h.top(),
{
    h.lemma_top_is_max();
}

/// Popping a heap of `isize` until it is empty gives its values in
/// numerically non-increasing order.
pub proof fn lemma_isize_pops_descend(m: Multiset<isize>, out: Seq<isize>)
    requires
        pop_sequence(m, out),
    ensures
        forall|i: int, j: int| 0 <= i < j < out.len() ==> #[trigger] out[j] <= #[trigger] out[i],
        out.to_multiset() =~= m,
{
    lemma_pop_sequence_sorted(m, out);
}

/// In a heap of `u8`, the element `peek` shows and `pop` removes is
/// numerically at least every element of the heap.
pub proof fn lemma_u8_top_is_largest(h: &BinaryHeap<u8>)
    requires
        h.wf(),
        h@.len() > 0,
    ensures
        h@.contains(h.top()),
        forall|y: u8| #[trigger] h@.contains(y) ==> y <= h.top(),
{
    h.lemma_top_is_max();
}

/// Popping a heap of `u8` until it is empty gives its values in
/// numerically non-increasing order.
pub proof fn lemma_u8_pops_descend(m: Multiset<u8>, out: Seq<u8>)
    requires
        pop_sequence(m, out),
    ensures
        forall|i: int, j: int| 0 <= i < j < out.len() ==> #[trigger] out[j] <= #[trigger] out[i],
        out.to_multiset() =~= m,
{
    lemma_pop_sequence_sorted(m, out);
}

/// In a heap of `u16`, the element `peek` shows and `pop` removes is
/// numerically at least every element of the heap.
pub proof fn lemma_u16_top_is_largest(h: &BinaryHeap<u16>)
    requires
        h.wf(),
        h@.len() > 0,
    ensures
        h@.contains(h.top()),
        forall|y: u16| #[trigger] h@.contains(y) ==> y <= h.top(),
{
    h.lemma_top_is_max();
}

/// Popping a heap of `u16` until it is empty gives its values in
/// numerically non-increasing order.
pub proof fn lemma_u16_pops_descend(m: Multiset<u16>, out: Seq<u16>)
    requires
        pop_sequence(m, out),
    ensures
        forall|i: int, j: int| 0 <= i < j < out.len() ==> #[trigger] out[j] <= #[trigger] out[i],
        out.to_multiset() =~= m,
{
    lemma_pop_sequence_sorted(m, out);
}

/// In a heap of `u32`, the element `peek` shows and `pop` removes is
/// numerically at least every element of the heap.
pub proof fn lemma_u32_top_is_largest(h: &BinaryHeap<u32>)
    requires
        h.wf(),
        h@.len() > 0,
    ensures
        h@.contains(h.top()),
        forall|y: u32| #[trigger] h@.contains(y) ==> y <= h.top(),
{
    h.lemma_top_is_max();
}

/// Popping a heap of `u32` until it is empty gives its values in
/// numerically non-increasing order.
pub proof fn lemma_u32_pops_descend(m: Multiset<u32>, out: Seq<u32>)
    requires
        pop_sequence(m, out),
    ensures
        forall|i: int, j: int| 0 <= i < j < out.len() ==> #[trigger] out[j] <= #[trigger] out[i],
        out.to_multiset() =~= m,
{
    lemma_pop_sequence_sorted(m, out);
}

/// In a heap of `u64`, the element `peek` shows and `pop` removes is
/// numerically at least every element of the heap.
pub proof fn lemma_u64_top_is_largest(h: &BinaryHeap<u64>)
    requires
        h.wf(),
        h@.len() > 0,
    ensures
        h@.contains(h.top()),
        forall|y: u64| #[trigger] h@.contains(y) ==> y <= h.top(),
{
    h.lemma_top_is_max();
}

/// Popping a heap of `u64` until it is empty gives its values in
/// numerically non-increasing order.
pub proof fn lemma_u64_pops_descend(m: Multiset<u64>, out: Seq<u64>)
    requires
        pop_sequence(m, out),
    ensures
        forall|i: int, j: int| 0 <= i < j < out.len() ==> #[trigger] out[j] <= #[trigger] out[i],
        out.to_multiset() =~= m,
{
    lemma_pop_sequence_sorted(m, out);
}

/// In a heap of `u128`, the element `peek` shows and `pop` removes is
/// numerically at least every element of the heap.
pub proof fn lemma_u128_top_is_largest(h: &BinaryHeap<u128>)
    requires
        h.wf(),
        h@.len() > 0,
    ensures
        h@.contains(h.top()),
        forall|y: u128| #[trigger] h@.contains(y) ==> y <= h.top(),
{
    h.lemma_top_is_max();
}

/// Popping a heap of `u128` until it is empty gives its values in
/// numerically non-increasing order.
pub proof fn lemma_u128_pops_descend(m: Multiset<u128>, out: Seq<u128>)
    requires
        pop_sequence(m, out),
    ensures
        forall|i: int, j: int| 0 <= i < j < out.len() ==> #[trigger] out[j] <= #[trigger] out[i],
        out.to_multiset() =~= m,
{
    lemma_pop_sequence_sorted(m, out);
}

/// In a heap of `usize`, the element `peek` shows and `pop` removes is
/// numerically at least every element of the heap.
pub proof fn lemma_usize_top_is_largest(h: &BinaryHeap<usize>)
    requires
        h.wf(),
        h@.len() > 0,
    ensures
        h@.contains(h.top()),
        forall|y: usize| #[trigger] h@.contains(y) ==> y <= h.top(),
{
    h.lemma_top_is_max();
}

/// Popping a heap of `usize` until it is empty gives its values in
/// numerically non-increasing order.
pub proof fn lemma_usize_pops_descend(m: Multiset<usize>, out: Seq<usize>)
    requires
        pop_sequence(m, out),
    ensures
        forall|i: int, j: int| 0 <= i < j < out.len() ==> #[trigger] out[j] <= #[trigger] out[i],
        out.to_multiset() =~= m,
{
    lemma_pop_sequence_sorted(m, out);
}

} // verus!
