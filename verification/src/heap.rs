//! An array-backed binary heap ordered by a priority relation.
//!
//! The heap is modelled by the sequence of its live elements in level order:
//! element `0` is the root, and the element at position `k > 0` has its
//! parent at position `(k - 1) / 2`. The storage keeps one placeholder in
//! front of them, so that position `k` of the model is slot `k + 1`.

use crate::order::is_strict_weak_order;
use crate::order::lemma_ascending_is_strict_weak_order;
use crate::order::lemma_descending_is_strict_weak_order;
use crate::order::Ascending;
use crate::order::Comparator;
use crate::order::Descending;
use vstd::prelude::*;

verus! {

/// The position of the parent of position `k`, for `k > 0`.
pub open spec fn parent(k: int) -> int {
    (k - 1) / 2
}

/// `s` with the elements at `i` and `j` exchanged.
pub open spec fn swapped<T>(s: Seq<T>, i: int, j: int) -> Seq<T> {
    s.update(i, s[j]).update(j, s[i])
}

/// The heap property: no element is above its parent.
pub open spec fn is_heap<T, C: Comparator<T>>(s: Seq<T>, c: C) -> bool {
    forall|k: int| 0 < k < s.len() ==> !c.above(#[trigger] s[k], s[parent(k)])
}

/// Sifting up from position `k`: while the element is above its parent the
/// two are exchanged, and the walk goes on from the parent's position.
pub open spec fn sift_up<T, C: Comparator<T>>(s: Seq<T>, k: int, c: C) -> Seq<T>
    decreases k,
{
    if 0 < k < s.len() && c.above(s[k], s[parent(k)]) {
        sift_up(swapped(s, k, parent(k)), parent(k), c)
    } else {
        s
    }
}

/// The child of position `k` that sifting down looks at: the left one where
/// it is the only one or is above the right one, else the right one.
pub open spec fn favoured_child<T, C: Comparator<T>>(s: Seq<T>, k: int, c: C) -> int {
    if 2 * k + 2 < s.len() && !c.above(s[2 * k + 1], s[2 * k + 2]) {
        2 * k + 2
    } else {
        2 * k + 1
    }
}

/// Sifting down from position `k`: while the favoured child is above the
/// element the two are exchanged, and the walk goes on from the child's
/// position.
pub open spec fn sift_down<T, C: Comparator<T>>(s: Seq<T>, k: int, c: C) -> Seq<T>
    decreases s.len() - k,
{
    if 0 <= k && 2 * k + 1 < s.len() && c.above(s[favoured_child(s, k, c)], s[k]) {
        sift_down(swapped(s, k, favoured_child(s, k, c)), favoured_child(s, k, c), c)
    } else {
        s
    }
}

/// The live elements after `value` has been added to a heap that holds `s`.
pub open spec fn after_add<T, C: Comparator<T>>(s: Seq<T>, value: T, c: C) -> Seq<T> {
    sift_up(s.push(value), s.len() as int, c)
}

/// The live elements after the root has been taken from a heap that holds
/// `s`: the last element takes the root's place and is sifted down.
pub open spec fn after_extract<T, C: Comparator<T>>(s: Seq<T>, c: C) -> Seq<T> {
    if s.len() == 0 {
        s
    } else {
        sift_down(s.update(0, s.last()).drop_last(), 0, c)
    }
}

/// `swap` of std's slices exchanges the elements at `a` and `b` and leaves
/// every other element in place. It panics on an index out of bounds, which
/// the precondition rules out.
pub assume_specification<E>[ <[E]>::swap ](slice: &mut [E], a: usize, b: usize)
    requires
        a < old(slice)@.len(),
        b < old(slice)@.len(),
    ensures
        final(slice)@ == swapped(old(slice)@, a as int, b as int),
;

/// A binary heap whose root is an element that no other is above.
pub struct Heap<T: Default, C: Comparator<T>> {
    count: usize,
    items: Vec<T>,
    comparator: C,
}

impl<T: Default, C: Comparator<T>> View for Heap<T, C> {
    type V = Seq<T>;

    /// The live elements in level order, the root first.
    closed spec fn view(&self) -> Seq<T> {
        self.items@.skip(1)
    }
}

impl<T: Default, C: Comparator<T>> Heap<T, C> {
    /// The priority relation the heap was built with.
    pub closed spec fn comparator(&self) -> C {
        self.comparator
    }

    /// The storage holds one placeholder and then the live elements.
    pub closed spec fn storage_well_formed(&self) -> bool {
        self.items@.len() == self.count + 1
    }

    /// The heap is usable: its storage is laid out as expected, its relation
    /// is a decidable strict weak ordering, and the heap property holds.
    pub open spec fn well_formed(&self) -> bool {
        &&& self.storage_well_formed()
        &&& self.comparator().well_defined()
        &&& is_strict_weak_order(self.comparator())
        &&& is_heap(self@, self.comparator())
    }

    /// Creates an empty heap ordered by `comparator`, which has to be a
    /// strict weak ordering.
    pub fn new(comparator: C) -> (heap: Self)
        requires
            comparator.well_defined(),
            is_strict_weak_order(comparator),
        ensures
            heap.well_formed(),
            heap@ == Seq::<T>::empty(),
            heap.comparator() == comparator,
    {
        let mut items = Vec::new();
        items.push(T::default());
        let heap = Heap { count: 0, items, comparator };
        assert(heap@ =~= Seq::<T>::empty());
        heap
    }

    /// The number of live elements.
    pub fn len(&self) -> (n: usize)
        requires
            self.storage_well_formed(),
        ensures
            n == self@.len(),
    {
        self.count
    }

    /// Whether the heap holds no element.
    pub fn is_empty(&self) -> (empty: bool)
        requires
            self.storage_well_formed(),
        ensures
            empty == (self@.len() == 0),
    {
        self.len() == 0
    }

    /// The slot of the parent of slot `idx`.
    fn parent_idx(&self, idx: usize) -> (p: usize)
        ensures
            p == idx / 2,
    {
        idx / 2
    }

    /// Whether slot `idx` has a live child.
    fn children_present(&self, idx: usize) -> (present: bool)
        ensures
            present == (2 * idx <= self.count),
    {
        idx <= self.count / 2
    }

    /// The slot of the left child of slot `idx`.
    fn left_child_idx(&self, idx: usize) -> (l: usize)
        requires
            2 * idx <= usize::MAX,
        ensures
            l == 2 * idx,
    {
        idx * 2
    }

    /// The slot of the right child of slot `idx`.
    fn right_child_idx(&self, idx: usize) -> (r: usize)
        requires
            2 * idx + 1 <= usize::MAX,
        ensures
            r == 2 * idx + 1,
    {
        self.left_child_idx(idx) + 1
    }

    /// The slot of the child of slot `idx` that belongs nearer the root:
    /// the left one where it is the only one or is above the right one, else
    /// the right one; `0` where slot `idx` has no live child.
    fn smallest_child_idx(&self, idx: usize) -> (child: usize)
        requires
            self.storage_well_formed(),
            self.comparator().well_defined(),
        ensures
            child == (if 2 * idx > self.count {
                0
            } else if 2 * idx + 1 > self.count {
                2 * idx
            } else if self.comparator.above(
                self.items@[2 * idx],
                self.items@[2 * idx + 1],
            ) {
                2 * idx
            } else {
                2 * idx + 1
            }),
            1 <= idx && 2 * idx <= self.count ==> child == favoured_child(
                self@,
                idx - 1,
                self.comparator,
            ) + 1,
    {
        if !self.children_present(idx) {
            return 0;
        }
        let left_idx: usize = self.left_child_idx(idx);
        let right_idx: usize = self.right_child_idx(idx);
        if right_idx > self.count {
            return left_idx;
        }
        if self.comparator.higher(&self.items[left_idx], &self.items[right_idx]) {
            left_idx
        } else {
            right_idx
        }
    }

    /// Adds `value`: it is appended behind the live elements and sifted up.
    pub fn add(&mut self, value: T)
        requires
            old(self).well_formed(),
            old(self)@.len() + 1 < usize::MAX,
        ensures
            final(self).well_formed(),
            final(self).comparator() == old(self).comparator(),
            final(self)@ == after_add(old(self)@, value, old(self).comparator()),
            final(self)@.len() == old(self)@.len() + 1,
            final(self)@.to_multiset() == old(self)@.to_multiset().insert(value),
    {
        self.items.push(value);
        self.count += 1;
        let mut idx: usize = self.count;
        let ghost target = after_add(old(self)@, value, old(self).comparator());
        assert(self@ =~= old(self)@.push(value));
        while idx > 1 && self.comparator.higher(&self.items[idx], &self.items[self.parent_idx(idx)])
            invariant
                self.storage_well_formed(),
                self.comparator == old(self).comparator,
                self.comparator.well_defined(),
                1 <= idx <= self.count,
                self.count == old(self).count + 1,
                sift_up(self@, idx - 1, self.comparator) == target,
            decreases idx,
        {
            let parent_idx: usize = self.parent_idx(idx);
            let ghost before = self@;
            self.items.swap(idx, parent_idx);
            assert(self@ =~= swapped(before, idx - 1, parent_idx - 1));
            idx = parent_idx;
        }
        proof {
            lemma_after_add(old(self)@, value, self.comparator);
        }
    }

    /// Takes the root, the element that no other is above: the last live
    /// element takes its place and is sifted down. An empty heap yields
    /// `None` and stays as it is.
    pub fn next(&mut self) -> (root: Option<T>)
        requires
            old(self).well_formed(),
        ensures
            final(self).well_formed(),
            final(self).comparator() == old(self).comparator(),
            old(self)@.len() == 0 ==> root is None && final(self)@ == old(self)@,
            old(self)@.len() > 0 ==> root == Some(old(self)@[0]),
            final(self)@ == after_extract(old(self)@, old(self).comparator()),
            old(self)@.len() > 0 ==> final(self)@.len() == old(self)@.len() - 1,
            old(self)@.len() > 0 ==> final(self)@.to_multiset() == old(self)@.to_multiset().remove(
                old(self)@[0],
            ),
            forall|k: int|
                0 <= k < old(self)@.len() ==> !old(self).comparator().above(
                    #[trigger] old(self)@[k],
                    old(self)@[0],
                ),
    {
        if self.is_empty() {
            return None;
        }
        proof {
            lemma_after_extract(old(self)@, old(self).comparator());
        }
        let last: usize = self.count;
        let ghost start = old(self)@.update(0, old(self)@.last()).drop_last();
        let ghost target = after_extract(old(self)@, old(self).comparator());
        self.items.swap(1, last);
        let root = self.items.pop();
        self.count -= 1;
        assert(self@ =~= start);
        let mut idx: usize = 1;
        while self.children_present(idx)
            invariant
                self.storage_well_formed(),
                self.comparator == old(self).comparator,
                self.comparator.well_defined(),
                self.count == old(self).count - 1,
                1 <= idx,
                sift_down(self@, idx - 1, self.comparator) == target,
            ensures
                self.storage_well_formed(),
                self.comparator == old(self).comparator,
                self.count == old(self).count - 1,
                self@ == target,
            decreases self.count - idx,
        {
            let child_idx: usize = self.smallest_child_idx(idx);
            if child_idx != 0 && self.comparator.higher(&self.items[child_idx], &self.items[idx]) {
                let ghost before = self@;
                self.items.swap(idx, child_idx);
                assert(self@ =~= swapped(before, idx - 1, child_idx - 1));
                idx = child_idx;
            } else {
                break;
            }
        }
        root
    }
}

impl<T: Default + Ord> Heap<T, Ascending> {
    /// Creates an empty min-heap: the smallest element is the root.
    pub fn new_min() -> (heap: Self)
        requires
            vstd::laws_cmp::obeys_cmp::<T>(),
        ensures
            heap.well_formed(),
            heap@ == Seq::<T>::empty(),
            heap.comparator() == Ascending,
    {
        proof {
            lemma_ascending_is_strict_weak_order::<T>();
        }
        Heap::new(Ascending)
    }
}

impl<T: Default + Ord> Heap<T, Descending> {
    /// Creates an empty max-heap: the largest element is the root.
    pub fn new_max() -> (heap: Self)
        requires
            vstd::laws_cmp::obeys_cmp::<T>(),
        ensures
            heap.well_formed(),
            heap@ == Seq::<T>::empty(),
            heap.comparator() == Descending,
    {
        proof {
            lemma_descending_is_strict_weak_order::<T>();
        }
        Heap::new(Descending)
    }
}

/// The maker of min-heaps.
pub struct MinHeap;

impl MinHeap {
    /// Creates an empty min-heap: the smallest element is the root.
    pub fn new<T: Default + Ord>() -> (heap: Heap<T, Ascending>)
        requires
            vstd::laws_cmp::obeys_cmp::<T>(),
        ensures
            heap.well_formed(),
            heap@ == Seq::<T>::empty(),
            heap.comparator() == Ascending,
    {
        proof {
            lemma_ascending_is_strict_weak_order::<T>();
        }
        Heap::new(Ascending)
    }
}

/// The maker of max-heaps.
pub struct MaxHeap;

impl MaxHeap {
    /// Creates an empty max-heap: the largest element is the root.
    pub fn new<T: Default + Ord>() -> (heap: Heap<T, Descending>)
        requires
            vstd::laws_cmp::obeys_cmp::<T>(),
        ensures
            heap.well_formed(),
            heap@ == Seq::<T>::empty(),
            heap.comparator() == Descending,
    {
        proof {
            lemma_descending_is_strict_weak_order::<T>();
        }
        Heap::new(Descending)
    }
}

/// Sifting up keeps the length.
pub proof fn lemma_sift_up_len<T, C: Comparator<T>>(s: Seq<T>, k: int, c: C)
    ensures
        sift_up(s, k, c).len() == s.len(),
    decreases k,
{
    if 0 < k < s.len() && c.above(s[k], s[parent(k)]) {
        lemma_sift_up_len(swapped(s, k, parent(k)), parent(k), c);
    }
}

/// Exchanging two elements keeps the elements, each as often as before.
pub proof fn lemma_swapped_keeps_elements<T>(s: Seq<T>, i: int, j: int)
    requires
        0 <= i < s.len(),
        0 <= j < s.len(),
    ensures
        swapped(s, i, j).len() == s.len(),
        swapped(s, i, j).to_multiset() == s.to_multiset(),
{
    vstd::seq_lib::to_multiset_update(s, i, s[j]);
    vstd::seq_lib::to_multiset_update(s.update(i, s[j]), j, s[i]);
    vstd::seq_lib::to_multiset_contains(s, s[i]);
    vstd::seq_lib::to_multiset_contains(s, s[j]);
    assert(s.contains(s[i]));
    assert(s.contains(s[j]));
    assert(swapped(s, i, j).to_multiset() =~= s.to_multiset());
}

/// In a strict weak ordering no two elements are above each other.
pub proof fn lemma_asymmetric<T, C: Comparator<T>>(c: C, a: T, b: T)
    requires
        is_strict_weak_order(c),
        c.above(a, b),
    ensures
        !c.above(b, a),
{
    if c.above(b, a) {
        assert(c.above(a, a));
    }
}

/// Sifting up repairs a sequence in which position `k` alone may be above
/// its parent, and keeps its elements.
pub proof fn lemma_sift_up_restores_heap<T, C: Comparator<T>>(s: Seq<T>, k: int, c: C)
    requires
        is_strict_weak_order(c),
        0 <= k < s.len(),
        forall|j: int| 0 < j < s.len() && j != k ==> !c.above(#[trigger] s[j], s[parent(j)]),
        forall|j: int|
            0 < j < s.len() && parent(j) == k && k > 0 ==> !c.above(#[trigger] s[j], s[parent(k)]),
    ensures
        is_heap(sift_up(s, k, c), c),
        sift_up(s, k, c).to_multiset() == s.to_multiset(),
    decreases k,
{
    if 0 < k && c.above(s[k], s[parent(k)]) {
        let p = parent(k);
        let t = swapped(s, k, p);
        lemma_swapped_keeps_elements(s, k, p);
        lemma_asymmetric(c, s[k], s[p]);
        assert forall|j: int| 0 < j < t.len() && j != p implies !c.above(
            #[trigger] t[j],
            t[parent(j)],
        ) by {
            if j == k {
            } else if parent(j) == p {
                assert(!c.above(s[j], s[p]));
                assert(!c.above(s[p], s[k]));
            } else if parent(j) == k {
                assert(!c.above(s[j], s[parent(k)]));
            } else {
                assert(!c.above(s[j], s[parent(j)]));
            }
        }
        assert forall|j: int| 0 < j < t.len() && parent(j) == p && p > 0 implies !c.above(
            #[trigger] t[j],
            t[parent(p)],
        ) by {
            assert(!c.above(s[p], s[parent(p)]));
            if j != k {
                assert(!c.above(s[j], s[p]));
            }
        }
        lemma_sift_up_restores_heap(t, p, c);
    } else {
        assert forall|j: int| 0 < j < s.len() implies !c.above(#[trigger] s[j], s[parent(j)]) by {}
    }
}

/// Sifting down repairs a sequence in which the children of position `k`
/// alone may be above their parent, and keeps its elements.
pub proof fn lemma_sift_down_restores_heap<T, C: Comparator<T>>(s: Seq<T>, k: int, c: C)
    requires
        is_strict_weak_order(c),
        0 <= k,
        forall|j: int|
            0 < j < s.len() && parent(j) != k ==> !c.above(#[trigger] s[j], s[parent(j)]),
        forall|j: int|
            0 < j < s.len() && parent(j) == k && k > 0 ==> !c.above(#[trigger] s[j], s[parent(k)]),
    ensures
        is_heap(sift_down(s, k, c), c),
        sift_down(s, k, c).len() == s.len(),
        sift_down(s, k, c).to_multiset() == s.to_multiset(),
    decreases s.len() - k,
{
    let left = 2 * k + 1;
    let right = 2 * k + 2;
    if left < s.len() {
        let child = favoured_child(s, k, c);
        if right < s.len() && c.above(s[left], s[right]) {
            lemma_asymmetric(c, s[left], s[right]);
        }
        if c.above(s[child], s[k]) {
            let t = swapped(s, k, child);
            lemma_swapped_keeps_elements(s, k, child);
            lemma_asymmetric(c, s[child], s[k]);
            assert forall|j: int| 0 < j < t.len() && parent(j) != child implies !c.above(
                #[trigger] t[j],
                t[parent(j)],
            ) by {
                if j == child {
                } else if parent(j) == k {
                    assert(j == left || j == right);
                    assert(!c.above(s[j], s[child]));
                } else if j == k {
                    assert(!c.above(s[child], s[parent(k)]));
                } else {
                    assert(!c.above(s[j], s[parent(j)]));
                }
            }
            assert forall|j: int| 0 < j < t.len() && parent(j) == child && child > 0 implies !c.above(
                #[trigger] t[j],
                t[parent(child)],
            ) by {
                assert(!c.above(s[j], s[parent(j)]));
            }
            lemma_sift_down_restores_heap(t, child, c);
        } else {
            assert forall|j: int| 0 < j < s.len() implies !c.above(
                #[trigger] s[j],
                s[parent(j)],
            ) by {
                if parent(j) == k {
                    assert(j == left || j == right);
                    if j != child {
                        assert(!c.above(s[j], s[child]));
                        assert(!c.above(s[child], s[k]));
                    }
                }
            }
        }
    } else {
        assert forall|j: int| 0 < j < s.len() implies !c.above(#[trigger] s[j], s[parent(j)]) by {
            if parent(j) == k {
                assert(j == left || j == right);
            }
        }
    }
}

/// In a heap no element is above the root.
pub proof fn lemma_root_is_top<T, C: Comparator<T>>(s: Seq<T>, k: int, c: C)
    requires
        is_strict_weak_order(c),
        is_heap(s, c),
        0 <= k < s.len(),
    ensures
        !c.above(s[k], s[0]),
    decreases k,
{
    if k > 0 {
        lemma_root_is_top(s, parent(k), c);
        assert(!c.above(s[k], s[parent(k)]));
    }
}

/// Adding to a heap gives a heap that holds the new element besides the
/// old ones.
pub proof fn lemma_after_add<T, C: Comparator<T>>(s: Seq<T>, value: T, c: C)
    requires
        is_strict_weak_order(c),
        is_heap(s, c),
    ensures
        is_heap(after_add(s, value, c), c),
        after_add(s, value, c).len() == s.len() + 1,
        after_add(s, value, c).to_multiset() == s.to_multiset().insert(value),
{
    let t = s.push(value);
    let k = s.len() as int;
    assert forall|j: int| 0 < j < t.len() && j != k implies !c.above(
        #[trigger] t[j],
        t[parent(j)],
    ) by {
        assert(!c.above(s[j], s[parent(j)]));
    }
    lemma_sift_up_restores_heap(t, k, c);
    lemma_sift_up_len(t, k, c);
    vstd::seq_lib::to_multiset_build(s, value);
}

/// Taking the root of a non-empty heap gives a heap that holds the other
/// elements, and no element of the old heap is above the root taken.
pub proof fn lemma_after_extract<T, C: Comparator<T>>(s: Seq<T>, c: C)
    requires
        is_strict_weak_order(c),
        is_heap(s, c),
        s.len() > 0,
    ensures
        is_heap(after_extract(s, c), c),
        after_extract(s, c).len() == s.len() - 1,
        after_extract(s, c).to_multiset() == s.to_multiset().remove(s[0]),
        forall|k: int| 0 <= k < s.len() ==> !c.above(#[trigger] s[k], s[0]),
{
    let moved = s.update(0, s.last());
    let t = moved.drop_last();
    assert forall|j: int| 0 < j < t.len() && parent(j) != 0 implies !c.above(
        #[trigger] t[j],
        t[parent(j)],
    ) by {
        assert(!c.above(s[j], s[parent(j)]));
    }
    lemma_sift_down_restores_heap(t, 0, c);
    vstd::seq_lib::to_multiset_update(s, 0, s.last());
    vstd::seq_lib::to_multiset_remove(moved, s.len() - 1);
    vstd::seq_lib::to_multiset_contains(s, s[0]);
    vstd::seq_lib::to_multiset_contains(s, s.last());
    assert(s.contains(s[0]));
    assert(s.contains(s.last()));
    assert(t =~= moved.remove(s.len() - 1));
    assert(t.to_multiset() =~= s.to_multiset().remove(s[0]));
    assert forall|k: int| 0 <= k < s.len() implies !c.above(#[trigger] s[k], s[0]) by {
        lemma_root_is_top(s, k, c);
    }
}

/// Sifting down keeps the length.
pub proof fn lemma_sift_down_len<T, C: Comparator<T>>(s: Seq<T>, k: int, c: C)
    ensures
        sift_down(s, k, c).len() == s.len(),
    decreases s.len() - k,
{
    if 0 <= k && 2 * k + 1 < s.len() && c.above(s[favoured_child(s, k, c)], s[k]) {
        lemma_sift_down_len(swapped(s, k, favoured_child(s, k, c)), favoured_child(s, k, c), c);
    }
}

/// The heap that results from adding `values`, one after the other, to an
/// empty heap.
pub open spec fn filled<T, C: Comparator<T>>(values: Seq<T>, c: C) -> Seq<T>
    decreases values.len(),
{
    if values.len() == 0 {
        Seq::empty()
    } else {
        after_add(filled(values.drop_last(), c), values.last(), c)
    }
}

/// The values that come out when the root is taken from a heap that holds
/// `s` again and again until the heap is empty, in the order in which they
/// come out.
pub open spec fn drained<T, C: Comparator<T>>(s: Seq<T>, c: C) -> Seq<T>
    decreases s.len(),
{
    if s.len() == 0 {
        Seq::empty()
    } else {
        proof {
            lemma_sift_down_len(s.update(0, s.last()).drop_last(), 0, c);
        }
        seq![s[0]] + drained(after_extract(s, c), c)
    }
}

/// The heap that is left after the root was taken `n` times from a heap that
/// holds `s`.
pub open spec fn after_extractions<T, C: Comparator<T>>(s: Seq<T>, n: nat, c: C) -> Seq<T>
    decreases n,
{
    if n == 0 {
        s
    } else {
        after_extractions(after_extract(s, c), (n - 1) as nat, c)
    }
}

/// Whatever is added to an empty heap, in whatever order, the result is a
/// heap that holds exactly what was added.
pub proof fn lemma_filled<T, C: Comparator<T>>(values: Seq<T>, c: C)
    requires
        is_strict_weak_order(c),
    ensures
        is_heap(filled(values, c), c),
        filled(values, c).len() == values.len(),
        filled(values, c).to_multiset() == values.to_multiset(),
    decreases values.len(),
{
    if values.len() == 0 {
        assert(values =~= Seq::<T>::empty());
    } else {
        lemma_filled(values.drop_last(), c);
        lemma_after_add(filled(values.drop_last(), c), values.last(), c);
        vstd::seq_lib::to_multiset_build(values.drop_last(), values.last());
        assert(values =~= values.drop_last().push(values.last()));
    }
}

/// Draining a heap yields each of its elements once, and in priority order:
/// no value that comes out later is above one that came out earlier.
pub proof fn lemma_drained<T, C: Comparator<T>>(s: Seq<T>, c: C)
    requires
        is_strict_weak_order(c),
        is_heap(s, c),
    ensures
        drained(s, c).len() == s.len(),
        drained(s, c).to_multiset() == s.to_multiset(),
        forall|i: int, j: int|
            0 <= i <= j < s.len() ==> !c.above(#[trigger] drained(s, c)[j], #[trigger] drained(s, c)[i]),
    decreases s.len(),
{
    if s.len() == 0 {
        assert(s =~= Seq::<T>::empty());
    } else {
        let rest = after_extract(s, c);
        let tail = drained(rest, c);
        lemma_after_extract(s, c);
        lemma_drained(rest, c);
        let out = drained(s, c);
        assert(out =~= seq![s[0]] + tail);
        assert(tail =~= out.remove(0));
        vstd::seq_lib::to_multiset_remove(out, 0);
        vstd::seq_lib::to_multiset_contains(out, s[0]);
        vstd::seq_lib::to_multiset_contains(s, s[0]);
        assert(out[0] == s[0]);
        assert(out.contains(s[0]));
        assert(s.contains(s[0]));
        assert(out.to_multiset() =~= s.to_multiset()) by {
            broadcast use vstd::multiset::group_multiset_axioms;

            assert(tail.to_multiset() == out.to_multiset().remove(s[0]));
            assert(tail.to_multiset() == s.to_multiset().remove(s[0]));
            assert(out.to_multiset().count(s[0]) > 0);
            assert(s.to_multiset().count(s[0]) > 0);
            assert forall|v: T| out.to_multiset().count(v) == s.to_multiset().count(v) by {
                assert(out.to_multiset().remove(s[0]).count(v) == s.to_multiset().remove(
                    s[0],
                ).count(v));
            }
        }
        assert forall|i: int, j: int| 0 <= i <= j < s.len() implies !c.above(
            #[trigger] out[j],
            #[trigger] out[i],
        ) by {
            if i == 0 {
                vstd::seq_lib::to_multiset_contains(out, out[j]);
                vstd::seq_lib::to_multiset_contains(s, out[j]);
                assert(out.contains(out[j]));
                let k = choose|k: int| 0 <= k < s.len() && s[k] == out[j];
                assert(!c.above(s[k], s[0]));
            } else {
                assert(out[i] == tail[i - 1]);
                assert(out[j] == tail[j - 1]);
            }
        }
    }
}

/// Priority order: when values are added in any order and the heap is then
/// drained, every value added comes out once, and none comes out after one
/// that it is above.
pub proof fn lemma_priority_order<T, C: Comparator<T>>(values: Seq<T>, c: C)
    requires
        is_strict_weak_order(c),
    ensures
        drained(filled(values, c), c).len() == values.len(),
        drained(filled(values, c), c).to_multiset() == values.to_multiset(),
        forall|i: int, j: int|
            0 <= i <= j < values.len() ==> !c.above(
                #[trigger] drained(filled(values, c), c)[j],
                #[trigger] drained(filled(values, c), c)[i],
            ),
{
    lemma_filled(values, c);
    lemma_drained(filled(values, c), c);
}

/// Taking the root `n` times from a heap of at least `n` elements leaves a
/// heap of `n` fewer, and the value that each extraction yields is the one
/// that draining yields at that place.
pub proof fn lemma_after_extractions<T, C: Comparator<T>>(s: Seq<T>, n: nat, c: C)
    requires
        is_strict_weak_order(c),
        is_heap(s, c),
        n <= s.len(),
    ensures
        is_heap(after_extractions(s, n, c), c),
        after_extractions(s, n, c).len() == s.len() - n,
        n < s.len() ==> after_extractions(s, n, c)[0] == drained(s, c)[n as int],
    decreases n,
{
    if n > 0 {
        lemma_after_extract(s, c);
        lemma_after_extractions(after_extract(s, c), (n - 1) as nat, c);
        lemma_drained(after_extract(s, c), c);
    }
}

/// Exhaustion: after as many extractions as the heap has elements the heap
/// is empty, and a further extraction finds nothing and leaves it empty.
pub proof fn lemma_exhaustion<T, C: Comparator<T>>(s: Seq<T>, c: C)
    requires
        is_strict_weak_order(c),
        is_heap(s, c),
    ensures
        after_extractions(s, s.len(), c).len() == 0,
        after_extract(after_extractions(s, s.len(), c), c) == after_extractions(s, s.len(), c),
{
    lemma_after_extractions(s, s.len(), c);
}

} // verus!
