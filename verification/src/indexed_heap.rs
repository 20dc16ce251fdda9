//! A binary max-heap of ids whose priorities live outside the heap, with a
//! table from id to heap position, so that the priority of an id can change
//! while the id is in the heap.

use vstd::prelude::*;

verus! {

/// The mark of an id that is not in the heap.
pub const UNSET: usize = usize::MAX;

/// The largest capacity of a heap: child positions must fit the index type.
pub const MAX_HEAP_CAPACITY: usize = usize::MAX / 2;

/// The order of priority: the higher score first, and of two ids with the
/// same score the smaller id first.
pub open spec fn outranks(scores: Seq<u64>, a: usize, b: usize) -> bool {
    scores[a as int] > scores[b as int] || (scores[a as int] == scores[b as int] && a < b)
}

/// The position above `i` in the heap.
pub open spec fn parent(i: int) -> int {
    (i - 1) / 2
}

/// The heap array and the position table describe each other.
pub open spec fn tables_agree(heap: Seq<usize>, position: Seq<usize>) -> bool {
    &&& position.len() <= MAX_HEAP_CAPACITY
    &&& heap.len() <= position.len()
    &&& forall|i: int|
        0 <= i < heap.len() ==> (#[trigger] heap[i]) < position.len() && position[heap[i] as int]
            == i
    &&& forall|id: int|
        0 <= id < position.len() && (#[trigger] position[id]) != UNSET ==> position[id]
            < heap.len() && heap[position[id] as int] == id
}

/// The entry at `child` does not outrank the entry at `above`.
pub open spec fn in_order(scores: Seq<u64>, heap: Seq<usize>, child: int, above: int) -> bool {
    !outranks(scores, heap[child], heap[above])
}

/// No entry outranks its parent.
pub open spec fn heap_ordered(scores: Seq<u64>, heap: Seq<usize>) -> bool {
    forall|i: int| 1 <= i < heap.len() ==> #[trigger] in_order(scores, heap, i, parent(i))
}

/// The heap order holds wherever the entry at `hole` is not involved, and
/// the entries below `hole` do not outrank the entry above it. This is what
/// is left of the heap order when the score of one entry has changed.
pub open spec fn ordered_except(scores: Seq<u64>, heap: Seq<usize>, hole: int) -> bool {
    &&& forall|i: int|
        1 <= i < heap.len() && i != hole && parent(i) != hole ==> #[trigger] in_order(
            scores,
            heap,
            i,
            parent(i),
        )
    &&& forall|i: int|
        1 <= i < heap.len() && parent(i) == hole && hole >= 1 ==> #[trigger] in_order(
            scores,
            heap,
            i,
            parent(hole),
        )
}

/// The entries below `hole` do not outrank the entry at `hole`.
pub open spec fn below_in_order(scores: Seq<u64>, heap: Seq<usize>, hole: int) -> bool {
    forall|i: int|
        1 <= i < heap.len() && parent(i) == hole ==> #[trigger] in_order(scores, heap, i, hole)
}

/// In a heap no entry outranks the root.
pub proof fn lemma_root_is_max(scores: Seq<u64>, heap: Seq<usize>, i: int)
    requires
        heap_ordered(scores, heap),
        0 <= i < heap.len(),
    ensures
        !outranks(scores, heap[i], heap[0]),
    decreases i,
{
    if i > 0 {
        assert(in_order(scores, heap, i, parent(i)));
        lemma_root_is_max(scores, heap, parent(i));
    }
}

/// Whether `a` comes before `b` in the order of priority.
pub fn has_priority(scores: &[u64], a: usize, b: usize) -> (first: bool)
    requires
        a < scores@.len(),
        b < scores@.len(),
    ensures
        first == outranks(scores@, a, b),
{
    scores[a] > scores[b] || (scores[a] == scores[b] && a < b)
}

/// A binary heap of ids below a fixed capacity. The scores that order the
/// ids are handed to each operation; between operations the caller may
/// change the score of an id and then call `update` for it.
pub struct IndexedHeap {
    /// The heap as an array: the entry at `i` has its parent at `(i - 1) / 2`.
    heap: Vec<usize>,
    /// For each id its position in `heap`, or `UNSET`.
    id_to_heap_idx: Vec<usize>,
}

impl IndexedHeap {
    /// The ids in the heap, in the order of the heap array.
    pub closed spec fn items(&self) -> Seq<usize> {
        self.heap@
    }

    /// The number of ids that the heap can hold: ids lie below it.
    pub closed spec fn capacity(&self) -> nat {
        self.id_to_heap_idx@.len()
    }

    /// Whether `id` is in the heap.
    pub closed spec fn has(&self, id: usize) -> bool {
        id < self.id_to_heap_idx@.len() && self.id_to_heap_idx@[id as int] != UNSET
    }

    /// The heap array and the position table describe each other.
    pub closed spec fn wf(&self) -> bool {
        tables_agree(self.heap@, self.id_to_heap_idx@)
    }

    /// No id in the heap outranks its parent under `scores`.
    pub closed spec fn is_heap(&self, scores: Seq<u64>) -> bool {
        heap_ordered(scores, self.heap@)
    }

    /// The heap order holds under `scores` but for the place of `id`, whose
    /// score may have changed since the heap was in order.
    pub closed spec fn is_heap_except(&self, scores: Seq<u64>, id: usize) -> bool {
        ordered_except(scores, self.heap@, self.id_to_heap_idx@[id as int] as int)
    }

    /// Every id in the heap lies below the capacity.
    pub proof fn lemma_has_in_range(&self, id: usize)
        requires
            self.has(id),
        ensures
            id < self.capacity(),
    {
    }

    /// The ids in the heap are those that `has` names, each once.
    pub proof fn lemma_items(&self)
        requires
            self.wf(),
        ensures
            forall|id: usize| self.has(id) <==> #[trigger] self.items().contains(id),
            forall|i: int, j: int|
                0 <= i < j < self.items().len() ==> self.items()[i] != self.items()[j],
            forall|i: int| 0 <= i < self.items().len() ==> (#[trigger] self.items()[i]) < self.capacity(),
    {
        assert forall|id: usize| self.has(id) <==> #[trigger] self.items().contains(id) by {
            if self.has(id) {
                assert(self.heap@[self.id_to_heap_idx@[id as int] as int] == id);
            }
            if self.items().contains(id) {
                let i = choose|i: int| 0 <= i < self.heap@.len() && self.heap@[i] == id;
                assert(self.id_to_heap_idx@[self.heap@[i] as int] == i);
            }
        }
    }

    /// Where no id in the heap has changed its score, the heap is in order
    /// under the new scores as it was under the old. Where the score of one
    /// id has changed, the heap is in order but for the place of that id.
    pub proof fn lemma_scores_changed(&self, before: Seq<u64>, after: Seq<u64>, id: usize)
        requires
            self.wf(),
            self.is_heap(before),
            before.len() == after.len(),
            self.capacity() <= before.len(),
            forall|other: int|
                0 <= other < before.len() && other != id ==> #[trigger] after[other]
                    == before[other],
        ensures
            !self.has(id) ==> self.is_heap(after),
            self.has(id) ==> self.is_heap_except(after, id),
    {
        let heap = self.heap@;
        if self.has(id) {
            let hole = self.id_to_heap_idx@[id as int] as int;
            assert forall|i: int|
                1 <= i < heap.len() && i != hole && parent(i) != hole implies #[trigger] in_order(
                after,
                heap,
                i,
                parent(i),
            ) by {
                assert(in_order(before, heap, i, parent(i)));
                assert(heap[i] != id && heap[parent(i)] != id);
            }
            assert forall|i: int|
                1 <= i < heap.len() && parent(i) == hole && hole >= 1 implies #[trigger] in_order(
                after,
                heap,
                i,
                parent(hole),
            ) by {
                assert(in_order(before, heap, i, parent(i)));
                assert(in_order(before, heap, hole, parent(hole)));
                assert(heap[i] != id && heap[parent(hole)] != id);
            }
        } else {
            assert forall|i: int| 1 <= i < heap.len() implies #[trigger] in_order(
                after,
                heap,
                i,
                parent(i),
            ) by {
                assert(in_order(before, heap, i, parent(i)));
                assert(heap[i] != id && heap[parent(i)] != id);
            }
        }
    }

    /// An empty heap for ids below `capacity`.
    pub fn with_capacity(capacity: usize) -> (heap: IndexedHeap)
        requires
            capacity <= MAX_HEAP_CAPACITY,
        ensures
            heap.wf(),
            heap.capacity() == capacity,
            heap.items() == Seq::<usize>::empty(),
            forall|id: usize| !heap.has(id),
            forall|scores: Seq<u64>| #[trigger] heap.is_heap(scores),
    {
        let mut id_to_heap_idx: Vec<usize> = Vec::new();
        let mut n: usize = 0;
        while n < capacity
            invariant
                n <= capacity,
                id_to_heap_idx@.len() == n,
                forall|id: int| 0 <= id < n ==> id_to_heap_idx@[id] == UNSET,
            decreases capacity - n,
        {
            id_to_heap_idx.push(UNSET);
            n = n + 1;
        }
        IndexedHeap { heap: Vec::with_capacity(capacity), id_to_heap_idx }
    }

    /// The number of ids in the heap.
    pub fn len(&self) -> (n: usize)
        ensures
            n == self.items().len(),
    {
        self.heap.len()
    }

    /// Whether the heap holds the id, which must lie below the capacity.
    pub fn contains(&self, id: usize) -> (found: bool)
        requires
            id < self.capacity(),
        ensures
            found == self.has(id),
    {
        self.id_to_heap_idx[id] != UNSET
    }

    /// Puts an id into the heap that is not in it.
    pub fn insert(&mut self, id: usize, scores: &[u64])
        requires
            old(self).wf(),
            id < old(self).capacity(),
            !old(self).has(id),
            old(self).capacity() <= scores@.len(),
            old(self).is_heap(scores@),
        ensures
            final(self).wf(),
            final(self).is_heap(scores@),
            final(self).capacity() == old(self).capacity(),
            final(self).items().len() == old(self).items().len() + 1,
            forall|other: usize|
                #[trigger] final(self).has(other) <==> old(self).has(other) || other == id,
    {
        let idx = self.heap.len();
        proof {
            self.lemma_items();
            let with_id = self.heap@.push(id);
            assert forall|i: int, j: int| 0 <= i < j < with_id.len() implies (
            #[trigger] with_id[i]) != (#[trigger] with_id[j]) by {
                if j == idx {
                    assert(self.heap@.contains(with_id[i]));
                }
            }
            crate::partial_assignment::lemma_distinct_bounded(
                with_id,
                self.id_to_heap_idx@.len() as usize,
            );
        }
        self.heap.push(id);
        self.id_to_heap_idx.set(id, idx);
        proof {
            let heap = self.heap@;
            assert forall|i: int|
                1 <= i < heap.len() && i != idx && parent(i) != idx implies #[trigger] in_order(
                scores@,
                heap,
                i,
                parent(i),
            ) by {
                assert(in_order(scores@, old(self).heap@, i, parent(i)));
            }
        }
        self.sift_up(idx, scores);
    }

    /// Restores the heap order after the score of `id` has changed.
    pub fn update(&mut self, id: usize, scores: &[u64])
        requires
            old(self).wf(),
            old(self).has(id),
            old(self).capacity() <= scores@.len(),
            old(self).is_heap_except(scores@, id),
        ensures
            final(self).wf(),
            final(self).is_heap(scores@),
            final(self).capacity() == old(self).capacity(),
            final(self).items().len() == old(self).items().len(),
            forall|other: usize| #[trigger] final(self).has(other) <==> old(self).has(other),
    {
        let idx = self.id_to_heap_idx[id];
        if idx > 0 {
            let above = self.heap[Self::parent_of(idx)];
            if has_priority(scores, id, above) {
                proof {
                    let heap = self.heap@;
                    assert forall|i: int|
                        1 <= i < heap.len() && parent(i) == idx implies #[trigger] in_order(
                        scores@,
                        heap,
                        i,
                        idx as int,
                    ) by {
                        assert(in_order(scores@, heap, i, parent(idx as int)));
                    }
                }
                self.sift_up(idx, scores);
                return ;
            }
        }
        self.sift_down(idx, scores);
    }

    /// Takes the id of the highest priority out of the heap.
    pub fn pop(&mut self, scores: &[u64]) -> (top: Option<usize>)
        requires
            old(self).wf(),
            old(self).capacity() <= scores@.len(),
            old(self).is_heap(scores@),
        ensures
            final(self).wf(),
            final(self).is_heap(scores@),
            final(self).capacity() == old(self).capacity(),
            top is None <==> old(self).items().len() == 0,
            top is None ==> final(self).items() == old(self).items() && forall|other: usize|
                !final(self).has(other) && !old(self).has(other),
            top matches Some(id) ==> {
                &&& old(self).has(id)
                &&& id == old(self).items()[0]
                &&& final(self).items().len() == old(self).items().len() - 1
                &&& forall|other: usize|
                    old(self).has(other) ==> !outranks(scores@, other, id)
                &&& forall|other: usize|
                    #[trigger] final(self).has(other) <==> old(self).has(other) && other != id
            },
    {
        if self.heap.len() == 0 {
            proof {
                self.lemma_items();
            }
            return None;
        }
        let ghost before = self.heap@;
        proof {
            self.lemma_items();
            assert forall|other: usize| old(self).has(other) implies !outranks(
                scores@,
                other,
                before[0],
            ) by {
                let i = self.id_to_heap_idx@[other as int] as int;
                lemma_root_is_max(scores@, before, i);
            }
        }
        let first = self.heap[0];
        let last = self.heap.pop().unwrap();
        self.id_to_heap_idx.set(first, UNSET);
        if self.heap.len() > 0 {
            self.set_heap_at(0, last);
            proof {
                let heap = self.heap@;
                assert forall|i: int|
                    1 <= i < heap.len() && i != 0 && parent(i) != 0 implies #[trigger] in_order(
                    scores@,
                    heap,
                    i,
                    parent(i),
                ) by {
                    assert(in_order(scores@, before, i, parent(i)));
                }
            }
            self.sift_down(0, scores);
        }
        Some(first)
    }

    /// Moves the entry at `idx` up until its parent outranks it.
    fn sift_up(&mut self, idx: usize, scores: &[u64])
        requires
            old(self).wf(),
            idx < old(self).heap@.len(),
            old(self).id_to_heap_idx@.len() <= scores@.len(),
            ordered_except(scores@, old(self).heap@, idx as int),
            below_in_order(scores@, old(self).heap@, idx as int),
        ensures
            final(self).wf(),
            final(self).is_heap(scores@),
            final(self).capacity() == old(self).capacity(),
            final(self).heap@.len() == old(self).heap@.len(),
            forall|other: usize| #[trigger] final(self).has(other) <==> old(self).has(other),
    {
        let mut child_idx = idx;
        loop
            invariant
                self.wf(),
                child_idx < self.heap@.len(),
                self.heap@.len() == old(self).heap@.len(),
                self.id_to_heap_idx@.len() == old(self).id_to_heap_idx@.len(),
                self.id_to_heap_idx@.len() <= scores@.len(),
                ordered_except(scores@, self.heap@, child_idx as int),
                below_in_order(scores@, self.heap@, child_idx as int),
                forall|other: usize| #[trigger] self.has(other) <==> old(self).has(other),
            decreases child_idx,
        {
            if child_idx == 0 {
                proof {
                    self.lemma_hole_closed(scores@, 0);
                }
                return ;
            }
            let parent_idx = Self::parent_of(child_idx);
            let child = self.heap[child_idx];
            let above = self.heap[parent_idx];
            if !has_priority(scores, child, above) {
                proof {
                    self.lemma_hole_closed(scores@, child_idx as int);
                }
                return ;
            }
            let ghost before = self.heap@;
            let ghost mid = *self;
            self.set_heap_at(child_idx, above);
            self.set_heap_at(parent_idx, child);
            proof {
                assert forall|other: usize| #[trigger] self.has(other) <==> old(self).has(other) by {
                    assert(self.has(other) <==> mid.has(other));
                }
                let heap = self.heap@;
                let hole = parent_idx as int;
                let low = child_idx as int;
                assert forall|i: int|
                    1 <= i < heap.len() && i != hole && parent(i) != hole implies #[trigger] in_order(
                    scores@,
                    heap,
                    i,
                    parent(i),
                ) by {
                    if parent(i) == low {
                        assert(in_order(scores@, before, i, parent(low)));
                    } else {
                        assert(in_order(scores@, before, i, parent(i)));
                    }
                }
                assert forall|i: int|
                    1 <= i < heap.len() && parent(i) == hole && hole >= 1 implies #[trigger] in_order(
                    scores@,
                    heap,
                    i,
                    parent(hole),
                ) by {
                    assert(in_order(scores@, before, hole, parent(hole)));
                    if i != low {
                        assert(in_order(scores@, before, i, parent(i)));
                    }
                }
                assert forall|i: int|
                    1 <= i < heap.len() && parent(i) == hole implies #[trigger] in_order(
                    scores@,
                    heap,
                    i,
                    hole,
                ) by {
                    if i != low {
                        assert(in_order(scores@, before, i, parent(i)));
                    }
                }
            }
            child_idx = parent_idx;
        }
    }

    /// Moves the entry at `idx` down until it outranks the entries below it.
    fn sift_down(&mut self, idx: usize, scores: &[u64])
        requires
            old(self).wf(),
            idx < old(self).heap@.len(),
            old(self).id_to_heap_idx@.len() <= scores@.len(),
            ordered_except(scores@, old(self).heap@, idx as int),
            idx >= 1 ==> in_order(scores@, old(self).heap@, idx as int, parent(idx as int)),
        ensures
            final(self).wf(),
            final(self).is_heap(scores@),
            final(self).capacity() == old(self).capacity(),
            final(self).heap@.len() == old(self).heap@.len(),
            forall|other: usize| #[trigger] final(self).has(other) <==> old(self).has(other),
    {
        let mut idx = idx;
        loop
            invariant
                self.wf(),
                idx < self.heap@.len(),
                self.heap@.len() == old(self).heap@.len(),
                self.id_to_heap_idx@.len() == old(self).id_to_heap_idx@.len(),
                self.id_to_heap_idx@.len() <= scores@.len(),
                ordered_except(scores@, self.heap@, idx as int),
                idx >= 1 ==> in_order(scores@, self.heap@, idx as int, parent(idx as int)),
                forall|other: usize| #[trigger] self.has(other) <==> old(self).has(other),
            decreases self.heap@.len() - idx,
        {
            proof {
                self.lemma_len_bounded();
            }
            let left = Self::left_child_of(idx);
            if left >= self.heap.len() {
                proof {
                    assert forall|i: int|
                        1 <= i < self.heap@.len() && parent(i) == idx implies #[trigger] in_order(
                        scores@,
                        self.heap@,
                        i,
                        idx as int,
                    ) by {
                        assert(i >= 2 * idx + 1);
                    }
                    self.lemma_hole_closed(scores@, idx as int);
                }
                return ;
            }
            let right = left + 1;
            let mut best_child_idx = left;
            if right < self.heap.len() && has_priority(scores, self.heap[right], self.heap[left]) {
                best_child_idx = right;
            }
            let best_child = self.heap[best_child_idx];
            let var = self.heap[idx];
            if !has_priority(scores, best_child, var) {
                proof {
                    assert forall|i: int|
                        1 <= i < self.heap@.len() && parent(i) == idx implies #[trigger] in_order(
                        scores@,
                        self.heap@,
                        i,
                        idx as int,
                    ) by {
                        assert(i == left || i == right);
                    }
                    self.lemma_hole_closed(scores@, idx as int);
                }
                return ;
            }
            let ghost before = self.heap@;
            let ghost mid = *self;
            self.set_heap_at(idx, best_child);
            self.set_heap_at(best_child_idx, var);
            proof {
                assert forall|other: usize| #[trigger] self.has(other) <==> old(self).has(other) by {
                    assert(self.has(other) <==> mid.has(other));
                }
                let heap = self.heap@;
                let hole = best_child_idx as int;
                let high = idx as int;
                assert(parent(hole) == high);
                assert forall|i: int|
                    1 <= i < heap.len() && i != hole && parent(i) != hole implies #[trigger] in_order(
                    scores@,
                    heap,
                    i,
                    parent(i),
                ) by {
                    if i == high {
                        assert(in_order(scores@, before, hole, parent(high)));
                    } else if parent(i) == high {
                        assert(i == left || i == right);
                    } else {
                        assert(in_order(scores@, before, i, parent(i)));
                    }
                }
                assert forall|i: int|
                    1 <= i < heap.len() && parent(i) == hole && hole >= 1 implies #[trigger] in_order(
                    scores@,
                    heap,
                    i,
                    parent(hole),
                ) by {
                    assert(in_order(scores@, before, i, parent(i)));
                }
            }
            idx = best_child_idx;
        }
    }

    /// Once the entry at `hole` is in order with its parent and with the
    /// entries below it, the whole heap is in order.
    proof fn lemma_hole_closed(&self, scores: Seq<u64>, hole: int)
        requires
            ordered_except(scores, self.heap@, hole),
            below_in_order(scores, self.heap@, hole),
            0 <= hole < self.heap@.len(),
            hole >= 1 ==> in_order(scores, self.heap@, hole, parent(hole)),
        ensures
            self.is_heap(scores),
    {
        assert forall|i: int| 1 <= i < self.heap@.len() implies #[trigger] in_order(
            scores,
            self.heap@,
            i,
            parent(i),
        ) by {
            if i == hole {
            } else if parent(i) == hole {
                assert(in_order(scores, self.heap@, i, hole));
            } else {
            }
        }
    }

    /// The heap never holds more ids than its capacity.
    proof fn lemma_len_bounded(&self)
        requires
            self.wf(),
        ensures
            self.heap@.len() <= self.id_to_heap_idx@.len(),
            self.heap@.len() <= MAX_HEAP_CAPACITY,
    {
    }

    /// Writes `id` at position `idx` of the heap array and notes the
    /// position in the table.
    fn set_heap_at(&mut self, idx: usize, id: usize)
        requires
            idx < old(self).heap@.len(),
            id < old(self).id_to_heap_idx@.len(),
        ensures
            final(self).heap@ == old(self).heap@.update(idx as int, id),
            final(self).id_to_heap_idx@ == old(self).id_to_heap_idx@.update(id as int, idx),
    {
        self.heap.set(idx, id);
        self.id_to_heap_idx.set(id, idx);
    }

    /// The place above `idx` in the tree.
    fn parent_of(idx: usize) -> (above: usize)
        requires
            idx > 0,
        ensures
            above == parent(idx as int),
            above < idx,
    {
        (idx - 1) / 2
    }

    /// The place of the left child of `idx`.
    fn left_child_of(idx: usize) -> (below: usize)
        requires
            idx < MAX_HEAP_CAPACITY,
        ensures
            below == 2 * idx + 1,
    {
        2 * idx + 1
    }
}

} // verus!
