//! A binary min-heap of node ids that supports lowering the key of a member.
//!
//! The heap does not store the keys. They live in a table of distances that
//! the caller owns and hands to every operation that compares two nodes.
use vstd::prelude::*;

verus! {

/// Marks a node that is not in the heap.
const ABSENT: usize = usize::MAX;

/// A binary min-heap over the node ids below its capacity, ordered by the
/// distances of the nodes in a table owned by the caller.
pub struct BinaryMinHeap {
    /// The members in heap order: the parent of slot `i` is slot `(i - 1) / 2`.
    heap: Vec<usize>,
    /// For every node id the slot it occupies, or `ABSENT`.
    slots: Vec<usize>,
}

/// `after` is `before` with the entry of `node` lowered or left as it is.
pub open spec fn lowered_at(before: Seq<usize>, after: Seq<usize>, node: usize) -> bool {
    &&& before.len() == after.len()
    &&& node < after.len()
    &&& after[node as int] <= before[node as int]
    &&& forall|v: int| 0 <= v < after.len() && v != node ==> after[v] == before[v]
}

impl View for BinaryMinHeap {
    type V = Set<usize>;

    /// The set of members.
    closed spec fn view(&self) -> Set<usize> {
        Set::new(|v: usize| v < self.slots@.len() && self.slots@[v as int] != ABSENT)
    }
}

impl BinaryMinHeap {
    /// Node ids below the capacity can be members.
    pub closed spec fn capacity(&self) -> nat {
        self.slots@.len()
    }

    /// The two tables describe each other.
    pub closed spec fn wf(&self) -> bool {
        &&& self.heap@.len() <= self.slots@.len() <= usize::MAX
        &&& forall|i: int|
            0 <= i < self.heap@.len() ==> (#[trigger] self.heap@[i]) < self.slots@.len()
                && self.slots@[self.heap@[i] as int] == i
        &&& forall|v: int|
            0 <= v < self.slots@.len() && (#[trigger] self.slots@[v]) != ABSENT ==> self.slots@[v]
                < self.heap@.len() && self.heap@[self.slots@[v] as int] == v
    }

    /// No member has a smaller distance than its parent.
    pub closed spec fn ordered(&self, distances: Seq<usize>) -> bool {
        forall|i: int| 0 < i < self.heap@.len() ==> self.parent_fits(distances, i)
    }

    /// The distance of the member in slot `i`.
    spec fn key(&self, distances: Seq<usize>, i: int) -> usize {
        distances[self.heap@[i] as int]
    }

    /// The member in slot `i` is no smaller than its parent.
    spec fn parent_fits(&self, distances: Seq<usize>, i: int) -> bool {
        self.key(distances, (i - 1) / 2) <= self.key(distances, i)
    }

    /// The member in slot `i` is no smaller than the parent of slot `pos`.
    spec fn above_fits(&self, distances: Seq<usize>, pos: int, i: int) -> bool {
        self.key(distances, (pos - 1) / 2) <= self.key(distances, i)
    }

    /// As `ordered`, but the member in slot `pos` may be smaller than its
    /// parent; the parent of `pos` is no larger than the children of `pos`.
    spec fn ordered_but_up(&self, distances: Seq<usize>, pos: int) -> bool {
        &&& forall|i: int|
            0 < i < self.heap@.len() && i != pos ==> self.parent_fits(distances, i)
        &&& forall|i: int|
            0 < i < self.heap@.len() && (i - 1) / 2 == pos && pos > 0
                ==> self.above_fits(distances, pos, i)
    }

    /// As `ordered`, but the member in slot `pos` may be larger than its
    /// children; the parent of `pos` is no larger than the children of `pos`.
    spec fn ordered_but_down(&self, distances: Seq<usize>, pos: int) -> bool {
        &&& forall|i: int|
            0 < i < self.heap@.len() && (i - 1) / 2 != pos ==> self.parent_fits(distances, i)
        &&& forall|i: int|
            0 < i < self.heap@.len() && (i - 1) / 2 == pos && pos > 0
                ==> self.above_fits(distances, pos, i)
    }

    /// The order of the heap depends on the distances of its members only.
    pub proof fn lemma_ordered_elsewhere(&self, before: Seq<usize>, after: Seq<usize>)
        requires
            self.wf(),
            self.ordered(before),
            forall|v: usize| #[trigger] self@.contains(v) ==> after[v as int] == before[v as int],
        ensures
            self.ordered(after),
    {
        assert forall|i: int| 0 < i < self.heap@.len() implies self.parent_fits(after, i) by {
            assert(self@.contains(self.heap@[i]));
            assert(self@.contains(self.heap@[(i - 1) / 2]));
            assert(self.parent_fits(before, i));
        }
    }

    /// In an ordered heap no member has a smaller distance than the first.
    proof fn lemma_first_is_least(&self, distances: Seq<usize>, i: int)
        requires
            self.ordered(distances),
            0 <= i < self.heap@.len(),
        ensures
            self.key(distances, 0) <= self.key(distances, i),
        decreases i,
    {
        if i > 0 {
            self.lemma_first_is_least(distances, (i - 1) / 2);
            assert(self.parent_fits(distances, i));
        }
    }

    /// Create an empty heap for the node ids below `capacity`.
    pub fn with_capacity(capacity: usize) -> (heap: BinaryMinHeap)
        ensures
            heap.wf(),
            heap.capacity() == capacity,
            heap@ == Set::<usize>::empty(),
            forall|distances: Seq<usize>| #[trigger] heap.ordered(distances),
    {
        let mut slots: Vec<usize> = Vec::new();
        let mut i: usize = 0;
        while i < capacity
            invariant
                i <= capacity,
                slots@.len() == i,
                forall|v: int| 0 <= v < i ==> slots@[v] == ABSENT,
            decreases capacity - i,
        {
            slots.push(ABSENT);
            i += 1;
        }
        let heap = BinaryMinHeap { heap: Vec::new(), slots };
        assert(heap@ =~= Set::<usize>::empty());
        heap
    }

    /// Is the heap without members?
    pub fn is_empty(&self) -> (empty: bool)
        requires
            self.wf(),
        ensures
            empty == (self@ == Set::<usize>::empty()),
    {
        let empty = self.heap.len() == 0;
        proof {
            if empty {
                assert(self@ =~= Set::<usize>::empty());
            } else {
                assert(self@.contains(self.heap@[0]));
            }
        }
        empty
    }

    /// Is `node` a member?
    pub fn contains(&self, node: usize) -> (member: bool)
        ensures
            member == self@.contains(node),
    {
        node < self.slots.len() && self.slots[node] != ABSENT
    }

    /// Exchange the members in the slots `i` and `j`.
    fn swap(&mut self, i: usize, j: usize)
        requires
            old(self).wf(),
            i < old(self).heap@.len(),
            j < old(self).heap@.len(),
        ensures
            final(self).wf(),
            final(self)@ == old(self)@,
            final(self).slots@.len() == old(self).slots@.len(),
            final(self).heap@ == old(self).heap@.update(i as int, old(self).heap@[j as int]).update(
                j as int,
                old(self).heap@[i as int],
            ),
    {
        let a: usize = self.heap[i];
        let b: usize = self.heap[j];
        self.heap.set(i, b);
        self.heap.set(j, a);
        self.slots.set(b, i);
        self.slots.set(a, j);
        assert(self@ =~= old(self)@);
    }

    /// Move the member in slot `pos` up until its parent is no larger.
    fn sift_up(&mut self, pos: usize, distances: &Vec<usize>)
        requires
            old(self).wf(),
            pos < old(self).heap@.len(),
            old(self).capacity() <= distances@.len(),
            old(self).ordered_but_up(distances@, pos as int),
        ensures
            final(self).wf(),
            final(self)@ == old(self)@,
            final(self).capacity() == old(self).capacity(),
            final(self).ordered(distances@),
    {
        let mut pos: usize = pos;
        while pos > 0 && distances[self.heap[pos]] < distances[self.heap[(pos - 1) / 2]]
            invariant
                self.wf(),
                pos < self.heap@.len(),
                self.capacity() <= distances@.len(),
                self.capacity() == old(self).capacity(),
                self@ == old(self)@,
                self.ordered_but_up(distances@, pos as int),
            decreases pos,
        {
            let parent: usize = (pos - 1) / 2;
            let ghost before = *self;
            self.swap(pos, parent);
            proof {
                assert forall|i: int| 0 < i < self.heap@.len() && i != parent
                    implies self.parent_fits(distances@, i) by {
                    if i == pos {
                    } else if (i - 1) / 2 == parent {
                        assert(before.parent_fits(distances@, i));
                    } else if (i - 1) / 2 == pos {
                        assert(before.above_fits(distances@, pos as int, i));
                    } else {
                        assert(before.parent_fits(distances@, i));
                    }
                }
                assert forall|i: int|
                    0 < i < self.heap@.len() && (i - 1) / 2 == parent && parent
                        > 0 implies self.above_fits(distances@, parent as int, i) by {
                    assert(before.parent_fits(distances@, parent as int));
                    if i != pos {
                        assert(before.parent_fits(distances@, i));
                    }
                }
            }
            pos = parent;
        }
    }

    /// Move the member in slot `pos` down until no child is smaller.
    fn sift_down(&mut self, pos: usize, distances: &Vec<usize>)
        requires
            old(self).wf(),
            pos < old(self).heap@.len(),
            old(self).capacity() <= distances@.len(),
            old(self).ordered_but_down(distances@, pos as int),
        ensures
            final(self).wf(),
            final(self)@ == old(self)@,
            final(self).capacity() == old(self).capacity(),
            final(self).ordered(distances@),
    {
        let mut pos: usize = pos;
        let len: usize = self.heap.len();
        loop
            invariant_except_break
                self.wf(),
                len == self.heap@.len(),
                pos < len,
                self.capacity() <= distances@.len(),
                self.capacity() == old(self).capacity(),
                self@ == old(self)@,
                self.ordered_but_down(distances@, pos as int),
            ensures
                self.wf(),
                self@ == old(self)@,
                self.capacity() == old(self).capacity(),
                self.ordered(distances@),
            decreases len - pos,
        {
            if pos >= len / 2 {
                break ;
            }
            let left: usize = 2 * pos + 1;
            let right: usize = left + 1;
            let child: usize = if right < len && distances[self.heap[right]]
                < distances[self.heap[left]] {
                right
            } else {
                left
            };
            if distances[self.heap[child]] >= distances[self.heap[pos]] {
                proof {
                    assert forall|i: int| 0 < i < self.heap@.len()
                        implies self.parent_fits(distances@, i) by {
                        if (i - 1) / 2 == pos {
                            assert(i == left || i == right);
                        }
                    }
                }
                break ;
            }
            let ghost before = *self;
            self.swap(pos, child);
            proof {
                assert forall|i: int|
                    0 < i < self.heap@.len() && (i - 1) / 2 != child
                        implies self.parent_fits(distances@, i) by {
                    if i == child {
                    } else if (i - 1) / 2 == pos {
                        assert(i == left || i == right);
                    } else if i == pos {
                        assert(before.above_fits(distances@, pos as int, child as int));
                    } else {
                        assert(before.parent_fits(distances@, i));
                    }
                }
                assert forall|i: int|
                    0 < i < self.heap@.len() && (i - 1) / 2 == child && child
                        > 0 implies self.above_fits(distances@, child as int, i) by {
                    assert(before.parent_fits(distances@, i));
                }
            }
            pos = child;
        }
    }

    /// Insert `node`, which is not a member, with its distance.
    pub fn push(&mut self, node: usize, distances: &Vec<usize>)
        requires
            old(self).wf(),
            node < old(self).capacity(),
            !old(self)@.contains(node),
            old(self).capacity() <= distances@.len(),
            old(self).ordered(distances@),
        ensures
            final(self).wf(),
            final(self).capacity() == old(self).capacity(),
            final(self)@ == old(self)@.insert(node),
            final(self).ordered(distances@),
    {
        let pos: usize = self.heap.len();
        proof {
            self.lemma_fewer_members_than_capacity(node);
        }
        self.heap.push(node);
        self.slots.set(node, pos);
        assert(self@ =~= old(self)@.insert(node));
        assert(self.ordered_but_up(distances@, pos as int)) by {
            assert forall|i: int| 0 < i < self.heap@.len() && i != pos
                implies self.parent_fits(distances@, i) by {
                assert(old(self).parent_fits(distances@, i));
            }
        }
        self.sift_up(pos, distances);
    }

    /// While a node below the capacity is no member, the heap has fewer
    /// members than its capacity.
    proof fn lemma_fewer_members_than_capacity(&self, node: usize)
        requires
            self.wf(),
            node < self.capacity(),
            !self@.contains(node),
        ensures
            self.heap@.len() < self.slots@.len(),
    {
        let members = self.heap@.to_set();
        let below = Set::new(|v: usize| v < self.slots@.len());
        lemma_below_is_finite(self.slots@.len());
        assert(self.heap@.no_duplicates());
        self.heap@.unique_seq_to_set();
        assert(members.subset_of(below.remove(node))) by {
            assert forall|v: usize| members.contains(v) implies below.remove(node).contains(v) by {
                let i = choose|i: int| 0 <= i < self.heap@.len() && self.heap@[i] == v;
                assert(self.slots@[self.heap@[i] as int] == i);
            }
        }
        vstd::set_lib::lemma_len_subset(members, below.remove(node));
    }

    /// Remove and return a member with the least distance.
    pub fn pop(&mut self, distances: &Vec<usize>) -> (node: usize)
        requires
            old(self).wf(),
            old(self)@ != Set::<usize>::empty(),
            old(self).capacity() <= distances@.len(),
            old(self).ordered(distances@),
        ensures
            final(self).wf(),
            final(self).capacity() == old(self).capacity(),
            old(self)@.contains(node),
            node < old(self).capacity(),
            forall|v: usize| #[trigger]
                old(self)@.contains(v) ==> distances@[node as int] <= distances@[v as int],
            final(self)@ == old(self)@.remove(node),
            final(self).ordered(distances@),
    {
        proof {
            if self.heap@.len() == 0 {
                assert(self@ =~= Set::<usize>::empty());
            }
            assert forall|v: usize| self@.contains(v) implies distances@[self.heap@[0] as int]
                <= distances@[v as int] by {
                self.lemma_first_is_least(distances@, self.slots@[v as int] as int);
            }
        }
        let top: usize = self.heap[0];
        let last: usize = self.heap[self.heap.len() - 1];
        self.heap.pop();
        self.slots.set(top, ABSENT);
        if self.heap.len() > 0 {
            self.heap.set(0, last);
            self.slots.set(last, 0);
            assert(self@ =~= old(self)@.remove(top));
            assert(self.ordered_but_down(distances@, 0)) by {
                assert forall|i: int|
                    0 < i < self.heap@.len() && (i - 1) / 2 != 0
                        implies self.parent_fits(distances@, i) by {
                    assert(old(self).parent_fits(distances@, i));
                }
            }
            self.sift_down(0, distances);
        } else {
            assert(self@ =~= old(self)@.remove(top));
        }
        top
    }

    /// Restore the order after the distance of the member `node` was lowered.
    /// The heap must have been ordered before the distance was lowered, and
    /// no other distance may have changed since.
    pub fn decrease_key(&mut self, node: usize, distances: &Vec<usize>)
        requires
            old(self).wf(),
            old(self)@.contains(node),
            old(self).capacity() <= distances@.len(),
            exists|before: Seq<usize>| #[trigger]
                old(self).ordered(before) && lowered_at(before, distances@, node),
        ensures
            final(self).wf(),
            final(self).capacity() == old(self).capacity(),
            final(self)@ == old(self)@,
            final(self).ordered(distances@),
    {
        let pos: usize = self.slots[node];
        proof {
            let before = choose|before: Seq<usize>| #[trigger]
                self.ordered(before) && lowered_at(before, distances@, node);
            assert forall|i: int| 0 < i < self.heap@.len() && i != pos
                implies self.parent_fits(distances@, i) by {
                assert(self.parent_fits(before, i));
                assert(self.heap@[i] != node);
            }
            assert forall|i: int|
                0 < i < self.heap@.len() && (i - 1) / 2 == pos && pos > 0
                    implies self.above_fits(distances@, pos as int, i) by {
                assert(self.parent_fits(before, i));
                assert(self.parent_fits(before, pos as int));
                assert(self.heap@[i] != node);
                assert(self.heap@[(pos - 1) / 2] != node);
            }
        }
        self.sift_up(pos, distances);
    }
}

/// There are `n` values of `usize` below `n`.
pub proof fn lemma_below_is_finite(n: nat)
    requires
        n <= usize::MAX + 1,
    ensures
        Set::new(|v: usize| v < n).finite(),
        Set::new(|v: usize| v < n).len() == n,
    decreases n,
{
    let s = Set::new(|v: usize| v < n);
    if n == 0 {
        assert(s =~= Set::<usize>::empty());
    } else {
        let m = (n - 1) as nat;
        lemma_below_is_finite(m);
        let t = Set::new(|v: usize| v < m);
        assert(s =~= t.insert(m as usize));
    }
}

} // verus!
