use super::priority_queue_item::PriorityQueueItem;
use vstd::multiset::Multiset;
use vstd::prelude::*;
use vstd::seq_lib::*;

verus! {

/// The entry that `enqueue(item, priority)` adds to a queue.
pub open spec fn entry<T>(item: T, priority: i32) -> PriorityQueueItem<T> {
    PriorityQueueItem { item, priority }
}

/// `e` is held by `q` and no entry of `q` has a larger priority.
pub open spec fn is_max_entry<T>(
    q: Multiset<PriorityQueueItem<T>>,
    e: PriorityQueueItem<T>,
) -> bool {
    &&& q.count(e) > 0
    &&& forall|o: PriorityQueueItem<T>| q.count(o) > 0 ==> o.priority <= e.priority
}

/// `after` is `before` less one entry `(item, priority)` that no entry of
/// `before` outranks.
pub open spec fn takes_max<T>(
    before: Multiset<PriorityQueueItem<T>>,
    after: Multiset<PriorityQueueItem<T>>,
    item: T,
    priority: i32,
) -> bool {
    &&& is_max_entry(before, entry(item, priority))
    &&& after == before.remove(entry(item, priority))
}

/// Index of the parent of slot `i` in the array layout of a binary heap.
pub open spec fn parent(i: int) -> int {
    (i - 1) / 2
}

/// The element in slot `i` does not outrank the one in its parent slot.
pub open spec fn below_parent<T>(s: Seq<PriorityQueueItem<T>>, i: int) -> bool {
    s[i].priority <= s[parent(i)].priority
}

/// `s` is laid out as a max-heap on priorities.
pub open spec fn is_heap<T>(s: Seq<PriorityQueueItem<T>>) -> bool {
    forall|i: int| 0 < i < s.len() ==> #[trigger] below_parent(s, i)
}

/// `s` is a max-heap except that slot `hole` may be outranked by its children;
/// the children of `hole` still respect the parent of `hole`.
pub open spec fn is_heap_except<T>(s: Seq<PriorityQueueItem<T>>, hole: int) -> bool {
    &&& forall|i: int| 0 < i < s.len() && parent(i) != hole ==> #[trigger] below_parent(s, i)
    &&& forall|i: int|
        0 < i < s.len() && parent(i) == hole && hole > 0 ==> s[i].priority <= (#[trigger] s[parent(
            parent(i),
        )]).priority
}

/// In a max-heap no element outranks the root.
pub proof fn lemma_root_is_max<T>(s: Seq<PriorityQueueItem<T>>, i: int)
    requires
        is_heap(s),
        0 <= i < s.len(),
    ensures
        s[i].priority <= s[0].priority,
    decreases i,
{
    if i > 0 {
        assert(below_parent(s, i));
        lemma_root_is_max(s, parent(i));
    }
}

/// Exchanging two slots of a sequence keeps its multiset of elements.
pub proof fn lemma_swap_keeps_multiset<A>(s: Seq<A>, i: int, j: int)
    requires
        0 <= i < s.len(),
        0 <= j < s.len(),
    ensures
        s.update(i, s[j]).update(j, s[i]).to_multiset() == s.to_multiset(),
{
    broadcast use vstd::multiset::group_multiset_axioms;

    let t = s.update(i, s[j]);
    to_multiset_update(s, i, s[j]);
    to_multiset_update(t, j, s[i]);
    to_multiset_contains(s, s[i]);
    to_multiset_contains(s, s[j]);
    assert(s.contains(s[i]));
    assert(s.contains(s[j]));
    assert(t[j] == s[j]);
    assert(t.update(j, s[i]).to_multiset() =~= s.to_multiset());
}

/// Exchanges slots `i` and `j` of `v`, borrowing `scratch` as the temporary.
fn swap_slots<T>(
    v: &mut Vec<PriorityQueueItem<T>>,
    i: usize,
    j: usize,
    scratch: &mut PriorityQueueItem<T>,
)
    requires
        i < old(v).len(),
        j < old(v).len(),
        i != j,
    ensures
        final(v)@ == old(v)@.update(i as int, old(v)@[j as int]).update(j as int, old(v)@[i as int]),
        *final(scratch) == *old(scratch),
{
    core::mem::swap(&mut v[i], scratch);
    core::mem::swap(&mut v[j], scratch);
    core::mem::swap(&mut v[i], scratch);
}

/// Walks from the root down to slot `pos`, leaving in each slot on the way the
/// larger of the carried item and the slot's content, and returns what is
/// still carried below `pos`.
fn carry_down<T>(
    heap: &mut Vec<PriorityQueueItem<T>>,
    pos: usize,
    carried: PriorityQueueItem<T>,
) -> (rest: PriorityQueueItem<T>)
    requires
        is_heap(old(heap)@),
        pos < old(heap).len(),
    ensures
        is_heap(final(heap)@),
        final(heap).len() == old(heap).len(),
        final(heap)@.to_multiset().insert(rest) == old(heap)@.to_multiset().insert(carried),
        rest.priority <= final(heap)@[pos as int].priority,
    decreases pos,
{
    broadcast use vstd::multiset::group_multiset_axioms;

    let mut c = carried;
    if pos > 0 {
        c = carry_down(heap, (pos - 1) / 2, c);
    }
    let ghost before = heap@;
    let ghost held = c;
    if c.priority > heap[pos].priority {
        core::mem::swap(&mut heap[pos], &mut c);
        proof {
            let after = heap@;
            assert(after == before.update(pos as int, held));
            assert forall|i: int| 0 < i < after.len() implies #[trigger] below_parent(after, i) by {
                assert(below_parent(before, i));
            }
            to_multiset_update(before, pos as int, held);
            to_multiset_contains(before, before[pos as int]);
            assert(before.contains(before[pos as int]));
            assert(after.to_multiset().insert(c) =~= before.to_multiset().insert(held));
        }
    }
    c
}

/// Adds `item` to the heap in `heap`.
fn heap_insert<T>(heap: &mut Vec<PriorityQueueItem<T>>, item: PriorityQueueItem<T>)
    requires
        is_heap(old(heap)@),
    ensures
        is_heap(final(heap)@),
        final(heap)@.to_multiset() == old(heap)@.to_multiset().insert(item),
{
    broadcast use vstd::multiset::group_multiset_axioms;

    let n = heap.len();
    let mut c = item;
    if n > 0 {
        c = carry_down(heap, (n - 1) / 2, c);
    }
    let ghost before = heap@;
    heap.push(c);
    proof {
        let after = heap@;
        assert forall|i: int| 0 < i < after.len() implies #[trigger] below_parent(after, i) by {
            if i < n {
                assert(below_parent(before, i));
            }
        }
        to_multiset_build(before, c);
    }
}

/// Restores the heap order of `heap` when only the root may be out of place.
fn sink_root<T>(heap: &mut Vec<PriorityQueueItem<T>>, scratch: &mut PriorityQueueItem<T>)
    requires
        is_heap_except(old(heap)@, 0),
    ensures
        is_heap(final(heap)@),
        final(heap)@.to_multiset() == old(heap)@.to_multiset(),
        *final(scratch) == *old(scratch),
{
    let n = heap.len();
    let mut i: usize = 0;
    loop
        invariant_except_break
            is_heap_except(heap@, i as int),
        invariant
            heap.len() == n,
            i <= n,
            heap@.to_multiset() == old(heap)@.to_multiset(),
            *scratch == *old(scratch),
        ensures
            is_heap(heap@),
        decreases n - i,
    {
        if i >= n / 2 {
            proof {
                assert forall|k: int| 0 < k < heap@.len() implies #[trigger] below_parent(
                    heap@,
                    k,
                ) by {
                    assert(parent(k) != i);
                }
            }
            break ;
        }
        let left: usize = 2 * i + 1;
        let right: usize = left + 1;
        let big: usize = if right < n && heap[right].priority > heap[left].priority {
            right
        } else {
            left
        };
        if heap[big].priority > heap[i].priority {
            let ghost before = heap@;
            swap_slots(heap, i, big, scratch);
            proof {
                let after = heap@;
                lemma_swap_keeps_multiset(before, i as int, big as int);
                assert forall|k: int|
                    0 < k < after.len() && parent(k) != big implies #[trigger] below_parent(
                    after,
                    k,
                ) by {
                    if parent(k) == i {
                        if k != big {
                            assert(k == left || k == right);
                        }
                    } else if k == i {
                        assert(before[parent(parent(big as int))].priority
                            >= before[big as int].priority);
                    } else {
                        assert(below_parent(before, k));
                    }
                }
                assert forall|k: int|
                    0 < k < after.len() && parent(k) == big && big > 0 implies after[k].priority <= (
                #[trigger] after[parent(parent(k))]).priority by {
                    assert(below_parent(before, k));
                }
            }
            i = big;
        } else {
            proof {
                assert forall|k: int| 0 < k < heap@.len() implies #[trigger] below_parent(
                    heap@,
                    k,
                ) by {
                    if parent(k) == i {
                        assert(k == left || k == right);
                    }
                }
            }
            break ;
        }
    }
}

/// Removes and returns an element of largest priority, if there is one.
fn heap_extract<T>(heap: &mut Vec<PriorityQueueItem<T>>) -> (top: Option<PriorityQueueItem<T>>)
    requires
        is_heap(old(heap)@),
    ensures
        is_heap(final(heap)@),
        match top {
            None => old(heap)@.len() == 0 && final(heap)@ == old(heap)@,
            Some(e) => {
                &&& is_max_entry(old(heap)@.to_multiset(), e)
                &&& final(heap)@.to_multiset() == old(heap)@.to_multiset().remove(e)
            },
        },
{
    broadcast use vstd::multiset::group_multiset_axioms;

    if heap.len() == 0 {
        return None;
    }
    let ghost before = heap@;
    let mut top = heap.swap_remove(0);
    proof {
        let moved = before.update(0, before.last());
        let after = heap@;
        assert(after == moved.drop_last());
        assert forall|i: int| 0 < i < after.len() && parent(i) != 0 implies #[trigger] below_parent(
            after,
            i,
        ) by {
            assert(below_parent(before, i));
        }
        to_multiset_contains(before, top);
        assert(before[0] == top);
        assert(before.contains(top));
        assert forall|o: PriorityQueueItem<T>| before.to_multiset().count(o) > 0 implies o.priority
            <= top.priority by {
            to_multiset_contains(before, o);
            let k = choose|k: int| 0 <= k < before.len() && before[k] == o;
            lemma_root_is_max(before, k);
        }
        // moving the last element to the front and dropping the last slot
        // removes exactly the old root
        if before.len() == 1 {
            assert(after =~= Seq::empty());
            assert(before =~= Seq::empty().push(top));
            to_multiset_build(Seq::<PriorityQueueItem<T>>::empty(), top);
            assert(after.to_multiset() =~= before.to_multiset().remove(top));
        } else {
            let last = before.len() - 1;
            lemma_swap_keeps_multiset(before, 0, last);
            let swapped = before.update(0, before[last]).update(last, before[0]);
            assert(swapped.drop_last() =~= after);
            assert(swapped =~= after.push(top));
            to_multiset_build(after, top);
            assert(after.to_multiset() =~= before.to_multiset().remove(top));
        }
    }
    sink_root(heap, &mut top);
    Some(top)
}

/// A max-priority queue: `dequeue` hands out an item of largest priority.
///
/// The queue is a binary heap stored in a vector.  Its view is the multiset of
/// the entries it holds; which of several entries of equal priority leaves
/// first is not fixed.
#[derive(Debug)]
pub struct PriorityQueue<T> {
    heap: Vec<PriorityQueueItem<T>>,
}

impl<T> View for PriorityQueue<T> {
    type V = Multiset<PriorityQueueItem<T>>;

    closed spec fn view(&self) -> Multiset<PriorityQueueItem<T>> {
        self.heap@.to_multiset()
    }
}

impl<T> PriorityQueue<T> {
    #[verifier::type_invariant]
    spec fn heap_ordered(&self) -> bool {
        is_heap(self.heap@)
    }
}

impl<T> PriorityQueue<T> where T: Eq {
    /// An empty queue.
    pub fn new() -> (q: Self)
        ensures
            q@ == Multiset::<PriorityQueueItem<T>>::empty(),
    {
        let q = Self { heap: Vec::new() };
        assert(q.heap@.to_multiset() =~= Multiset::<PriorityQueueItem<T>>::empty()) by {
            broadcast use vstd::multiset::group_multiset_axioms;

            to_multiset_len(q.heap@);
        }
        q
    }

    /// An empty queue with room for `cap` entries.
    pub fn with_capacity(cap: usize) -> (q: Self)
        ensures
            q@ == Multiset::<PriorityQueueItem<T>>::empty(),
    {
        let q = Self { heap: Vec::with_capacity(cap) };
        assert(q.heap@.to_multiset() =~= Multiset::<PriorityQueueItem<T>>::empty()) by {
            broadcast use vstd::multiset::group_multiset_axioms;

            to_multiset_len(q.heap@);
        }
        q
    }

    /// Number of entries held.
    pub fn count(&self) -> (n: usize)
        ensures
            n == self@.len(),
    {
        proof {
            to_multiset_len(self.heap@);
        }
        self.heap.len()
    }

    /// Whether the queue holds no entry.
    pub fn is_empty(&self) -> (b: bool)
        ensures
            b == (self@.len() == 0),
    {
        proof {
            to_multiset_len(self.heap@);
        }
        self.heap.len() == 0
    }

    /// Adds `item` with the given priority.
    pub fn enqueue(&mut self, item: T, priority: i32)
        ensures
            final(self)@ == old(self)@.insert(entry(item, priority)),
    {
        proof {
            use_type_invariant(&*self);
        }
        let mut heap = Vec::new();
        core::mem::swap(&mut heap, &mut self.heap);
        heap_insert(&mut heap, PriorityQueueItem { item, priority });
        self.heap = heap;
    }

    /// Removes an entry of largest priority and returns its item, or returns
    /// `None` and leaves the queue as it is when it is empty.
    pub fn dequeue(&mut self) -> (r: Option<T>)
        ensures
            r is None <==> old(self)@.len() == 0,
            r is None ==> final(self)@ == old(self)@,
            r is Some ==> exists|priority: i32|
                #[trigger] takes_max(old(self)@, final(self)@, r->0, priority),
    {
        proof {
            use_type_invariant(&*self);
            to_multiset_len(self.heap@);
            if self.heap@.len() == 0 {
                assert forall|e: PriorityQueueItem<T>| self.heap@.to_multiset().count(e) == 0 by {
                    to_multiset_contains(self.heap@, e);
                }
            }
        }
        let mut heap = Vec::new();
        core::mem::swap(&mut heap, &mut self.heap);
        let top = heap_extract(&mut heap);
        self.heap = heap;
        let ghost found = top;
        let r = match top {
            Some(e) => Some(e.item),
            None => None,
        };
        assert(r is Some ==> found is Some && r->0 == found->0.item);
        assert(r is Some ==> found->0 == entry(r->0, found->0.priority));
        assert(r is Some ==> takes_max(old(self)@, self@, r->0, found->0.priority));
        r
    }
}

} // verus!
