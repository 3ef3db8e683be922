use super::forest::filled;
use super::forest::in_tree;
use super::forest::is_chain;
use super::grid_node::GridNode;
use super::neighbors::cells_of;
use super::path_result::PathResult;
use super::route::manhattan;
use super::route::path_cost;
use super::route::step_cost;
use super::universe::Universe;
use crate::priority_queue::priority_queue::entry;
use crate::priority_queue::priority_queue::is_max_entry;
use crate::priority_queue::priority_queue::takes_max;
use crate::priority_queue::priority_queue::PriorityQueue;
use crate::priority_queue::priority_queue_item::PriorityQueueItem;
use vstd::multiset::Multiset;
use vstd::prelude::*;

verus! {

/// The state of one cost-driven search over the grid, as the proofs see it.
pub struct Wave {
    /// The entries waiting in the priority queue.
    pub queue: Multiset<PriorityQueueItem<usize>>,
    /// For each cell, the cost of the cheapest way found to it so far.
    pub cost: Seq<Option<i32>>,
    /// For each cell, the cell from which that cheapest way enters it.
    pub came_from: Seq<Option<usize>>,
    /// For each cell, whether it was taken from the queue and expanded.
    pub expanded: Seq<bool>,
    /// The cell the search started from.
    pub root: int,
    /// The cell whose Manhattan distance guides the search, if any.
    pub target: Option<int>,
}

impl Wave {
    /// The costs found so far as ranks of the predecessor tree.
    pub open spec fn rank(self) -> Seq<int> {
        Seq::new(
            self.cost.len(),
            |i: int|
                match self.cost[i] {
                    Some(c) => c as int,
                    None => 0,
                },
        )
    }

    /// The search after the entry `(item, priority)` left the queue.
    pub open spec fn take(self, item: usize, priority: i32) -> Wave {
        Wave { queue: self.queue.remove(entry(item, priority)), ..self }
    }

    /// The search after a cheaper way into `found`, through `current` and
    /// of cost `cost`, was recorded and queued with the given priority.
    pub open spec fn relax(self, current: int, found: int, cost: i32, priority: i32) -> Wave {
        Wave {
            queue: self.queue.insert(entry(found as usize, priority)),
            cost: self.cost.update(found, Some(cost)),
            came_from: self.came_from.update(found, Some(current as usize)),
            ..self
        }
    }

    /// The search with `current` recorded as expanded.
    pub open spec fn finish(self, current: int) -> Wave {
        Wave { expanded: self.expanded.update(current, true), ..self }
    }
}

/// The cell whose distance guides a search for `end`: `end` itself for a
/// guided search, none otherwise.
pub open spec fn target_of(guided: bool, end: int) -> Option<int> {
    if guided {
        Some(end)
    } else {
        None
    }
}

/// The state of a cost-driven search together with the cells it has taken
/// from its queue, as the proofs see it.
pub struct Quest {
    /// The queue, the costs and the predecessors.
    pub wave: Wave,
    /// The cells taken from the queue so far, in that order.
    pub listed: Seq<GridNode>,
    /// Whether the end cell was taken from the queue.
    pub found: bool,
}

impl Universe {
    /// The cost of entering each of the first `k` cells once.
    pub open spec fn total_cost(&self, k: int) -> int
        decreases k,
    {
        if k <= 0 {
            0
        } else {
            self.total_cost(k - 1) + step_cost(self.nodes@[k - 1])
        }
    }

    /// Accumulated costs and priorities of a search stay within `i32`:
    /// twice the cost of entering every cell once, plus the largest
    /// Manhattan distance in the grid, fits.
    pub open spec fn costs_fit(&self) -> bool {
        2 * self.total_cost(self.nodes@.len() as int) + self.width + self.height <= i32::MAX
    }

    /// The cost of entering once each of the first `k` cells that the
    /// search has found a way to.
    pub open spec fn spent(&self, cost: Seq<Option<i32>>, k: int) -> int
        decreases k,
    {
        if k <= 0 {
            0
        } else {
            self.spent(cost, k - 1) + if cost[k - 1] is Some {
                step_cost(self.nodes@[k - 1])
            } else {
                0
            }
        }
    }

    /// What the first `k` cells can still be improved by: the cost found
    /// for a cell, or one more than any cost can be for a cell not yet found.
    pub open spec fn debt(&self, cost: Seq<Option<i32>>, k: int) -> int
        decreases k,
    {
        if k <= 0 {
            0
        } else {
            self.debt(cost, k - 1) + match cost[k - 1] {
                Some(c) => c as int,
                None => self.total_cost(self.nodes@.len() as int) + 1,
            }
        }
    }

    /// What is left to do: every improvement of a cost lowers the debt and
    /// adds one entry to the queue, every step takes one entry from it.
    pub open spec fn wave_work(&self, w: Wave) -> int {
        2 * self.debt(w.cost, self.nodes@.len() as int) + w.queue.len()
    }

    /// The estimate of the cost from cell `i` to the target: the Manhattan
    /// distance, or nothing for a search without a target.
    pub open spec fn estimate(&self, target: Option<int>, i: int) -> int {
        match target {
            Some(t) => manhattan(self.nodes@[i], self.nodes@[t]),
            None => 0,
        }
    }

    /// The queue holds an entry for cell `i` that ranks it at least as high
    /// as its present cost and estimate do.
    pub open spec fn fresh(&self, w: Wave, i: int) -> bool {
        exists|priority: i32|
            #![trigger w.queue.count(entry(i as usize, priority))]
            w.queue.count(entry(i as usize, priority)) > 0 && -priority <= w.cost[i]->0
                + self.estimate(w.target, i)
    }

    /// Cell `i` was expanded and no move out of it improves on what is known.
    pub open spec fn settled(&self, w: Wave, i: int) -> bool {
        &&& w.expanded[i]
        &&& forall|j: int|
            0 <= j < self.nodes@.len() && #[trigger] self.is_step(self.nodes@[i], self.nodes@[j])
                ==> w.cost[j] is Some && w.cost[j]->0 <= w.cost[i]->0 + step_cost(self.nodes@[j])
    }

    /// What the search knows about cell `i` is sound.
    pub open spec fn cost_ok(&self, w: Wave, current: Option<int>, i: int) -> bool {
        match w.cost[i] {
            None => w.came_from[i] is None && i != w.root && !w.expanded[i],
            Some(c) => {
                &&& 0 <= c <= self.spent(w.cost, self.nodes@.len() as int)
                &&& in_tree(w.came_from, w.root, i)
                &&& (w.came_from[i] matches Some(p) ==> w.cost[p as int] is Some && w.cost[p as int]->0
                    + step_cost(self.nodes@[i]) <= c)
                &&& (self.fresh(w, i) || self.settled(w, i) || current == Some(i))
            },
        }
    }

    /// The queue entry `e` is for a cell with a known cost that does not
    /// exceed what the entry's priority stands for.
    pub open spec fn entry_ok(&self, w: Wave, e: PriorityQueueItem<usize>) -> bool {
        &&& e.item < self.nodes@.len()
        &&& w.cost[e.item as int] is Some
        &&& w.cost[e.item as int]->0 <= -e.priority
    }

    /// The invariant of a cost-driven search.  `current` is the cell that
    /// has been taken from the queue and is being expanded, if any.
    pub open spec fn wave_ok(&self, w: Wave, current: Option<int>) -> bool {
        let n = self.nodes@.len();
        &&& w.cost.len() == n
        &&& w.expanded.len() == n
        &&& self.is_forest(w.came_from, w.rank(), w.root)
        &&& (w.target matches Some(t) ==> 0 <= t < n)
        &&& w.cost[w.root] == Some(0i32)
        &&& forall|i: int| 0 <= i < n ==> #[trigger] self.cost_ok(w, current, i)
        &&& forall|e: PriorityQueueItem<usize>| #[trigger] w.queue.count(e) > 0 ==> self.entry_ok(w, e)
        &&& (current matches Some(c) ==> 0 <= c < n && w.cost[c] is Some)
    }

    /// The search that knows its root and nothing else.
    pub open spec fn wave_start(&self, root: int, target: Option<int>) -> Wave {
        let n = self.nodes@.len();
        Wave {
            queue: Multiset::empty().insert(entry(root as usize, 0)),
            cost: Seq::new(
                n,
                |i: int|
                    if i == root {
                        Some(0i32)
                    } else {
                        None
                    },
            ),
            came_from: Seq::new(n, |i: int| None),
            expanded: Seq::new(n, |i: int| false),
            root,
            target,
        }
    }

    /// What a search has spent is never negative and never more than the
    /// cost of entering every cell once.
    pub proof fn lemma_spent_bounds(&self, cost: Seq<Option<i32>>, k: int)
        requires
            self.wf(),
            k <= self.nodes@.len(),
        ensures
            0 <= self.spent(cost, k) <= self.total_cost(k),
        decreases k,
    {
        if k > 0 {
            self.lemma_spent_bounds(cost, k - 1);
        }
    }

    /// Entering a cell costs at least one and never more than entering every
    /// cell once; if the search has found a way to the cell, it is part of
    /// what the search has spent.
    pub proof fn lemma_total_cost_bounds(&self, cost: Seq<Option<i32>>, k: int, i: int)
        requires
            self.wf(),
            0 <= i < k <= self.nodes@.len(),
        ensures
            1 <= step_cost(self.nodes@[i]) <= self.total_cost(k),
            0 <= self.spent(cost, k) <= self.total_cost(k),
            cost[i] is Some ==> step_cost(self.nodes@[i]) <= self.spent(cost, k),
        decreases k,
    {
        self.lemma_spent_bounds(cost, k);
        self.lemma_spent_bounds(cost, k - 1);
        if i < k - 1 {
            self.lemma_total_cost_bounds(cost, k - 1, i);
        }
    }

    /// Recording a cost for a cell adds the cost of entering that cell to
    /// what is spent, unless one was recorded before.
    pub proof fn lemma_spent_update(&self, cost: Seq<Option<i32>>, i: int, c: i32, k: int)
        requires
            0 <= i < cost.len(),
            0 <= k <= cost.len(),
        ensures
            self.spent(cost.update(i, Some(c)), k) == self.spent(cost, k) + if i < k && cost[i] is None {
                step_cost(self.nodes@[i])
            } else {
                0
            },
        decreases k,
    {
        if k > 0 {
            self.lemma_spent_update(cost, i, c, k - 1);
        }
    }

    /// Recording a cost for a cell changes the debt by the difference to
    /// what the cell stood for before.
    pub proof fn lemma_debt_update(&self, cost: Seq<Option<i32>>, i: int, c: i32, k: int)
        requires
            0 <= i < cost.len(),
            0 <= k <= cost.len(),
        ensures
            self.debt(cost.update(i, Some(c)), k) == self.debt(cost, k) + if i < k {
                c - match cost[i] {
                    Some(old) => old as int,
                    None => self.total_cost(self.nodes@.len() as int) + 1,
                }
            } else {
                0
            },
        decreases k,
    {
        if k > 0 {
            self.lemma_debt_update(cost, i, c, k - 1);
        }
    }

    /// The debt of a sound search is never negative.
    pub proof fn lemma_debt_bounds(&self, w: Wave, current: Option<int>, k: int)
        requires
            self.wf(),
            self.wave_ok(w, current),
            0 <= k <= self.nodes@.len(),
        ensures
            0 <= self.debt(w.cost, k),
        decreases k,
    {
        if k > 0 {
            self.lemma_debt_bounds(w, current, k - 1);
            assert(self.cost_ok(w, current, k - 1));
            self.lemma_total_cost_bounds(w.cost, self.nodes@.len() as int, k - 1);
        }
    }

    /// The Manhattan distance between two cells of the grid is below the
    /// sum of the grid's dimensions.
    pub proof fn lemma_estimate_bounds(&self, target: Option<int>, i: int)
        requires
            self.wf(),
            0 <= i < self.nodes@.len(),
            target matches Some(t) ==> 0 <= t < self.nodes@.len(),
        ensures
            0 <= self.estimate(target, i) <= self.width + self.height,
    {
    }

    /// A search that knows only its root satisfies the invariant.
    pub proof fn lemma_wave_start(&self, root: int, target: Option<int>)
        requires
            self.wf(),
            0 <= root < self.nodes@.len(),
            target matches Some(t) ==> 0 <= t < self.nodes@.len(),
        ensures
            self.wave_ok(self.wave_start(root, target), None),
    {
        broadcast use vstd::multiset::group_multiset_axioms;

        let w = self.wave_start(root, target);
        let n = self.nodes@.len() as int;
        assert forall|i: int| 0 <= i < n implies #[trigger] self.link_ok(
            w.came_from,
            w.rank(),
            w.root,
            i,
        ) by {}
        assert forall|i: int| 0 <= i < n implies #[trigger] self.cost_ok(w, None, i) by {
            if i == root {
                self.lemma_total_cost_bounds(w.cost, n, i);
                self.lemma_estimate_bounds(target, i);
                assert(w.queue.count(entry(root as usize, 0i32)) > 0);
                assert(self.fresh(w, i));
            }
        }
        assert forall|e: PriorityQueueItem<usize>| #[trigger] w.queue.count(e) > 0 implies self.entry_ok(
            w,
            e,
        ) by {
            assert(e == entry(root as usize, 0i32));
        }
    }

    /// Taking an entry from the queue keeps the invariant, with the entry's
    /// cell as the one being expanded.
    pub proof fn lemma_wave_take(&self, w: Wave, item: usize, priority: i32)
        requires
            self.wf(),
            self.wave_ok(w, None),
            w.queue.count(entry(item, priority)) > 0,
        ensures
            self.wave_ok(w.take(item, priority), Some(item as int)),
            self.wave_work(w.take(item, priority)) == self.wave_work(w) - 1,
    {
        broadcast use vstd::multiset::group_multiset_axioms;

        let t = w.take(item, priority);
        let n = self.nodes@.len() as int;
        assert(self.entry_ok(w, entry(item, priority)));
        assert(t.rank() =~= w.rank());
        assert forall|i: int| 0 <= i < n implies #[trigger] self.cost_ok(t, Some(item as int), i) by {
            assert(self.cost_ok(w, None, i));
            if w.cost[i] is Some && i != item {
                if self.fresh(w, i) {
                    let p = choose|p: i32|
                        #![trigger w.queue.count(entry(i as usize, p))]
                        w.queue.count(entry(i as usize, p)) > 0 && -p <= w.cost[i]->0
                            + self.estimate(w.target, i);
                    assert(t.queue.count(entry(i as usize, p)) > 0);
                    assert(self.fresh(t, i));
                } else {
                    assert(self.settled(t, i));
                }
            }
        }
        assert forall|e: PriorityQueueItem<usize>| #[trigger] t.queue.count(e) > 0 implies self.entry_ok(
            t,
            e,
        ) by {
            assert(w.queue.count(e) > 0);
            assert(self.entry_ok(w, e));
        }
    }

    /// Recording a cheaper way into a neighbour of the cell being expanded
    /// keeps the invariant and leaves less to do.
    pub proof fn lemma_wave_relax(&self, w: Wave, current: int, found: int, cost: i32, priority: i32)
        requires
            self.wf(),
            self.wave_ok(w, Some(current)),
            0 <= found < self.nodes@.len(),
            self.is_step(self.nodes@[current], self.nodes@[found]),
            cost == w.cost[current]->0 + step_cost(self.nodes@[found]),
            w.cost[found] matches Some(old) ==> cost < old,
            -priority == cost + self.estimate(w.target, found),
        ensures
            self.wave_ok(w.relax(current, found, cost, priority), Some(current)),
            self.wave_work(w.relax(current, found, cost, priority)) < self.wave_work(w),
            found != current,
            found != w.root,
    {
        broadcast use vstd::multiset::group_multiset_axioms;

        let t = w.relax(current, found, cost, priority);
        let n = self.nodes@.len() as int;
        assert(self.cost_ok(w, Some(current), current));
        assert(self.cost_ok(w, Some(current), found));
        assert(self.cost_ok(w, Some(current), w.root));
        self.lemma_total_cost_bounds(w.cost, n, found);
        self.lemma_spent_update(w.cost, found, cost, n);
        self.lemma_debt_update(w.cost, found, cost, n);
        self.lemma_estimate_bounds(w.target, found);
        assert(found != current);
        assert(found != w.root);
        assert(cost <= self.spent(t.cost, n));
        assert forall|i: int| 0 <= i < n implies #[trigger] self.link_ok(
            t.came_from,
            t.rank(),
            t.root,
            i,
        ) by {
            assert(self.link_ok(w.came_from, w.rank(), w.root, i));
            assert(self.cost_ok(w, Some(current), i));
            if i != found {
                match w.came_from[i] {
                    Some(p) => {
                        assert(self.cost_ok(w, Some(current), p as int));
                    },
                    None => {},
                }
            }
        }
        self.lemma_spent_bounds(t.cost, n);
        assert(self.debt(t.cost, n) <= self.debt(w.cost, n) - 1);
        assert(t.queue.len() == w.queue.len() + 1);
        assert forall|i: int| 0 <= i < n implies #[trigger] self.cost_ok(t, Some(current), i) by {
            assert(self.cost_ok(w, Some(current), i));
            assert(self.link_ok(w.came_from, w.rank(), w.root, i));
            if i == found {
                assert(t.queue.count(entry(found as usize, priority)) > 0);
                assert(self.fresh(t, i));
            } else if w.cost[i] is Some {
                match w.came_from[i] {
                    Some(p) => {
                        assert(self.cost_ok(w, Some(current), p as int));
                    },
                    None => {},
                }
                if self.fresh(w, i) {
                    let p = choose|p: i32|
                        #![trigger w.queue.count(entry(i as usize, p))]
                        w.queue.count(entry(i as usize, p)) > 0 && -p <= w.cost[i]->0
                            + self.estimate(w.target, i);
                    assert(t.queue.count(entry(i as usize, p)) > 0);
                    assert(self.fresh(t, i));
                } else if self.settled(w, i) {
                    assert forall|j: int|
                        0 <= j < n && #[trigger] self.is_step(
                            self.nodes@[i],
                            self.nodes@[j],
                        ) implies t.cost[j] is Some && t.cost[j]->0 <= t.cost[i]->0 + step_cost(
                        self.nodes@[j],
                    ) by {}
                    assert(self.settled(t, i));
                }
            }
        }
        assert forall|e: PriorityQueueItem<usize>| #[trigger] t.queue.count(e) > 0 implies self.entry_ok(
            t,
            e,
        ) by {
            if e != entry(found as usize, priority) {
                assert(w.queue.count(e) > 0);
                assert(self.entry_ok(w, e));
            }
        }
    }

    /// Once no move out of the cell being expanded improves on what is
    /// known, the cell counts as expanded and the invariant holds again
    /// between steps.
    pub proof fn lemma_wave_finish(&self, w: Wave, current: int)
        requires
            self.wf(),
            self.wave_ok(w, Some(current)),
            forall|j: int|
                0 <= j < self.nodes@.len() && #[trigger] self.is_step(
                    self.nodes@[current],
                    self.nodes@[j],
                ) ==> w.cost[j] is Some && w.cost[j]->0 <= w.cost[current]->0 + step_cost(
                    self.nodes@[j],
                ),
        ensures
            self.wave_ok(w.finish(current), None),
            self.wave_work(w.finish(current)) == self.wave_work(w),
    {
        let t = w.finish(current);
        let n = self.nodes@.len() as int;
        assert(t.rank() =~= w.rank());
        assert forall|i: int| 0 <= i < n implies #[trigger] self.cost_ok(t, None, i) by {
            assert(self.cost_ok(w, Some(current), i));
            if w.cost[i] is Some {
                if i == current {
                    assert(self.settled(t, i));
                } else if self.fresh(w, i) {
                    let p = choose|p: i32|
                        #![trigger w.queue.count(entry(i as usize, p))]
                        w.queue.count(entry(i as usize, p)) > 0 && -p <= w.cost[i]->0
                            + self.estimate(w.target, i);
                    assert(t.queue.count(entry(i as usize, p)) > 0);
                    assert(self.fresh(t, i));
                } else {
                    assert(self.settled(w, i));
                    assert(self.settled(t, i));
                }
            }
        }
        assert forall|e: PriorityQueueItem<usize>| #[trigger] t.queue.count(e) > 0 implies self.entry_ok(
            t,
            e,
        ) by {
            assert(self.entry_ok(w, e));
        }
    }

    /// `processed` lists only cells marked in `marked`, and every cell
    /// marked there.
    pub open spec fn covers(&self, processed: Seq<GridNode>, marked: Seq<bool>) -> bool {
        &&& forall|k: int|
            0 <= k < processed.len() ==> {
                let c = #[trigger] processed[k];
                self.is_cell(c) && marked[self.index_of_cell(c)]
            }
        &&& forall|i: int|
            0 <= i < self.nodes@.len() && #[trigger] marked[i] ==> processed.contains(self.nodes@[i])
    }

    /// Recording one more expanded cell keeps `processed` and the marks in step.
    pub proof fn lemma_covers_push(&self, processed: Seq<GridNode>, marked: Seq<bool>, current: int)
        requires
            self.wf(),
            marked.len() == self.nodes@.len(),
            self.covers(processed, marked),
            0 <= current < self.nodes@.len(),
        ensures
            self.covers(processed.push(self.nodes@[current]), marked.update(current, true)),
    {
        let after = processed.push(self.nodes@[current]);
        let more = marked.update(current, true);
        self.lemma_node_is_cell(current);
        assert forall|k: int| 0 <= k < after.len() implies {
            let c = #[trigger] after[k];
            self.is_cell(c) && more[self.index_of_cell(c)]
        } by {
            if k < processed.len() {
                assert(after[k] == processed[k]);
                self.lemma_cell_at(processed[k].x as int, processed[k].y as int);
            }
        }
        assert forall|i: int| 0 <= i < self.nodes@.len() && #[trigger] more[i] implies after.contains(
            self.nodes@[i],
        ) by {
            if i == current {
                assert(after[processed.len() as int] == self.nodes@[i]);
            } else {
                assert(marked[i]);
                let k = choose|k: int| 0 <= k < processed.len() && processed[k] == self.nodes@[i];
                assert(after[k] == self.nodes@[i]);
            }
        }
    }

    /// A walk costs at least the Manhattan distance between its ends.
    pub proof fn lemma_walk_costs_distance(&self, p: Seq<GridNode>)
        requires
            self.wf(),
            self.is_walk(p),
        ensures
            0 <= manhattan(p[0], p.last()) <= path_cost(p),
        decreases p.len(),
    {
        if p.len() > 1 {
            let q = p.drop_last();
            self.lemma_walk_prefix(p, p.len() - 1);
            assert(p.take(p.len() - 1) =~= q);
            self.lemma_walk_costs_distance(q);
            assert(self.is_step(p[p.len() - 2], p[p.len() - 1]));
            let b = p.last();
            self.lemma_cell_at(b.x as int, b.y as int);
        }
    }

    /// The part of a walk from position `i` on is a walk, and the cost of
    /// the walk is the cost up to position `i` plus the cost from there on.
    pub proof fn lemma_walk_split(&self, p: Seq<GridNode>, i: int)
        requires
            self.is_walk(p),
            0 <= i < p.len(),
        ensures
            self.is_walk(p.skip(i)),
            path_cost(p) == path_cost(p.take(i + 1)) + path_cost(p.skip(i)),
        decreases p.len(),
    {
        let tail = p.skip(i);
        assert forall|k: int| 0 < k < tail.len() implies self.is_step(tail[k - 1], #[trigger] tail[k]) by {
            assert(self.is_step(p[i + k - 1], p[i + k]));
        }
        assert(self.is_cell(tail[0])) by {
            if i > 0 {
                assert(self.is_step(p[i - 1], p[i]));
            }
        }
        if i == p.len() - 1 {
            assert(p.take(i + 1) =~= p);
        } else {
            let q = p.drop_last();
            self.lemma_walk_prefix(p, p.len() - 1);
            assert(p.take(p.len() - 1) =~= q);
            self.lemma_walk_split(q, i);
            assert(p.take(i + 1) =~= q.take(i + 1));
            assert(tail.drop_last() =~= q.skip(i));
            assert(tail.last() == p.last());
        }
    }

    /// Position `i` of the walk `p` is a cell that waits in the queue with
    /// a cost no higher than that of walking along `p` up to it.
    pub open spec fn waits_on(&self, w: Wave, p: Seq<GridNode>, i: int) -> bool {
        let v = self.index_of_cell(p[i]);
        &&& w.cost[v] is Some
        &&& self.fresh(w, v)
        &&& w.cost[v]->0 <= path_cost(p.take(i + 1))
    }

    /// Between steps, for every walk from the root: either the search knows
    /// a way to the walk's last cell that costs no more than the walk, or
    /// some cell on the walk waits in the queue with a cost no higher than
    /// that of the walk up to it.
    pub proof fn lemma_wave_frontier(&self, w: Wave, p: Seq<GridNode>)
        requires
            self.wf(),
            self.wave_ok(w, None),
            self.is_walk(p),
            p[0] == self.nodes@[w.root],
        ensures
            ({
                let t = self.index_of_cell(p.last());
                0 <= t < self.nodes@.len() && w.cost[t] is Some && w.cost[t]->0 <= path_cost(p)
            }) || exists|i: int| 0 <= i < p.len() && #[trigger] self.waits_on(w, p, i),
        decreases p.len(),
    {
        if p.len() == 1 {
            self.lemma_node_is_cell(w.root);
        } else {
            let q = p.drop_last();
            self.lemma_walk_prefix(p, p.len() - 1);
            assert(p.take(p.len() - 1) =~= q);
            self.lemma_wave_frontier(w, q);
            if exists|i: int| 0 <= i < q.len() && #[trigger] self.waits_on(w, q, i) {
                let i = choose|i: int| 0 <= i < q.len() && #[trigger] self.waits_on(w, q, i);
                assert(p.take(i + 1) =~= q.take(i + 1));
                assert(self.waits_on(w, p, i));
            } else {
                let a = self.index_of_cell(q.last());
                let b = self.index_of_cell(p.last());
                assert(self.is_step(p[p.len() - 2], p[p.len() - 1]));
                self.lemma_cell_at(q.last().x as int, q.last().y as int);
                self.lemma_cell_at(p.last().x as int, p.last().y as int);
                assert(self.cost_ok(w, None, a));
                if self.fresh(w, a) {
                    assert(p.take(q.len() as int) =~= q);
                    assert(self.waits_on(w, p, q.len() - 1));
                } else {
                    assert(self.settled(w, a));
                    assert(self.is_step(self.nodes@[a], self.nodes@[b]));
                }
            }
        }
    }

    /// When the entry of largest priority is one for the cell `goal`, and
    /// the search is guided by the distance to `goal` or by nothing, the
    /// cost known for `goal` is that of a cheapest path.
    pub proof fn lemma_goal_is_cheapest(&self, w: Wave, goal: int, priority: i32, p: Seq<GridNode>)
        requires
            self.wf(),
            self.wave_ok(w, None),
            is_max_entry(w.queue, entry(goal as usize, priority)),
            w.target == Some(goal) || w.target is None,
            0 <= goal < self.nodes@.len(),
            self.is_path(p, self.nodes@[w.root], self.nodes@[goal]),
        ensures
            w.cost[goal] is Some,
            w.cost[goal]->0 <= path_cost(p),
    {
        assert(self.entry_ok(w, entry(goal as usize, priority)));
        self.lemma_wave_frontier(w, p);
        self.lemma_node_is_cell(goal);
        if exists|i: int| 0 <= i < p.len() && #[trigger] self.waits_on(w, p, i) {
            let i = choose|i: int| 0 <= i < p.len() && #[trigger] self.waits_on(w, p, i);
            let v = self.index_of_cell(p[i]);
            let waiting = choose|waiting: i32|
                #![trigger w.queue.count(entry(v as usize, waiting))]
                w.queue.count(entry(v as usize, waiting)) > 0 && -waiting <= w.cost[v]->0
                    + self.estimate(w.target, v);
            assert(entry(v as usize, waiting).priority <= priority);
            self.lemma_walk_split(p, i);
            self.lemma_walk_costs_distance(p.skip(i));
            assert(p.skip(i)[0] == p[i]);
            assert(p.skip(i).last() == p.last());
            assert(self.is_cell(p[i])) by {
                if i > 0 {
                    assert(self.is_step(p[i - 1], p[i]));
                }
            }
            self.lemma_cell_at(p[i].x as int, p[i].y as int);
        }
    }

    /// The path that follows the predecessors back from a cell costs no
    /// more than the cost the search knows for that cell.
    pub proof fn lemma_chain_cost(&self, w: Wave, current: Option<int>, chain: Seq<int>, from: int)
        requires
            self.wf(),
            self.wave_ok(w, current),
            is_chain(w.came_from, chain, from, w.root),
        ensures
            w.cost[from] is Some,
            path_cost(self.cells_at(chain).reverse()) <= w.cost[from]->0,
        decreases chain.len(),
    {
        assert(self.cost_ok(w, current, from));
        assert(self.cost_ok(w, current, w.root));
        let path = self.cells_at(chain).reverse();
        if chain.len() == 1 {
            assert(path.len() == 1);
        } else {
            let rest = chain.drop_first();
            assert(w.came_from[chain[0]] == Some(chain[1] as usize));
            let p = chain[1];
            assert forall|k: int| 0 <= k < rest.len() - 1 implies w.came_from[#[trigger] rest[k]] == Some(
                rest[k + 1] as usize,
            ) by {
                assert(rest[k] == chain[k + 1]);
                assert(w.came_from[chain[k + 1]] == Some(chain[k + 2] as usize));
            }
            assert forall|k: int| 0 <= k < rest.len() implies 0 <= #[trigger] rest[k]
                < w.came_from.len() by {
                assert(rest[k] == chain[k + 1]);
            }
            self.lemma_chain_cost(w, current, rest, p);
            assert(path.drop_last() =~= self.cells_at(rest).reverse());
            assert(path.last() == self.nodes@[from]);
        }
    }

    /// The search after the first `k` neighbours of the cell `current` were
    /// looked at, in neighbour order: where the way through `current` is the
    /// first one found or cheaper than what is known, its cost and
    /// `current` as predecessor are recorded and the neighbour is queued
    /// with the negated sum of that cost and the estimate.
    pub open spec fn wave_relaxed(&self, w: Wave, current: int, k: int) -> Wave
        decreases k,
    {
        if k <= 0 {
            w
        } else {
            let before = self.wave_relaxed(w, current, k - 1);
            let c = self.nodes@[current];
            let found = self.index_of_cell(self.neighbors(c.x as int, c.y as int)[k - 1]);
            let through = before.cost[current]->0 + step_cost(self.nodes@[found]);
            if before.cost[found] matches Some(known) && known <= through {
                before
            } else {
                before.relax(
                    current,
                    found,
                    through as i32,
                    (-(through + self.estimate(before.target, found))) as i32,
                )
            }
        }
    }

    /// The search after the cell `current`, taken from the queue, was expanded.
    pub open spec fn wave_expanded(&self, w: Wave, current: int) -> Wave {
        let c = self.nodes@[current];
        self.wave_relaxed(w, current, self.neighbors(c.x as int, c.y as int).len() as int).finish(
            current,
        )
    }

    /// One step of a search for `end`: the entry `pick` is taken from the
    /// queue and its cell listed; if the cell is `end` the search has found
    /// it, otherwise the cell is expanded.
    pub open spec fn quest_step(&self, q: Quest, end: int, pick: PriorityQueueItem<usize>) -> Quest {
        let current = pick.item as int;
        let taken = q.wave.take(pick.item, pick.priority);
        let more = q.listed.push(self.nodes@[current]);
        if current == end {
            Quest { wave: taken, listed: more, found: true }
        } else {
            Quest { wave: self.wave_expanded(taken, current), listed: more, found: false }
        }
    }

    /// The state of a search from `start` for `end`, guided by the distance
    /// to `target` if there is one, after the steps that take the entries
    /// `picks` in turn.
    pub open spec fn quest_after(
        &self,
        start: int,
        end: int,
        target: Option<int>,
        picks: Seq<PriorityQueueItem<usize>>,
    ) -> Quest
        decreases picks.len(),
    {
        if picks.len() == 0 {
            Quest { wave: self.wave_start(start, target), listed: Seq::empty(), found: false }
        } else {
            self.quest_step(
                self.quest_after(start, end, target, picks.drop_last()),
                end,
                picks.last(),
            )
        }
    }

    /// Every step in `picks` takes, from a search that has not found `end`
    /// yet, an entry of the queue that no entry outranks.
    pub open spec fn quest_ok(
        &self,
        start: int,
        end: int,
        target: Option<int>,
        picks: Seq<PriorityQueueItem<usize>>,
    ) -> bool
        decreases picks.len(),
    {
        picks.len() == 0 || {
            let before = self.quest_after(start, end, target, picks.drop_last());
            &&& self.quest_ok(start, end, target, picks.drop_last())
            &&& !before.found
            &&& is_max_entry(before.wave.queue, picks.last())
        }
    }

    /// `result` is what a search from `start` for `end` returns when its
    /// steps take the entries `picks`: every step takes an entry of highest
    /// priority, the search runs until `end` is found or the queue is empty,
    /// and the result holds the cells listed and the path that follows the
    /// predecessors back from `end` if it was found, no path otherwise.
    pub open spec fn quest_reports(
        &self,
        start: int,
        end: int,
        target: Option<int>,
        picks: Seq<PriorityQueueItem<usize>>,
        result: PathResult,
    ) -> bool {
        let q = self.quest_after(start, end, target, picks);
        &&& self.quest_ok(start, end, target, picks)
        &&& q.found || q.wave.queue.len() == 0
        &&& result.processed@ == q.listed
        &&& if q.found {
            exists|chain: Seq<int>|
                {
                    &&& #[trigger] is_chain(q.wave.came_from, chain, end, q.wave.root)
                    &&& result.path@ == self.cells_at(chain).reverse()
                }
        } else {
            result.path@.len() == 0
        }
    }

    /// Whether accumulated costs and priorities of a search on this grid
    /// stay within `i32`.
    pub fn has_room_for_costs(&self) -> (fits: bool)
        requires
            self.wf(),
        ensures
            fits == self.costs_fit(),
    {
        let n = self.nodes.len();
        let mut total: i64 = 0;
        let mut k: usize = 0;
        while k < n
            invariant
                self.wf(),
                n == self.nodes@.len(),
                k <= n,
                total == self.total_cost(k as int),
                0 <= total <= k * 0x8000_0000,
            decreases n - k,
        {
            total = total + (self.nodes[k].weight as i64 + 1);
            k += 1;
        }
        proof {
            self.lemma_dims_fit();
        }
        if total > i32::MAX as i64 {
            return false;
        }
        2 * total + self.width as i64 + self.height as i64 <= i32::MAX as i64
    }

    /// Looks at every neighbour of `current`, in neighbour order: where the
    /// way through `current` is cheaper than what is known, or the first
    /// one found, its cost and `current` as predecessor are recorded, and
    /// the neighbour is queued with the negated sum of that cost and, if
    /// there is a `guide`, its Manhattan distance to the guide.
    pub(crate) fn wave_expand(
        &self,
        current: usize,
        guide: Option<usize>,
        frontier: &mut PriorityQueue<usize>,
        cost: &mut Vec<Option<i32>>,
        came_from: &mut Vec<Option<usize>>,
        Ghost(before): Ghost<Wave>,
    ) -> (after: Ghost<Wave>)
        requires
            self.wf(),
            self.costs_fit(),
            self.wave_ok(before, Some(current as int)),
            old(frontier)@ == before.queue,
            old(cost)@ == before.cost,
            old(came_from)@ == before.came_from,
            guide matches Some(g) ==> before.target == Some(g as int),
            guide is None ==> before.target is None,
        ensures
            after@ == self.wave_expanded(before, current as int),
            self.wave_ok(after@, None),
            final(frontier)@ == after@.queue,
            final(cost)@ == after@.cost,
            final(came_from)@ == after@.came_from,
            after@.root == before.root,
            after@.target == before.target,
            after@.expanded == before.expanded.update(current as int, true),
            self.wave_work(after@) <= self.wave_work(before),
            forall|i: int|
                0 <= i < self.nodes@.len() && before.cost[i] is Some ==> (
                #[trigger] after@.cost[i]) is Some,
    {
        let ghost n = self.nodes@.len();
        let node = self.nodes[current];
        proof {
            self.lemma_node_is_cell(current as int);
            self.lemma_dims_fit();
        }
        let neighbors = self.get_neighbors(node.x, node.y);
        let ghost mut s = before;
        let mut t: usize = 0;
        while t < neighbors.len()
            invariant
                self.wf(),
                self.costs_fit(),
                t <= neighbors@.len(),
                cells_of(neighbors@) == self.neighbors(node.x as int, node.y as int),
                node == self.nodes@[current as int],
                self.in_bounds(node.x as int, node.y as int),
                self.cell(node.x as int, node.y as int) == node,
                self.wave_ok(s, Some(current as int)),
                s == self.wave_relaxed(before, current as int, t as int),
                frontier@ == s.queue,
                cost@ == s.cost,
                came_from@ == s.came_from,
                s.root == before.root,
                s.target == before.target,
                s.expanded == before.expanded,
                s.cost[current as int] == before.cost[current as int],
                self.wave_work(s) <= self.wave_work(before),
                n == self.nodes@.len(),
                current < n,
                before.cost.len() == n,
                guide matches Some(g) ==> before.target == Some(g as int),
                guide is None ==> before.target is None,
                forall|i: int| 0 <= i < n && before.cost[i] is Some ==> (#[trigger] s.cost[i]) is Some,
                forall|k: int|
                    0 <= k < t ==> {
                        let j = self.index_of_cell(
                            #[trigger] self.neighbors(node.x as int, node.y as int)[k],
                        );
                        &&& 0 <= j < n
                        &&& s.cost[j] is Some
                        &&& s.cost[j]->0 <= s.cost[current as int]->0 + step_cost(self.nodes@[j])
                    },
            decreases neighbors@.len() - t,
        {
            let next = neighbors[t];
            proof {
                assert(cells_of(neighbors@)[t as int] == *next);
                self.lemma_neighbor_is_step(node.x as int, node.y as int, t as int);
                self.lemma_cell_at(next.x as int, next.y as int);
                assert(self.cost_ok(s, Some(current as int), current as int));
            }
            let found = self.get_index(next.x, next.y);
            assert(self.neighbors(node.x as int, node.y as int)[t as int] == *next);
            assert(self.nodes@[found as int] == *next);
            proof {
                self.lemma_total_cost_bounds(s.cost, n as int, found as int);
                self.lemma_total_cost_bounds(s.cost, n as int, current as int);
                assert(self.cost_ok(s, Some(current as int), found as int));
            }
            let tentative = 1 + cost[current].unwrap() + next.weight;
            let best = match cost[found] {
                Some(known) => known,
                None => i32::MAX,
            };
            if tentative < best {
                let toward: i32 = match guide {
                    Some(g) => {
                        proof {
                            self.lemma_estimate_bounds(s.target, found as int);
                        }
                        Self::heuristic(next, &self.nodes[g])
                    },
                    None => 0,
                };
                let f_score = -1 * (tentative + toward);
                proof {
                    self.lemma_estimate_bounds(s.target, found as int);
                    self.lemma_wave_relax(s, current as int, found as int, tentative, f_score);
                    let earlier = s;
                    s = s.relax(current as int, found as int, tentative, f_score);
                    assert forall|i: int| 0 <= i < n && before.cost[i] is Some implies (
                    #[trigger] s.cost[i]) is Some by {
                        assert(earlier.cost[i] is Some);
                    }
                    assert forall|k: int| 0 <= k < t implies {
                        let j = self.index_of_cell(
                            #[trigger] self.neighbors(node.x as int, node.y as int)[k],
                        );
                        &&& 0 <= j < n
                        &&& s.cost[j] is Some
                        &&& s.cost[j]->0 <= s.cost[current as int]->0 + step_cost(self.nodes@[j])
                    } by {
                        let j = self.index_of_cell(self.neighbors(node.x as int, node.y as int)[k]);
                        assert(earlier.cost[j] is Some);
                    }
                }
                cost.set(found, Some(tentative));
                frontier.enqueue(found, f_score);
                came_from.set(found, Some(current));
            }
            t += 1;
        }
        proof {
            assert forall|j: int|
                0 <= j < n && #[trigger] self.is_step(
                    self.nodes@[current as int],
                    self.nodes@[j],
                ) implies s.cost[j] is Some && s.cost[j]->0 <= s.cost[current as int]->0 + step_cost(
                self.nodes@[j],
            ) by {
                let b = self.nodes@[j];
                self.lemma_neighbors_are_steps(node.x as int, node.y as int, b);
                let all = self.neighbors(node.x as int, node.y as int);
                let k = choose|k: int| 0 <= k < all.len() && all[k] == b;
                self.lemma_node_is_cell(j);
                assert(self.index_of_cell(all[k]) == j);
            }
            self.lemma_wave_finish(s, current as int);
            s = s.finish(current as int);
        }
        Ghost(s)
    }

    /// The search behind Dijkstra's algorithm and A*: cells leave the
    /// priority queue by lowest accumulated cost, to which a guided search
    /// adds the Manhattan distance to the end.
    ///
    /// The cost of a way into a cell is the cost of the way to the cell
    /// before it, plus one, plus the weight of the cell entered.  A cell is
    /// queued again whenever a cheaper way into it is found; entries that a
    /// later one has overtaken stay in the queue and are processed when
    /// their turn comes.  The search stops when the end cell leaves the queue.
    pub(crate) fn weighted_search(
        &self,
        start_x: i32,
        start_y: i32,
        end_x: i32,
        end_y: i32,
        guided: bool,
    ) -> (result: PathResult)
        requires
            self.wf(),
            self.costs_fit(),
            self.in_bounds(start_x as int, start_y as int),
            self.in_bounds(end_x as int, end_y as int),
        ensures
            self.cheapest_result(
                self.cell(start_x as int, start_y as int),
                self.cell(end_x as int, end_y as int),
                result,
            ),
            exists|picks: Seq<PriorityQueueItem<usize>>| #[trigger]
                self.quest_reports(
                    self.index_of(start_x as int, start_y as int),
                    self.index_of(end_x as int, end_y as int),
                    target_of(guided, self.index_of(end_x as int, end_y as int)),
                    picks,
                    result,
                ),
    {
        let n = self.nodes.len();
        let mut result = PathResult { path: Vec::new(), processed: Vec::new() };

        let start = self.get_index(start_x, start_y);
        let end = self.get_index(end_x, end_y);
        let ghost start_node = self.nodes@[start as int];
        let ghost end_node = self.nodes@[end as int];
        let guide: Option<usize> = if guided {
            Some(end)
        } else {
            None
        };
        let ghost target: Option<int> = if guided {
            Some(end as int)
        } else {
            None
        };

        let mut came_from: Vec<Option<usize>> = filled(n, None);
        let mut cost: Vec<Option<i32>> = filled(n, None);
        cost.set(start, Some(0));

        let mut frontier: PriorityQueue<usize> = PriorityQueue::new();
        frontier.enqueue(start, 0);

        let ghost mut w = self.wave_start(start as int, target);
        let ghost mut picks: Seq<PriorityQueueItem<usize>> = Seq::empty();
        proof {
            assert(result.processed@ =~= Seq::<GridNode>::empty());
            self.lemma_wave_start(start as int, target);
            assert(frontier@ =~= w.queue);
            assert(cost@ =~= w.cost);
            assert(came_from@ =~= w.came_from);
        }

        while frontier.count() > 0
            invariant
                self.wf(),
                self.costs_fit(),
                n == self.nodes@.len(),
                start < n,
                end < n,
                start_node == self.nodes@[start as int],
                end_node == self.nodes@[end as int],
                start_node == self.cell(start_x as int, start_y as int),
                end_node == self.cell(end_x as int, end_y as int),
                self.wave_ok(w, None),
                self.quest_ok(start as int, end as int, target, picks),
                self.quest_after(start as int, end as int, target, picks) == (Quest {
                    wave: w,
                    listed: result.processed@,
                    found: false,
                }),
                start == self.index_of(start_x as int, start_y as int),
                end == self.index_of(end_x as int, end_y as int),
                w.root == start,
                w.target == target,
                guided ==> guide == Some(end) && target == Some(end as int),
                !guided ==> guide is None && target is None,
                frontier@ == w.queue,
                cost@ == w.cost,
                came_from@ == w.came_from,
                !w.expanded[end as int],
                result.path@.len() == 0,
                self.covers(result.processed@, w.expanded),
                result.processed@.len() > 0 ==> result.processed@[0] == start_node,
                result.processed@.len() == 0 ==> forall|e: PriorityQueueItem<usize>|
                    w.queue.count(e) > 0 ==> e.item == start,
            decreases self.wave_work(w),
        {
            let ghost waiting = w;
            let current = frontier.dequeue().unwrap();
            let ghost priority = choose|priority: i32| #[trigger]
                takes_max(waiting.queue, frontier@, current, priority);
            let ghost earlier = picks;
            proof {
                assert(self.entry_ok(waiting, entry(current, priority)));
                self.lemma_debt_bounds(waiting, None, n as int);
                self.lemma_wave_take(waiting, current, priority);
                w = waiting.take(current, priority);
                picks = earlier.push(entry(current, priority));
                assert(picks.drop_last() =~= earlier);
                self.lemma_debt_bounds(w, Some(current as int), n as int);
                self.lemma_covers_push(result.processed@, waiting.expanded, current as int);
            }
            result.processed.push(self.nodes[current]);

            if current == end {
                proof {
                    assert(self.cost_ok(w, Some(current as int), end as int));
                }
                let (found, Ghost(chain)) = self.construct_path(
                    result,
                    &came_from,
                    end,
                    Ghost(w.rank()),
                    Ghost(w.root),
                );
                proof {
                    self.lemma_chain_is_path(w.came_from, w.rank(), w.root, chain, end as int);
                    assert(Seq::<GridNode>::empty() + self.cells_at(chain) =~= self.cells_at(chain));
                    self.lemma_chain_cost(w, Some(current as int), chain, end as int);
                    assert forall|q: Seq<GridNode>| #[trigger]
                        self.is_path(q, start_node, end_node) implies path_cost(found.path@)
                        <= path_cost(q) by {
                        self.lemma_goal_is_cheapest(waiting, end as int, priority, q);
                    }
                    if start == end {
                        self.lemma_chain_at_root(w.came_from, w.rank(), w.root, chain);
                        assert(self.cells_at(chain).reverse() =~= seq![start_node]);
                    }
                    assert forall|i: int|
                        0 <= i < n && waiting.expanded.update(current as int, true)[i] implies (
                    #[trigger] w.cost[i]) is Some by {
                        assert(self.cost_ok(w, Some(current as int), i));
                    }
                    self.lemma_covered_reachable(
                        found.processed@,
                        waiting.expanded.update(current as int, true),
                        w,
                        Some(current as int),
                    );
                    let q = self.quest_after(start as int, end as int, target, picks);
                    assert(q == (Quest { wave: w, listed: found.processed@, found: true }));
                    assert(is_chain(q.wave.came_from, chain, end as int, q.wave.root));
                    assert(self.quest_reports(start as int, end as int, target, picks, found));
                }
                return found;
            }
            let Ghost(after) = self.wave_expand(
                current,
                guide,
                &mut frontier,
                &mut cost,
                &mut came_from,
                Ghost(w),
            );
            proof {
                w = after;
                assert(self.wave_work(w) < self.wave_work(waiting));
                assert(0 <= self.wave_work(w)) by {
                    self.lemma_debt_bounds(w, None, n as int);
                }
            }
        }
        proof {
            assert(self.quest_reports(start as int, end as int, target, picks, result));
            self.lemma_wave_exhausted(w);
            self.lemma_covered_reachable(result.processed@, w.expanded, w, None);
            assert forall|c: GridNode| #[trigger]
                self.reachable(start_node, c) implies result.processed@.contains(c) by {
                self.lemma_cell_at(c.x as int, c.y as int);
                assert(w.expanded[self.index_of_cell(c)]);
            }
            assert(!self.reachable(start_node, end_node)) by {
                if self.reachable(start_node, end_node) {
                    self.lemma_node_is_cell(end as int);
                }
            }
            self.lemma_node_is_cell(start as int);
            assert(self.is_path(seq![start_node], start_node, start_node));
            assert(self.reachable(start_node, start_node));
            assert(result.processed@.contains(start_node));
        }
        result
    }

    /// Every cell marked in `marked` has a known cost, so every cell in
    /// `processed` can be reached from the root of the search.
    pub proof fn lemma_covered_reachable(
        &self,
        processed: Seq<GridNode>,
        marked: Seq<bool>,
        w: Wave,
        current: Option<int>,
    )
        requires
            self.wf(),
            self.wave_ok(w, current),
            self.covers(processed, marked),
            forall|i: int| 0 <= i < self.nodes@.len() && marked[i] ==> (#[trigger] w.cost[i]) is Some,
        ensures
            forall|k: int|
                0 <= k < processed.len() ==> self.reachable(
                    self.nodes@[w.root],
                    #[trigger] processed[k],
                ),
    {
        assert forall|k: int| 0 <= k < processed.len() implies self.reachable(
            self.nodes@[w.root],
            #[trigger] processed[k],
        ) by {
            let c = processed[k];
            self.lemma_cell_at(c.x as int, c.y as int);
            let i = self.index_of_cell(c);
            assert(marked[i]);
            assert(w.cost[i] is Some);
            assert(self.cost_ok(w, current, i));
            self.lemma_tree_reaches(w.came_from, w.rank(), w.root, i);
        }
    }

    /// When the queue has run empty the search has expanded every cell that
    /// can be reached from its root.
    pub proof fn lemma_wave_exhausted(&self, w: Wave)
        requires
            self.wf(),
            self.wave_ok(w, None),
            w.queue.len() == 0,
        ensures
            forall|c: GridNode| #[trigger]
                self.reachable(self.nodes@[w.root], c) ==> self.is_cell(c) && w.expanded[self.index_of_cell(
                    c,
                )],
            forall|i: int| 0 <= i < self.nodes@.len() && w.expanded[i] ==> (#[trigger] w.cost[i]) is Some,
    {
        broadcast use vstd::multiset::group_multiset_axioms;

        let n = self.nodes@.len() as int;
        let known = Seq::new(n as nat, |i: int| w.cost[i] is Some);
        assert forall|i: int| 0 <= i < n && w.cost[i] is Some implies self.settled(w, i) by {
            assert(self.cost_ok(w, None, i));
            if self.fresh(w, i) {
                let p = choose|p: i32|
                    #![trigger w.queue.count(entry(i as usize, p))]
                    w.queue.count(entry(i as usize, p)) > 0 && -p <= w.cost[i]->0 + self.estimate(
                        w.target,
                        i,
                    );
                assert(w.queue.len() > 0) by {
                    vstd::multiset::lemma_multiset_empty_len(w.queue);
                }
            }
        }
        assert(self.expands_into(known, known)) by {
            assert forall|i: int, j: int|
                0 <= i < n && 0 <= j < n && known[i] && #[trigger] self.is_step(
                    self.nodes@[i],
                    self.nodes@[j],
                ) implies known[j] by {
                assert(self.settled(w, i));
            }
        }
        assert forall|i: int| 0 <= i < n && w.expanded[i] implies (#[trigger] w.cost[i]) is Some by {
            assert(self.cost_ok(w, None, i));
        }
        assert forall|c: GridNode| #[trigger]
            self.reachable(self.nodes@[w.root], c) implies self.is_cell(c) && w.expanded[self.index_of_cell(
            c,
        )] by {
            let p = choose|p: Seq<GridNode>| self.is_path(p, self.nodes@[w.root], c);
            self.lemma_node_is_cell(w.root);
            self.lemma_closed_holds_walk(known, p);
            self.lemma_walk_last_cell(p);
            self.lemma_cell_at(c.x as int, c.y as int);
            let i = self.index_of_cell(c);
            assert(self.settled(w, i));
        }
    }
}

} // verus!
