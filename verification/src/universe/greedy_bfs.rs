use super::bfs::Sweep;
use super::forest::filled;
use super::forest::in_tree;
use super::forest::is_chain;
use super::forest::lemma_count_false_bounds;
use super::grid_node::GridNode;
use super::neighbors::cells_of;
use super::path_result::PathResult;
use super::route::manhattan;
use super::universe::Universe;
use crate::priority_queue::priority_queue::entry;
use crate::priority_queue::priority_queue::takes_max;
use crate::priority_queue::priority_queue::PriorityQueue;
use crate::priority_queue::priority_queue_item::PriorityQueueItem;
use vstd::multiset::Multiset;
use vstd::prelude::*;
use vstd::seq_lib::*;

verus! {

/// The entries of a queue that holds each cell of `frontier` once, with the
/// priority that `priority` records for it.
pub open spec fn tagged(frontier: Seq<usize>, priority: Seq<i32>) -> Multiset<
    PriorityQueueItem<usize>,
> {
    frontier.map_values(|i: usize| entry(i, priority[i as int])).to_multiset()
}

/// Queueing a cell that is not waiting yet adds its entry to the queue.
pub proof fn lemma_tagged_push(frontier: Seq<usize>, priority: Seq<i32>, found: usize, p: i32)
    requires
        !frontier.contains(found),
        found < priority.len(),
        forall|k: int| 0 <= k < frontier.len() ==> #[trigger] frontier[k] < priority.len(),
    ensures
        tagged(frontier.push(found), priority.update(found as int, p)) == tagged(
            frontier,
            priority,
        ).insert(entry(found, p)),
{
    let before = frontier.map_values(|i: usize| entry(i, priority[i as int]));
    let updated = priority.update(found as int, p);
    let after = frontier.push(found).map_values(|i: usize| entry(i, updated[i as int]));
    assert(after =~= before.push(entry(found, p))) by {
        assert forall|k: int| 0 <= k < frontier.len() implies after[k] == before[k] by {
            assert(frontier.contains(frontier[k]));
        }
    }
    to_multiset_build(before, entry(found, p));
}

/// An entry of the queue belongs to a waiting cell and carries the priority
/// recorded for it.
pub proof fn lemma_tagged_find(frontier: Seq<usize>, priority: Seq<i32>, item: usize, p: i32) -> (k:
    int)
    requires
        tagged(frontier, priority).count(entry(item, p)) > 0,
    ensures
        0 <= k < frontier.len(),
        frontier[k] == item,
        priority[item as int] == p,
{
    let mapped = frontier.map_values(|i: usize| entry(i, priority[i as int]));
    to_multiset_contains(mapped, entry(item, p));
    let k = choose|k: int| 0 <= k < mapped.len() && mapped[k] == entry(item, p);
    assert(mapped[k] == entry(frontier[k], priority[frontier[k] as int]));
    k
}

/// Every waiting cell has its entry in the queue.
pub proof fn lemma_tagged_holds(frontier: Seq<usize>, priority: Seq<i32>, j: int)
    requires
        0 <= j < frontier.len(),
    ensures
        tagged(frontier, priority).count(entry(frontier[j], priority[frontier[j] as int])) > 0,
{
    let mapped = frontier.map_values(|i: usize| entry(i, priority[i as int]));
    assert(mapped[j] == entry(frontier[j], priority[frontier[j] as int]));
    assert(mapped.contains(entry(frontier[j], priority[frontier[j] as int])));
    to_multiset_contains(mapped, entry(frontier[j], priority[frontier[j] as int]));
}

/// The state of a greedy best-first search, as the proofs see it.
pub struct Greed {
    /// The waiting cells, what is visited and the predecessors.
    pub sweep: Sweep,
    /// For each cell, the priority it was queued with.
    pub priority: Seq<i32>,
    /// The cells taken from the queue so far, in that order.
    pub listed: Seq<GridNode>,
    /// Whether the end cell was taken from the queue.
    pub found: bool,
}

/// Slot `k` of the waiting cells holds a cell that no waiting cell outranks.
pub open spec fn is_best_slot(s: Sweep, priority: Seq<i32>, k: int) -> bool {
    &&& 0 <= k < s.frontier.len()
    &&& forall|j: int|
        0 <= j < s.frontier.len() ==> priority[#[trigger] s.frontier[j] as int]
            <= priority[s.frontier[k] as int]
}

/// Taking the cell in slot `k` from the waiting cells takes its entry from
/// the queue.
pub proof fn lemma_tagged_remove(frontier: Seq<usize>, priority: Seq<i32>, k: int)
    requires
        0 <= k < frontier.len(),
    ensures
        tagged(frontier.remove(k), priority) == tagged(frontier, priority).remove(
            entry(frontier[k], priority[frontier[k] as int]),
        ),
        tagged(frontier, priority).len() == frontier.len(),
{
    let mapped = frontier.map_values(|i: usize| entry(i, priority[i as int]));
    let fewer = frontier.remove(k).map_values(|i: usize| entry(i, priority[i as int]));
    assert(fewer =~= mapped.remove(k));
    to_multiset_remove(mapped, k);
    to_multiset_len(mapped);
}

impl Universe {
    /// The priority with which a greedy search for `end` queues the cell
    /// `found`: the negated sum of its Manhattan distance to `end` and its
    /// weight.
    pub open spec fn greedy_priority(&self, found: int, end: int) -> i32 {
        (-(manhattan(self.nodes@[found], self.nodes@[end]) + self.nodes@[found].weight)) as i32
    }

    /// The search after the first `k` neighbours of the cell `current` were
    /// looked at, in neighbour order: each one not visited before is
    /// discovered and gets its priority.
    pub open spec fn greedy_discovered(
        &self,
        s: Sweep,
        priority: Seq<i32>,
        current: int,
        end: int,
        k: int,
    ) -> (Sweep, Seq<i32>)
        decreases k,
    {
        if k <= 0 {
            (s, priority)
        } else {
            let before = self.greedy_discovered(s, priority, current, end, k - 1);
            let c = self.nodes@[current];
            let found = self.index_of_cell(self.neighbors(c.x as int, c.y as int)[k - 1]);
            if before.0.visited[found] {
                before
            } else {
                (
                    before.0.discover(current, found),
                    before.1.update(found, self.greedy_priority(found, end)),
                )
            }
        }
    }

    /// The search after the cell `current`, taken from the queue, was expanded.
    pub open spec fn greedy_expanded(&self, s: Sweep, priority: Seq<i32>, current: int, end: int) -> (
        Sweep,
        Seq<i32>,
    ) {
        let c = self.nodes@[current];
        let seen = self.greedy_discovered(
            s,
            priority,
            current,
            end,
            self.neighbors(c.x as int, c.y as int).len() as int,
        );
        (seen.0.finish(current), seen.1)
    }

    /// One step of a greedy search for `end`: the cell in slot `k` of the
    /// waiting cells is taken and listed; if it is `end` the search has
    /// found it, otherwise the cell is expanded.
    pub open spec fn greedy_step(&self, g: Greed, end: int, k: int) -> Greed {
        let current = g.sweep.frontier[k] as int;
        let more = g.listed.push(self.nodes@[current]);
        if current == end {
            Greed { sweep: g.sweep.take(k), priority: g.priority, listed: more, found: true }
        } else {
            let next = self.greedy_expanded(g.sweep.take(k), g.priority, current, end);
            Greed { sweep: next.0, priority: next.1, listed: more, found: false }
        }
    }

    /// The state of a greedy search from `start` for `end` after the steps
    /// that take the slots `picks` in turn.
    pub open spec fn greedy_after(&self, start: int, end: int, picks: Seq<int>) -> Greed
        decreases picks.len(),
    {
        if picks.len() == 0 {
            Greed {
                sweep: self.sweep_start(start),
                priority: Seq::new(self.nodes@.len(), |i: int| 0i32),
                listed: Seq::empty(),
                found: false,
            }
        } else {
            self.greedy_step(self.greedy_after(start, end, picks.drop_last()), end, picks.last())
        }
    }

    /// Every step in `picks` takes, from a search that has not found `end`
    /// yet, a waiting cell that no waiting cell outranks.
    pub open spec fn picks_ok(&self, start: int, end: int, picks: Seq<int>) -> bool
        decreases picks.len(),
    {
        picks.len() == 0 || {
            let before = self.greedy_after(start, end, picks.drop_last());
            &&& self.picks_ok(start, end, picks.drop_last())
            &&& !before.found
            &&& is_best_slot(before.sweep, before.priority, picks.last())
        }
    }

    /// `result` is what a greedy search from `start` for `end` returns when
    /// its steps take the slots `picks`: every step takes a cell of highest
    /// priority, the search runs until `end` is found or no cell waits, and
    /// the result holds the cells listed and the path that follows the
    /// predecessors back from `end` if it was found, no path otherwise.
    pub open spec fn greedy_reports(
        &self,
        start: int,
        end: int,
        picks: Seq<int>,
        result: PathResult,
    ) -> bool {
        let g = self.greedy_after(start, end, picks);
        &&& self.picks_ok(start, end, picks)
        &&& g.found || g.sweep.frontier.len() == 0
        &&& result.processed@ == g.listed
        &&& if g.found {
            exists|chain: Seq<int>|
                {
                    &&& #[trigger] is_chain(g.sweep.came_from, chain, end, g.sweep.root)
                    &&& result.path@ == self.cells_at(chain).reverse()
                }
        } else {
            result.path@.len() == 0
        }
    }

    /// Discovers the neighbours of `current` that the search has not seen
    /// yet, in neighbour order: each is marked visited, gets `current` as
    /// its predecessor and is queued with the negated sum of its Manhattan
    /// distance to the end and its weight.
    pub(crate) fn greedy_expand(
        &self,
        current: usize,
        end: usize,
        frontier: &mut PriorityQueue<usize>,
        visited: &mut Vec<bool>,
        came_from: &mut Vec<Option<usize>>,
        Ghost(before): Ghost<Sweep>,
        Ghost(ranked): Ghost<Seq<i32>>,
    ) -> (after: (Ghost<Sweep>, Ghost<Seq<i32>>))
        requires
            self.wf(),
            self.costs_fit(),
            end < self.nodes@.len(),
            self.sweep_ok(before, Some(current as int)),
            ranked.len() == self.nodes@.len(),
            old(frontier)@ == tagged(before.frontier, ranked),
            old(visited)@ == before.visited,
            old(came_from)@ == before.came_from,
        ensures
            (after.0@, after.1@) == self.greedy_expanded(before, ranked, current as int, end as int),
            self.sweep_ok(after.0@, None),
            after.1@.len() == self.nodes@.len(),
            final(frontier)@ == tagged(after.0@.frontier, after.1@),
            final(visited)@ == after.0@.visited,
            final(came_from)@ == after.0@.came_from,
            after.0@.root == before.root,
            after.0@.popped == before.popped.update(current as int, true),
            after.0@.work_left() == before.work_left(),
    {
        let ghost n = self.nodes@.len();
        let node = self.nodes[current];
        proof {
            self.lemma_node_is_cell(current as int);
        }
        let neighbors = self.get_neighbors(node.x, node.y);
        let ghost mut s = before;
        let ghost mut prio = ranked;
        let mut t: usize = 0;
        while t < neighbors.len()
            invariant
                self.wf(),
                self.costs_fit(),
                end < n,
                t <= neighbors@.len(),
                cells_of(neighbors@) == self.neighbors(node.x as int, node.y as int),
                node == self.nodes@[current as int],
                self.in_bounds(node.x as int, node.y as int),
                self.cell(node.x as int, node.y as int) == node,
                self.sweep_ok(s, Some(current as int)),
                (s, prio) == self.greedy_discovered(
                    before,
                    ranked,
                    current as int,
                    end as int,
                    t as int,
                ),
                prio.len() == n,
                frontier@ == tagged(s.frontier, prio),
                visited@ == s.visited,
                came_from@ == s.came_from,
                s.root == before.root,
                s.popped == before.popped,
                s.work_left() == before.work_left(),
                n == self.nodes@.len(),
                forall|k: int|
                    0 <= k < t ==> {
                        let j = self.index_of_cell(
                            #[trigger] self.neighbors(node.x as int, node.y as int)[k],
                        );
                        0 <= j < n && s.visited[j]
                    },
            decreases neighbors@.len() - t,
        {
            let neighbor = neighbors[t];
            proof {
                assert(cells_of(neighbors@)[t as int] == *neighbor);
                self.lemma_neighbor_is_step(node.x as int, node.y as int, t as int);
                self.lemma_cell_at(neighbor.x as int, neighbor.y as int);
            }
            let found = self.get_index(neighbor.x, neighbor.y);
            assert(self.neighbors(node.x as int, node.y as int)[t as int] == *neighbor);
            assert(self.nodes@[found as int] == *neighbor);
            if !visited[found] {
                proof {
                    self.lemma_estimate_bounds(Some(end as int), found as int);
                    self.lemma_total_cost_bounds(Seq::empty(), n as int, found as int);
                }
                let priority = -1 * (Self::heuristic(neighbor, &self.nodes[end]) + neighbor.weight);
                proof {
                    self.lemma_sweep_discover(s, current as int, found as int);
                    assert(!s.frontier.contains(found)) by {
                        if s.frontier.contains(found) {
                            let k = choose|k: int| 0 <= k < s.frontier.len() && s.frontier[k] == found;
                            assert(s.visited[s.frontier[k] as int]);
                        }
                    }
                    lemma_tagged_push(s.frontier, prio, found, priority);
                    s = s.discover(current as int, found as int);
                    prio = prio.update(found as int, priority);
                }
                visited.set(found, true);
                came_from.set(found, Some(current));
                frontier.enqueue(found, priority);
            }
            t += 1;
        }
        proof {
            assert forall|j: int|
                0 <= j < n && #[trigger] self.is_step(
                    self.nodes@[current as int],
                    self.nodes@[j],
                ) implies s.visited[j] by {
                let b = self.nodes@[j];
                self.lemma_neighbors_are_steps(node.x as int, node.y as int, b);
                let all = self.neighbors(node.x as int, node.y as int);
                let k = choose|k: int| 0 <= k < all.len() && all[k] == b;
                self.lemma_node_is_cell(j);
                assert(self.index_of_cell(all[k]) == j);
            }
            self.lemma_sweep_finish(s, current as int);
            s = s.finish(current as int);
        }
        (Ghost(s), Ghost(prio))
    }

    /// Greedy best-first search from `(start_x, start_y)` to `(end_x, end_y)`.
    ///
    /// Cells leave the priority queue by lowest sum of Manhattan distance to
    /// the end and own weight; the cost of the way to a cell plays no part.
    /// A cell is marked when it joins the queue and is never queued again.
    /// The search stops when the end cell leaves the queue.  `processed`
    /// lists the cells taken from the queue, each once.
    pub fn greedy_bfs(&self, start_x: i32, start_y: i32, end_x: i32, end_y: i32) -> (result:
        PathResult)
        requires
            self.wf(),
            self.costs_fit(),
            self.in_bounds(start_x as int, start_y as int),
            self.in_bounds(end_x as int, end_y as int),
        ensures
            self.single_visit_result(
                self.cell(start_x as int, start_y as int),
                self.cell(end_x as int, end_y as int),
                result,
            ),
            exists|picks: Seq<int>| #[trigger]
                self.greedy_reports(
                    self.index_of(start_x as int, start_y as int),
                    self.index_of(end_x as int, end_y as int),
                    picks,
                    result,
                ),
    {
        let n = self.nodes.len();
        let mut result = PathResult { path: Vec::new(), processed: Vec::new() };
        let mut frontier: PriorityQueue<usize> = PriorityQueue::new();

        let start = self.get_index(start_x, start_y);
        let end = self.get_index(end_x, end_y);
        let ghost start_node = self.nodes@[start as int];
        let ghost end_node = self.nodes@[end as int];

        let mut came_from: Vec<Option<usize>> = filled(n, None);
        let mut visited: Vec<bool> = filled(n, false);

        frontier.enqueue(start, 0);
        visited.set(start, true);

        let ghost mut s = self.sweep_start(start as int);
        let ghost mut prio: Seq<i32> = Seq::new(n as nat, |i: int| 0i32);
        let ghost mut picks: Seq<int> = Seq::empty();
        proof {
            assert(result.processed@ =~= Seq::<GridNode>::empty());
            self.lemma_sweep_start(start as int);
            assert(visited@ =~= s.visited);
            assert(came_from@ =~= s.came_from);
            lemma_count_false_bounds(s.visited, n as int);
            lemma_tagged_push(Seq::empty(), prio, start, 0);
            assert(Seq::<usize>::empty().push(start) =~= s.frontier);
            assert(prio.update(start as int, 0i32) =~= prio);
            assert(tagged(Seq::empty(), prio) =~= Multiset::empty()) by {
                to_multiset_len(
                    Seq::<usize>::empty().map_values(|i: usize| entry(i, prio[i as int])),
                );
                vstd::multiset::lemma_multiset_empty_len(tagged(Seq::empty(), prio));
            }
        }

        while frontier.count() > 0
            invariant
                self.wf(),
                self.costs_fit(),
                n == self.nodes@.len(),
                start < n,
                end < n,
                start_node == self.nodes@[start as int],
                end_node == self.nodes@[end as int],
                start_node == self.cell(start_x as int, start_y as int),
                end_node == self.cell(end_x as int, end_y as int),
                self.sweep_ok(s, None),
                self.picks_ok(start as int, end as int, picks),
                self.greedy_after(start as int, end as int, picks) == (Greed {
                    sweep: s,
                    priority: prio,
                    listed: result.processed@,
                    found: false,
                }),
                start == self.index_of(start_x as int, start_y as int),
                end == self.index_of(end_x as int, end_y as int),
                s.root == start,
                prio.len() == n,
                frontier@ == tagged(s.frontier, prio),
                visited@ == s.visited,
                came_from@ == s.came_from,
                !s.popped[end as int],
                result.path@.len() == 0,
                self.processed_ok(result.processed@, s.popped),
                result.processed@.len() > 0 ==> result.processed@[0] == start_node,
                result.processed@.len() == 0 ==> s.frontier =~= seq![start],
            decreases s.work_left(),
        {
            let ghost waiting = s;
            let ghost earlier = picks;
            let ghost listed = result.processed@;
            let current = frontier.dequeue().unwrap();
            proof {
                let priority = choose|priority: i32| #[trigger]
                    takes_max(tagged(waiting.frontier, prio), frontier@, current, priority);
                let k = lemma_tagged_find(waiting.frontier, prio, current, priority);
                lemma_tagged_remove(waiting.frontier, prio, k);
                self.lemma_sweep_take(waiting, k);
                lemma_count_false_bounds(waiting.visited, n as int);
                assert(is_best_slot(waiting, prio, k)) by {
                    assert forall|j: int| 0 <= j < waiting.frontier.len() implies prio[
                    #[trigger] waiting.frontier[j] as int] <= prio[waiting.frontier[k] as int] by {
                        lemma_tagged_holds(waiting.frontier, prio, j);
                    }
                }
                s = waiting.take(k);
                picks = earlier.push(k);
                assert(picks.drop_last() =~= earlier);
                self.lemma_processed_push(result.processed@, waiting.popped, current as int);
            }
            result.processed.push(self.nodes[current]);

            if current == end {
                let (found, Ghost(chain)) = self.construct_path(
                    result,
                    &came_from,
                    end,
                    Ghost(s.rank),
                    Ghost(s.root),
                );
                proof {
                    self.lemma_chain_is_path(s.came_from, s.rank, s.root, chain, end as int);
                    assert(Seq::<GridNode>::empty() + self.cells_at(chain) =~= self.cells_at(chain));
                    if start == end {
                        self.lemma_chain_at_root(s.came_from, s.rank, s.root, chain);
                        assert(self.cells_at(chain).reverse() =~= seq![start_node]);
                    }
                    self.lemma_processed_reachable(
                        found.processed@,
                        waiting.popped.update(current as int, true),
                        s,
                    );
                    let g = self.greedy_after(start as int, end as int, picks);
                    assert(g == (Greed {
                        sweep: s,
                        priority: prio,
                        listed: found.processed@,
                        found: true,
                    }));
                    assert(is_chain(g.sweep.came_from, chain, end as int, g.sweep.root));
                    assert(self.greedy_reports(start as int, end as int, picks, found));
                }
                return found;
            }
            let (Ghost(after), Ghost(ranked)) = self.greedy_expand(
                current,
                end,
                &mut frontier,
                &mut visited,
                &mut came_from,
                Ghost(s),
                Ghost(prio),
            );
            proof {
                s = after;
                prio = ranked;
                lemma_count_false_bounds(s.visited, n as int);
            }
        }
        proof {
            assert(s.frontier.len() == 0) by {
                if s.frontier.len() > 0 {
                    lemma_tagged_remove(s.frontier, prio, 0);
                }
            }
            assert(self.greedy_reports(start as int, end as int, picks, result));
            assert forall|c: GridNode| #[trigger] self.reachable(start_node, c) implies result.processed@.contains(
                c,
            ) by {
                let p = choose|p: Seq<GridNode>| self.is_path(p, start_node, c);
                self.lemma_sweep_exhausted(s, p);
                self.lemma_walk_last_cell(p);
                self.lemma_cell_at(c.x as int, c.y as int);
            }
            if self.reachable(start_node, end_node) {
                let p = choose|p: Seq<GridNode>| self.is_path(p, start_node, end_node);
                self.lemma_sweep_exhausted(s, p);
                self.lemma_node_is_cell(end as int);
            }
            assert(in_tree(s.came_from, s.root, s.root));
            self.lemma_processed_reachable(result.processed@, s.popped, s);
            self.lemma_node_is_cell(start as int);
            assert(self.is_path(seq![start_node], start_node, start_node));
            assert(result.processed@.contains(start_node));
        }
        result
    }
}

} // verus!
