use super::forest::count_false;
use super::forest::filled;
use super::forest::in_tree;
use super::forest::is_chain;
use super::forest::lemma_count_false_bounds;
use super::forest::lemma_count_false_set;
use super::grid_node::GridNode;
use super::neighbors::cells_of;
use super::path_result::PathResult;
use super::universe::Universe;
use std::collections::VecDeque;
use vstd::prelude::*;

verus! {

/// The state of one breadth-first sweep over the grid, as the proofs see it.
pub struct Sweep {
    /// Cells discovered and not yet taken from the queue, oldest first.
    pub frontier: Seq<usize>,
    /// For each cell, whether the sweep has discovered it.
    pub visited: Seq<bool>,
    /// For each cell, the cell it was discovered from.
    pub came_from: Seq<Option<usize>>,
    /// For each discovered cell, the number of moves that led to it.
    pub rank: Seq<int>,
    /// For each cell, whether it was taken from the queue and expanded.
    pub popped: Seq<bool>,
    /// The cell the sweep started from.
    pub root: int,
}

impl Sweep {
    /// The sweep with one more cell discovered from `current`.
    pub open spec fn discover(self, current: int, found: int) -> Sweep {
        Sweep {
            frontier: self.frontier.push(found as usize),
            visited: self.visited.update(found, true),
            came_from: self.came_from.update(found, Some(current as usize)),
            rank: self.rank.update(found, self.rank[current] + 1),
            popped: self.popped,
            root: self.root,
        }
    }

    /// The sweep after its oldest discovered cell was taken from the queue.
    pub open spec fn pop(self) -> Sweep {
        Sweep { frontier: self.frontier.subrange(1, self.frontier.len() as int), ..self }
    }

    /// The sweep after the cell in slot `k` of the queue was taken from it.
    pub open spec fn take(self, k: int) -> Sweep {
        Sweep { frontier: self.frontier.remove(k), ..self }
    }

    /// The sweep with `current` recorded as expanded.
    pub open spec fn finish(self, current: int) -> Sweep {
        Sweep { popped: self.popped.update(current, true), ..self }
    }

    /// What is left to do: the cells not yet discovered plus those waiting
    /// in the queue.
    pub open spec fn work_left(self) -> int {
        count_false(self.visited, self.visited.len() as int) + self.frontier.len()
    }
}

impl Universe {
    /// The invariant of a breadth-first sweep.  `current` is the cell that
    /// has been taken from the queue and is being expanded, if any.
    pub open spec fn sweep_ok(&self, s: Sweep, current: Option<int>) -> bool {
        let n = self.nodes@.len();
        &&& s.visited.len() == n
        &&& s.popped.len() == n
        &&& self.is_forest(s.came_from, s.rank, s.root)
        &&& forall|i: int| 0 <= i < n ==> 0 <= #[trigger] s.rank[i]
        &&& forall|i: int| 0 <= i < n ==> (#[trigger] s.visited[i] <==> in_tree(s.came_from, s.root, i))
        &&& forall|k: int|
            0 <= k < s.frontier.len() ==> {
                let f = #[trigger] s.frontier[k];
                &&& f < n
                &&& s.visited[f as int]
                &&& !s.popped[f as int]
                &&& current != Some(f as int)
            }
        &&& forall|k: int, l: int|
            0 <= k < l < s.frontier.len() ==> #[trigger] s.frontier[k] != #[trigger] s.frontier[l]
        &&& forall|i: int|
            0 <= i < n && #[trigger] s.visited[i] ==> s.popped[i] || s.frontier.contains(i as usize)
                || current == Some(i)
        &&& forall|i: int| 0 <= i < n && #[trigger] s.popped[i] ==> s.visited[i]
        &&& (current matches Some(c) ==> 0 <= c < n && s.visited[c] && !s.popped[c])
        &&& self.expands_into(s.popped, s.visited)
    }

    /// The sweep that has discovered its root and nothing else.
    pub open spec fn sweep_start(&self, root: int) -> Sweep {
        let n = self.nodes@.len();
        Sweep {
            frontier: seq![root as usize],
            visited: Seq::new(n, |i: int| i == root),
            came_from: Seq::new(n, |i: int| None),
            rank: Seq::new(n, |i: int| 0int),
            popped: Seq::new(n, |i: int| false),
            root,
        }
    }

    /// A sweep that has only discovered its root satisfies the invariant.
    pub proof fn lemma_sweep_start(&self, root: int)
        requires
            self.wf(),
            0 <= root < self.nodes@.len(),
        ensures
            self.sweep_ok(self.sweep_start(root), None),
    {
        let s = self.sweep_start(root);
        assert forall|i: int| 0 <= i < self.nodes@.len() implies #[trigger] self.link_ok(
            s.came_from,
            s.rank,
            s.root,
            i,
        ) by {}
        assert(s.frontier[0] == root);
        assert(s.frontier.contains(root as usize));
    }

    /// Taking a cell from the queue keeps the invariant, with that cell as
    /// the one being expanded.
    pub proof fn lemma_sweep_take(&self, s: Sweep, k: int)
        requires
            self.wf(),
            self.sweep_ok(s, None),
            0 <= k < s.frontier.len(),
        ensures
            self.sweep_ok(s.take(k), Some(s.frontier[k] as int)),
            s.take(k).work_left() == s.work_left() - 1,
    {
        let t = s.take(k);
        let c = s.frontier[k] as int;
        let n = self.nodes@.len();
        assert forall|j: int| 0 <= j < t.frontier.len() implies {
            let f = #[trigger] t.frontier[j];
            &&& f < n
            &&& t.visited[f as int]
            &&& !t.popped[f as int]
            &&& Some(c) != Some(f as int)
        } by {
            if j < k {
                assert(t.frontier[j] == s.frontier[j]);
            } else {
                assert(t.frontier[j] == s.frontier[j + 1]);
            }
        }
        assert forall|j: int, l: int| 0 <= j < l < t.frontier.len() implies #[trigger] t.frontier[j]
            != #[trigger] t.frontier[l] by {
            let j0 = if j < k {
                j
            } else {
                j + 1
            };
            let l0 = if l < k {
                l
            } else {
                l + 1
            };
            assert(t.frontier[j] == s.frontier[j0]);
            assert(t.frontier[l] == s.frontier[l0]);
        }
        assert forall|i: int| 0 <= i < n && #[trigger] t.visited[i] implies t.popped[i]
            || t.frontier.contains(i as usize) || Some(c) == Some(i) by {
            if !t.popped[i] && i != c {
                assert(s.frontier.contains(i as usize));
                let j = choose|j: int| 0 <= j < s.frontier.len() && s.frontier[j] == i as usize;
                if j < k {
                    assert(t.frontier[j] == i as usize);
                } else {
                    assert(t.frontier[j - 1] == i as usize);
                }
            }
        }
    }

    /// Taking the oldest cell from the queue keeps the invariant, with that
    /// cell as the one being expanded.
    pub proof fn lemma_sweep_pop(&self, s: Sweep)
        requires
            self.wf(),
            self.sweep_ok(s, None),
            s.frontier.len() > 0,
        ensures
            self.sweep_ok(s.pop(), Some(s.frontier[0] as int)),
            s.pop().work_left() == s.work_left() - 1,
    {
        self.lemma_sweep_take(s, 0);
        assert(s.pop().frontier =~= s.take(0).frontier);
    }

    /// Discovering an unvisited neighbour of the cell being expanded keeps
    /// the invariant and the amount of work left.
    pub proof fn lemma_sweep_discover(&self, s: Sweep, current: int, found: int)
        requires
            self.wf(),
            self.sweep_ok(s, Some(current)),
            0 <= found < self.nodes@.len(),
            !s.visited[found],
            self.is_step(self.nodes@[current], self.nodes@[found]),
        ensures
            self.sweep_ok(s.discover(current, found), Some(current)),
            s.discover(current, found).work_left() == s.work_left(),
    {
        let t = s.discover(current, found);
        let n = self.nodes@.len();
        assert(found != current);
        assert(found != s.root) by {
            assert(in_tree(s.came_from, s.root, s.root));
        }
        assert forall|i: int| 0 <= i < n implies #[trigger] self.link_ok(
            t.came_from,
            t.rank,
            t.root,
            i,
        ) by {
            assert(self.link_ok(s.came_from, s.rank, s.root, i));
            if i == found {
                assert(in_tree(s.came_from, s.root, current));
            } else {
                match s.came_from[i] {
                    Some(p) => {
                        assert(s.visited[p as int]);
                    },
                    None => {},
                }
            }
        }
        assert(self.is_forest(t.came_from, t.rank, t.root));
        assert forall|k: int| 0 <= k < t.frontier.len() implies {
            let f = #[trigger] t.frontier[k];
            &&& f < n
            &&& t.visited[f as int]
            &&& !t.popped[f as int]
            &&& Some(current) != Some(f as int)
        } by {
            if k < s.frontier.len() {
                assert(t.frontier[k] == s.frontier[k]);
            }
        }
        assert forall|k: int, l: int| 0 <= k < l < t.frontier.len() implies #[trigger] t.frontier[k]
            != #[trigger] t.frontier[l] by {
            assert(t.frontier[k] == s.frontier[k]);
            if l < s.frontier.len() {
                assert(t.frontier[l] == s.frontier[l]);
            }
        }
        assert forall|i: int| 0 <= i < n && #[trigger] t.visited[i] implies t.popped[i]
            || t.frontier.contains(i as usize) || Some(current) == Some(i) by {
            if i == found {
                assert(t.frontier[s.frontier.len() as int] == found as usize);
            } else if !t.popped[i] && i != current {
                assert(s.visited[i]);
                let k = choose|k: int| 0 <= k < s.frontier.len() && s.frontier[k] == i as usize;
                assert(t.frontier[k] == i as usize);
            }
        }
        assert(self.expands_into(t.popped, t.visited)) by {
            assert forall|i: int, j: int|
                0 <= i < n && 0 <= j < n && t.popped[i] && #[trigger] self.is_step(
                    self.nodes@[i],
                    self.nodes@[j],
                ) implies t.visited[j] by {
                assert(s.visited[j]);
            }
        }
        lemma_count_false_set(s.visited, found, n as int);
    }

    /// Once every neighbour of the cell being expanded is discovered, the
    /// cell counts as expanded and the invariant holds again between steps.
    pub proof fn lemma_sweep_finish(&self, s: Sweep, current: int)
        requires
            self.wf(),
            self.sweep_ok(s, Some(current)),
            forall|j: int|
                0 <= j < self.nodes@.len() && #[trigger] self.is_step(
                    self.nodes@[current],
                    self.nodes@[j],
                ) ==> s.visited[j],
        ensures
            self.sweep_ok(s.finish(current), None),
            s.finish(current).work_left() == s.work_left(),
    {
        let t = s.finish(current);
        let n = self.nodes@.len();
        assert forall|k: int| 0 <= k < t.frontier.len() implies {
            let f = #[trigger] t.frontier[k];
            &&& f < n
            &&& t.visited[f as int]
            &&& !t.popped[f as int]
        } by {
            assert(Some(current) != Some(s.frontier[k] as int));
        }
        assert(self.expands_into(t.popped, t.visited)) by {
            assert forall|i: int, j: int|
                0 <= i < n && 0 <= j < n && t.popped[i] && #[trigger] self.is_step(
                    self.nodes@[i],
                    self.nodes@[j],
                ) implies t.visited[j] by {
                if i != current {
                    assert(s.popped[i]);
                }
            }
        }
    }

    /// When the queue has run empty the sweep has discovered and expanded
    /// every cell that can be reached from its root.
    pub proof fn lemma_sweep_exhausted(&self, s: Sweep, p: Seq<GridNode>)
        requires
            self.wf(),
            self.sweep_ok(s, None),
            s.frontier.len() == 0,
            self.is_walk(p),
            p[0] == self.nodes@[s.root],
        ensures
            s.popped[self.index_of_cell(p.last())],
    {
        let n = self.nodes@.len();
        assert forall|i: int| 0 <= i < n && s.visited[i] implies s.popped[i] by {
            if !s.popped[i] {
                assert(s.frontier.contains(i as usize));
            }
        }
        assert(self.expands_into(s.visited, s.visited)) by {
            assert forall|i: int, j: int|
                0 <= i < n && 0 <= j < n && s.visited[i] && #[trigger] self.is_step(
                    self.nodes@[i],
                    self.nodes@[j],
                ) implies s.visited[j] by {
                assert(s.popped[i]);
            }
        }
        assert(in_tree(s.came_from, s.root, s.root));
        self.lemma_node_is_cell(s.root);
        self.lemma_closed_holds_walk(s.visited, p);
        let last = p.last();
        assert(self.is_cell(last)) by {
            if p.len() > 1 {
                assert(self.is_step(p[p.len() - 2], p[p.len() - 1]));
            }
        }
        self.lemma_cell_at(last.x as int, last.y as int);
    }

    /// The sweep after the first `k` neighbours of the cell `current` were
    /// looked at, in neighbour order: each one not visited before is discovered.
    pub open spec fn discovered(&self, s: Sweep, current: int, k: int) -> Sweep
        decreases k,
    {
        if k <= 0 {
            s
        } else {
            let before = self.discovered(s, current, k - 1);
            let c = self.nodes@[current];
            let found = self.index_of_cell(self.neighbors(c.x as int, c.y as int)[k - 1]);
            if before.visited[found] {
                before
            } else {
                before.discover(current, found)
            }
        }
    }

    /// The sweep after the cell `current`, taken from the queue, was expanded.
    pub open spec fn expanded(&self, s: Sweep, current: int) -> Sweep {
        let c = self.nodes@[current];
        self.discovered(s, current, self.neighbors(c.x as int, c.y as int).len() as int).finish(
            current,
        )
    }

    /// Looking at the first `k` neighbours of the cell being expanded keeps
    /// the invariant and the amount of work left, and leaves every one of
    /// them visited.
    pub proof fn lemma_sweep_discovered(&self, s: Sweep, current: int, k: int)
        requires
            self.wf(),
            self.sweep_ok(s, Some(current)),
            0 <= current < self.nodes@.len(),
            0 <= k <= self.neighbors(
                self.nodes@[current].x as int,
                self.nodes@[current].y as int,
            ).len(),
        ensures
            self.sweep_ok(self.discovered(s, current, k), Some(current)),
            self.discovered(s, current, k).work_left() == s.work_left(),
            forall|i: int|
                0 <= i < self.nodes@.len() && s.visited[i] ==> #[trigger] self.discovered(
                    s,
                    current,
                    k,
                ).visited[i],
            forall|i: int|
                0 <= i < k ==> {
                    let j = self.index_of_cell(
                        #[trigger] self.neighbors(
                            self.nodes@[current].x as int,
                            self.nodes@[current].y as int,
                        )[i],
                    );
                    0 <= j < self.nodes@.len() && self.discovered(s, current, k).visited[j]
                },
        decreases k,
    {
        if k > 0 {
            self.lemma_sweep_discovered(s, current, k - 1);
            let before = self.discovered(s, current, k - 1);
            let after = self.discovered(s, current, k);
            let c = self.nodes@[current];
            let all = self.neighbors(c.x as int, c.y as int);
            self.lemma_node_is_cell(current);
            self.lemma_neighbor_is_step(c.x as int, c.y as int, k - 1);
            self.lemma_cell_at(all[k - 1].x as int, all[k - 1].y as int);
            let found = self.index_of_cell(all[k - 1]);
            if !before.visited[found] {
                self.lemma_sweep_discover(before, current, found);
            }
            assert forall|i: int| 0 <= i < self.nodes@.len() && s.visited[i] implies #[trigger] after.visited[i] by {
                assert(before.visited[i]);
            }
            assert forall|i: int| 0 <= i < k implies {
                let j = self.index_of_cell(#[trigger] all[i]);
                0 <= j < self.nodes@.len() && after.visited[j]
            } by {
                let j = self.index_of_cell(all[i]);
                if i < k - 1 {
                    assert(before.visited[j]);
                }
            }
        }
    }

    /// Expanding the cell taken from the queue restores the invariant
    /// between steps and keeps the amount of work left.
    pub proof fn lemma_sweep_expanded(&self, s: Sweep, current: int)
        requires
            self.wf(),
            self.sweep_ok(s, Some(current)),
            0 <= current < self.nodes@.len(),
        ensures
            self.sweep_ok(self.expanded(s, current), None),
            self.expanded(s, current).work_left() == s.work_left(),
    {
        let c = self.nodes@[current];
        let all = self.neighbors(c.x as int, c.y as int);
        let seen = self.discovered(s, current, all.len() as int);
        self.lemma_sweep_discovered(s, current, all.len() as int);
        self.lemma_node_is_cell(current);
        assert forall|j: int|
            0 <= j < self.nodes@.len() && #[trigger] self.is_step(
                self.nodes@[current],
                self.nodes@[j],
            ) implies seen.visited[j] by {
            let b = self.nodes@[j];
            self.lemma_neighbors_are_steps(c.x as int, c.y as int, b);
            let k = choose|k: int| 0 <= k < all.len() && all[k] == b;
            self.lemma_node_is_cell(j);
            assert(self.index_of_cell(all[k]) == j);
        }
        self.lemma_sweep_finish(seen, current);
    }

    /// Breadth-first search step by step: the oldest cell is taken from the
    /// queue and listed; if it is the cell `end` the search has found it,
    /// otherwise the cell is expanded and the search goes on.  Yields the
    /// state the search ends in, the cells listed, and whether `end` was
    /// found.
    pub open spec fn bfs_run(&self, s: Sweep, listed: Seq<GridNode>, end: int) -> (
        Sweep,
        Seq<GridNode>,
        bool,
    )
        decreases s.work_left(),
        when self.wf() && self.sweep_ok(s, None)
        via Self::bfs_run_ends
    {
        if s.frontier.len() == 0 {
            (s, listed, false)
        } else {
            let current = s.frontier[0] as int;
            let more = listed.push(self.nodes@[current]);
            if current == end {
                (s.pop(), more, true)
            } else {
                self.bfs_run(self.expanded(s.pop(), current), more, end)
            }
        }
    }

    /// Every step of a breadth-first search leaves less work.
    #[via_fn]
    proof fn bfs_run_ends(&self, s: Sweep, listed: Seq<GridNode>, end: int) {
        if s.frontier.len() > 0 {
            let current = s.frontier[0] as int;
            self.lemma_sweep_pop(s);
            self.lemma_sweep_expanded(s.pop(), current);
            lemma_count_false_bounds(
                self.expanded(s.pop(), current).visited,
                self.nodes@.len() as int,
            );
        }
    }

    /// Breadth-first search from the cell `start` for the cell `end`, run
    /// until the queue is empty or `end` is found.
    pub open spec fn breadth_first(&self, start: int, end: int) -> (Sweep, Seq<GridNode>, bool) {
        self.bfs_run(self.sweep_start(start), Seq::empty(), end)
    }

    /// `result` is what a search that ended as `outcome` returns:
    /// the cells listed, and the path that follows the predecessors back
    /// from `end` if `end` was found, no path otherwise.
    pub open spec fn reports(
        &self,
        outcome: (Sweep, Seq<GridNode>, bool),
        end: int,
        result: PathResult,
    ) -> bool {
        &&& result.processed@ == outcome.1
        &&& if outcome.2 {
            exists|chain: Seq<int>|
                {
                    &&& #[trigger] is_chain(outcome.0.came_from, chain, end, outcome.0.root)
                    &&& result.path@ == self.cells_at(chain).reverse()
                }
        } else {
            result.path@.len() == 0
        }
    }

    /// Discovers the neighbours of `current` that the sweep has not seen
    /// yet, in neighbour order: each is marked visited, gets `current` as
    /// its predecessor and joins the queue.
    pub(crate) fn sweep_expand(
        &self,
        current: usize,
        frontier: &mut VecDeque<usize>,
        visited: &mut Vec<bool>,
        came_from: &mut Vec<Option<usize>>,
        Ghost(before): Ghost<Sweep>,
        Ghost(level): Ghost<int>,
    ) -> (after: Ghost<Sweep>)
        requires
            self.wf(),
            self.sweep_ok(before, Some(current as int)),
            old(frontier)@ == before.frontier,
            old(visited)@ == before.visited,
            old(came_from)@ == before.came_from,
        ensures
            after@ == self.expanded(before, current as int),
            self.sweep_ok(after@, None),
            self.levels_ok(before, level, Some(current as int)) ==> self.levels_ok(after@, level, None),
            final(frontier)@ == after@.frontier,
            final(visited)@ == after@.visited,
            final(came_from)@ == after@.came_from,
            after@.root == before.root,
            after@.popped == before.popped.update(current as int, true),
            after@.work_left() == before.work_left(),
            forall|i: int|
                0 <= i < self.nodes@.len() && before.visited[i] ==> #[trigger] after@.visited[i]
                    && after@.came_from[i] == before.came_from[i],
    {
        let ghost n = self.nodes@.len();
        let node = self.nodes[current];
        proof {
            self.lemma_node_is_cell(current as int);
        }
        let neighbors = self.get_neighbors(node.x, node.y);
        let ghost mut s = before;
        let mut t: usize = 0;
        while t < neighbors.len()
            invariant
                self.wf(),
                t <= neighbors@.len(),
                cells_of(neighbors@) == self.neighbors(node.x as int, node.y as int),
                node == self.nodes@[current as int],
                self.in_bounds(node.x as int, node.y as int),
                self.cell(node.x as int, node.y as int) == node,
                self.sweep_ok(s, Some(current as int)),
                s == self.discovered(before, current as int, t as int),
                self.levels_ok(before, level, Some(current as int)) ==> self.levels_ok(
                    s,
                    level,
                    Some(current as int),
                ),
                frontier@ == s.frontier,
                visited@ == s.visited,
                came_from@ == s.came_from,
                s.root == before.root,
                s.popped == before.popped,
                s.work_left() == before.work_left(),
                n == self.nodes@.len(),
                before.visited.len() == n,
                before.came_from.len() == n,
                forall|i: int|
                    0 <= i < n && before.visited[i] ==> #[trigger] s.visited[i] && s.came_from[i]
                        == before.came_from[i],
                forall|k: int|
                    0 <= k < t ==> {
                        let j = self.index_of_cell(
                            #[trigger] self.neighbors(node.x as int, node.y as int)[k],
                        );
                        0 <= j < n && s.visited[j]
                    },
            decreases neighbors@.len() - t,
        {
            let neighbor = neighbors[t];
            proof {
                assert(cells_of(neighbors@)[t as int] == *neighbor);
                self.lemma_neighbor_is_step(node.x as int, node.y as int, t as int);
                self.lemma_cell_at(neighbor.x as int, neighbor.y as int);
            }
            let found = self.get_index(neighbor.x, neighbor.y);
            assert(self.neighbors(node.x as int, node.y as int)[t as int] == *neighbor);
            assert(self.nodes@[found as int] == *neighbor);
            if !visited[found] {
                proof {
                    self.lemma_sweep_discover(s, current as int, found as int);
                    if self.levels_ok(s, level, Some(current as int)) {
                        self.lemma_levels_discover(s, level, current as int, found as int);
                    }
                    let earlier = s;
                    s = s.discover(current as int, found as int);
                    assert forall|i: int| 0 <= i < n && before.visited[i] implies #[trigger] s.visited[i]
                        && s.came_from[i] == before.came_from[i] by {
                        assert(earlier.visited[i]);
                    }
                }
                visited.set(found, true);
                came_from.set(found, Some(current));
                frontier.push_back(found);
            }
            t += 1;
        }
        proof {
            assert forall|j: int|
                0 <= j < n && #[trigger] self.is_step(
                    self.nodes@[current as int],
                    self.nodes@[j],
                ) implies s.visited[j] by {
                let b = self.nodes@[j];
                self.lemma_neighbors_are_steps(node.x as int, node.y as int, b);
                let all = self.neighbors(node.x as int, node.y as int);
                let k = choose|k: int| 0 <= k < all.len() && all[k] == b;
                self.lemma_node_is_cell(j);
                assert(self.index_of_cell(all[k]) == j);
            }
            self.lemma_sweep_finish(s, current as int);
            if self.levels_ok(s, level, Some(current as int)) {
                self.lemma_levels_finish(s, level, current as int);
            }
            s = s.finish(current as int);
        }
        Ghost(s)
    }

    /// Breadth-first search from `(start_x, start_y)` to `(end_x, end_y)`.
    ///
    /// The queue is first in, first out; a cell is marked when it joins the
    /// queue and is never queued again.  The search stops when the end cell
    /// is taken from the queue.  `processed` lists the cells taken from the
    /// queue, each once.  The path found is a shortest one: among the
    /// shortest paths it is the one that the neighbour order up, down, left,
    /// right reaches first.
    pub fn bfs(&self, start_x: i32, start_y: i32, end_x: i32, end_y: i32) -> (result: PathResult)
        requires
            self.wf(),
            self.in_bounds(start_x as int, start_y as int),
            self.in_bounds(end_x as int, end_y as int),
        ensures
            self.shortest_result(
                self.cell(start_x as int, start_y as int),
                self.cell(end_x as int, end_y as int),
                result,
            ),
            self.reports(
                self.breadth_first(
                    self.index_of(start_x as int, start_y as int),
                    self.index_of(end_x as int, end_y as int),
                ),
                self.index_of(end_x as int, end_y as int),
                result,
            ),
    {
        let n = self.nodes.len();
        let mut result = PathResult { path: Vec::new(), processed: Vec::new() };
        let mut frontier: VecDeque<usize> = VecDeque::new();

        let start = self.get_index(start_x, start_y);
        let end = self.get_index(end_x, end_y);
        let ghost start_node = self.nodes@[start as int];
        let ghost end_node = self.nodes@[end as int];

        let mut came_from: Vec<Option<usize>> = filled(n, None);
        let mut visited: Vec<bool> = filled(n, false);

        frontier.push_back(start);
        visited.set(start, true);

        let ghost mut s = self.sweep_start(start as int);
        let ghost mut level: int = 0;
        let ghost outcome = self.breadth_first(start as int, end as int);
        proof {
            self.lemma_sweep_start(start as int);
            self.lemma_levels_start(start as int);
            assert(frontier@ =~= s.frontier);
            assert(visited@ =~= s.visited);
            assert(came_from@ =~= s.came_from);
            lemma_count_false_bounds(s.visited, n as int);
            assert(result.processed@ =~= Seq::<GridNode>::empty());
        }

        while frontier.len() > 0
            invariant
                self.wf(),
                n == self.nodes@.len(),
                start < n,
                end < n,
                start_node == self.nodes@[start as int],
                end_node == self.nodes@[end as int],
                self.sweep_ok(s, None),
                self.levels_ok(s, level, None),
                self.bfs_run(s, result.processed@, end as int) == outcome,
                outcome == self.breadth_first(
                    self.index_of(start_x as int, start_y as int),
                    self.index_of(end_x as int, end_y as int),
                ),
                end == self.index_of(end_x as int, end_y as int),
                s.root == start,
                frontier@ == s.frontier,
                visited@ == s.visited,
                came_from@ == s.came_from,
                !s.popped[end as int],
                result.path@.len() == 0,
                self.processed_ok(result.processed@, s.popped),
                start_node == self.cell(start_x as int, start_y as int),
                end_node == self.cell(end_x as int, end_y as int),
                result.processed@.len() > 0 ==> result.processed@[0] == start_node,
                result.processed@.len() == 0 ==> frontier@.len() > 0 && frontier@[0] == start,
            decreases s.work_left(),
        {
            proof {
                self.lemma_sweep_pop(s);
                self.lemma_levels_pop(s, level);
                lemma_count_false_bounds(s.visited, n as int);
            }
            let current = frontier.pop_front().unwrap();
            let ghost taken = s;
            let ghost listed = result.processed@;
            proof {
                level = s.rank[current as int];
                s = s.pop();
                self.lemma_processed_push(result.processed@, taken.popped, current as int);
                lemma_count_false_bounds(s.visited, n as int);
            }
            result.processed.push(self.nodes[current]);

            if current == end {
                let (found, Ghost(chain)) = self.construct_path(
                    result,
                    &came_from,
                    end,
                    Ghost(s.rank),
                    Ghost(s.root),
                );
                proof {
                    self.lemma_chain_is_path(s.came_from, s.rank, s.root, chain, end as int);
                    assert(Seq::<GridNode>::empty() + self.cells_at(chain) =~= self.cells_at(chain));
                    self.lemma_chain_depth(s, level, Some(current as int), chain, end as int);
                    assert forall|q: Seq<GridNode>| #[trigger]
                        self.is_path(q, start_node, end_node) implies found.path@.len() <= q.len() by {
                        self.lemma_levels_shortest(s, level, end as int, q);
                    }
                    if start == end {
                        self.lemma_chain_at_root(s.came_from, s.rank, s.root, chain);
                        assert(self.cells_at(chain).reverse() =~= seq![start_node]);
                    }
                    self.lemma_processed_reachable(
                        found.processed@,
                        taken.popped.update(current as int, true),
                        s,
                    );
                    assert(outcome == (s, found.processed@, true));
                    assert(is_chain(outcome.0.came_from, chain, end as int, outcome.0.root));
                }
                return found;
            }
            let Ghost(after) = self.sweep_expand(
                current,
                &mut frontier,
                &mut visited,
                &mut came_from,
                Ghost(s),
                Ghost(level),
            );
            proof {
                assert(self.bfs_run(taken, listed, end as int) == self.bfs_run(
                    after,
                    result.processed@,
                    end as int,
                ));
                s = after;
            }
        }
        proof {
            assert(outcome == (s, result.processed@, false));
            assert forall|c: GridNode| #[trigger] self.reachable(start_node, c) implies result.processed@.contains(
                c,
            ) by {
                let p = choose|p: Seq<GridNode>| self.is_path(p, start_node, c);
                self.lemma_sweep_exhausted(s, p);
                self.lemma_walk_last_cell(p);
                self.lemma_cell_at(c.x as int, c.y as int);
            }
            if self.reachable(start_node, end_node) {
                let p = choose|p: Seq<GridNode>| self.is_path(p, start_node, end_node);
                self.lemma_sweep_exhausted(s, p);
                self.lemma_node_is_cell(end as int);
            }
            assert(in_tree(s.came_from, s.root, s.root));
            self.lemma_processed_reachable(result.processed@, s.popped, s);
            // the start itself can be reached, so it was processed and is
            // not the end
            self.lemma_node_is_cell(start as int);
            assert(self.is_path(seq![start_node], start_node, start_node));
            assert(result.processed@.contains(start_node));
        }
        result
    }

    /// `processed` lists exactly the cells marked in `popped`, each once,
    /// beginning with the first cell that was marked.
    pub open spec fn processed_ok(&self, processed: Seq<GridNode>, popped: Seq<bool>) -> bool {
        &&& processed.no_duplicates()
        &&& forall|k: int|
            0 <= k < processed.len() ==> {
                let c = #[trigger] processed[k];
                self.is_cell(c) && popped[self.index_of_cell(c)]
            }
        &&& forall|i: int|
            0 <= i < self.nodes@.len() && #[trigger] popped[i] ==> processed.contains(self.nodes@[i])
    }

    /// Recording one more expanded cell keeps `processed` and `popped` in step.
    pub proof fn lemma_processed_push(&self, processed: Seq<GridNode>, popped: Seq<bool>, current: int)
        requires
            self.wf(),
            popped.len() == self.nodes@.len(),
            self.processed_ok(processed, popped),
            0 <= current < self.nodes@.len(),
            !popped[current],
        ensures
            self.processed_ok(processed.push(self.nodes@[current]), popped.update(current, true)),
            processed.len() > 0 ==> processed.push(self.nodes@[current])[0] == processed[0],
    {
        let after = processed.push(self.nodes@[current]);
        let marked = popped.update(current, true);
        self.lemma_node_is_cell(current);
        assert forall|k: int, l: int| 0 <= k < after.len() && 0 <= l < after.len() && k != l implies after[k]
            != after[l] by {
            if k < processed.len() && l < processed.len() {
                assert(processed[k] != processed[l]);
            } else if k < processed.len() {
                assert(popped[self.index_of_cell(processed[k])]);
            } else {
                assert(popped[self.index_of_cell(processed[l])]);
            }
        }
        assert forall|k: int| 0 <= k < after.len() implies {
            let c = #[trigger] after[k];
            self.is_cell(c) && marked[self.index_of_cell(c)]
        } by {
            if k < processed.len() {
                assert(after[k] == processed[k]);
                self.lemma_cell_at(processed[k].x as int, processed[k].y as int);
            }
        }
        assert forall|i: int| 0 <= i < self.nodes@.len() && #[trigger] marked[i] implies after.contains(
            self.nodes@[i],
        ) by {
            if i == current {
                assert(after[processed.len() as int] == self.nodes@[i]);
            } else {
                assert(popped[i]);
                let k = choose|k: int| 0 <= k < processed.len() && processed[k] == self.nodes@[i];
                assert(after[k] == self.nodes@[i]);
            }
        }
    }

    /// Every cell in `processed` can be reached from the root of the sweep.
    pub proof fn lemma_processed_reachable(&self, processed: Seq<GridNode>, popped: Seq<bool>, s: Sweep)
        requires
            self.wf(),
            self.is_forest(s.came_from, s.rank, s.root),
            self.processed_ok(processed, popped),
            forall|i: int|
                0 <= i < self.nodes@.len() && popped[i] ==> #[trigger] in_tree(
                    s.came_from,
                    s.root,
                    i,
                ),
        ensures
            forall|k: int|
                0 <= k < processed.len() ==> self.reachable(
                    self.nodes@[s.root],
                    #[trigger] processed[k],
                ),
    {
        assert forall|k: int| 0 <= k < processed.len() implies self.reachable(
            self.nodes@[s.root],
            #[trigger] processed[k],
        ) by {
            let c = processed[k];
            self.lemma_cell_at(c.x as int, c.y as int);
            let i = self.index_of_cell(c);
            assert(popped[i]);
            assert(in_tree(s.came_from, s.root, i));
            self.lemma_tree_reaches(s.came_from, s.rank, s.root, i);
        }
    }

    /// The last cell of a walk is a cell of the grid.
    pub proof fn lemma_walk_last_cell(&self, p: Seq<GridNode>)
        requires
            self.is_walk(p),
        ensures
            self.is_cell(p.last()),
    {
        if p.len() > 1 {
            assert(self.is_step(p[p.len() - 2], p[p.len() - 1]));
        }
    }
}

} // verus!
