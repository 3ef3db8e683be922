use super::forest::count_false;
use super::forest::filled;
use super::forest::in_tree;
use super::forest::is_chain;
use super::forest::lemma_count_false_bounds;
use super::forest::lemma_count_false_set;
use super::grid_node::GridNode;
use super::neighbors::cells_of;
use super::path_result::PathResult;
use super::universe::Universe;
use vstd::prelude::*;

verus! {

/// The state of a depth-first search over the grid, as the proofs see it.
pub struct Dive {
    /// The cells waiting on the stack, the next one to be taken last.  A
    /// cell can wait more than once.
    pub stack: Seq<usize>,
    /// For each cell, whether it has been taken from the stack.
    pub visited: Seq<bool>,
    /// For each cell, the cell from which it was last put on the stack.
    pub came_from: Seq<Option<usize>>,
    /// For each visited cell, how many cells were visited before it.
    pub rank: Seq<int>,
    /// The cell the search started from.
    pub root: int,
}

/// Number of entries of `stack` whose cell is already marked in `visited`.
pub open spec fn stale(stack: Seq<usize>, visited: Seq<bool>) -> int
    decreases stack.len(),
{
    if stack.len() == 0 {
        0
    } else {
        stale(stack.drop_last(), visited) + if visited[stack.last() as int] {
            1int
        } else {
            0int
        }
    }
}

/// The number of stale entries is never negative.
pub proof fn lemma_stale_bounds(stack: Seq<usize>, visited: Seq<bool>)
    ensures
        0 <= stale(stack, visited),
    decreases stack.len(),
{
    if stack.len() > 0 {
        lemma_stale_bounds(stack.drop_last(), visited);
    }
}

impl Dive {
    /// How many cells have been visited.
    pub open spec fn clock(self) -> int {
        self.visited.len() - count_false(self.visited, self.visited.len() as int)
    }

    /// The search after the last cell was taken from the stack and marked.
    pub open spec fn pop(self) -> Dive {
        let current = self.stack.last() as int;
        if self.visited[current] {
            Dive { stack: self.stack.drop_last(), ..self }
        } else {
            Dive {
                stack: self.stack.drop_last(),
                visited: self.visited.update(current, true),
                rank: self.rank.update(current, self.clock()),
                ..self
            }
        }
    }

    /// The cell recorded as the predecessor of cell `i`, if any, is visited.
    pub open spec fn entered_from_visited(self, i: int) -> bool {
        match self.came_from[i] {
            Some(p) => self.visited[p as int],
            None => true,
        }
    }

    /// The search after `found` was put on the stack from `current`.
    pub open spec fn discover(self, current: int, found: int) -> Dive {
        Dive {
            stack: self.stack.push(found as usize),
            came_from: self.came_from.update(found, Some(current as usize)),
            ..self
        }
    }
}

impl Universe {
    /// The invariant of a depth-first search.  `current` is the cell that
    /// has been taken from the stack and is being expanded, if any.
    pub open spec fn dive_ok(&self, d: Dive, current: Option<int>) -> bool {
        let n = self.nodes@.len();
        &&& d.visited.len() == n
        &&& self.is_forest(d.came_from, d.rank, d.root)
        &&& forall|i: int|
            0 <= i < n ==> if #[trigger] d.visited[i] {
                0 <= d.rank[i] < d.clock() && in_tree(d.came_from, d.root, i) && d.visited[d.root]
            } else {
                d.rank[i] == n + 1
            }
        &&& forall|i: int|
            0 <= i < n && #[trigger] in_tree(d.came_from, d.root, i) ==> d.visited[i]
                || d.stack.contains(i as usize)
        &&& forall|k: int|
            0 <= k < d.stack.len() ==> (#[trigger] d.stack[k]) < n && in_tree(
                d.came_from,
                d.root,
                d.stack[k] as int,
            )
        &&& forall|i: int| 0 <= i < n ==> #[trigger] d.entered_from_visited(i)
        &&& forall|i: int, j: int|
            0 <= i < n && 0 <= j < n && d.visited[i] && Some(i) != current && #[trigger] self.is_step(
                self.nodes@[i],
                self.nodes@[j],
            ) ==> in_tree(d.came_from, d.root, j)
        &&& (current matches Some(c) ==> 0 <= c < n && d.visited[c])
    }

    /// The search that has only put its root on the stack.
    pub open spec fn dive_start(&self, root: int) -> Dive {
        let n = self.nodes@.len();
        Dive {
            stack: seq![root as usize],
            visited: Seq::new(n, |i: int| false),
            came_from: Seq::new(n, |i: int| None),
            rank: Seq::new(n, |i: int| (n + 1) as int),
            root,
        }
    }

    /// A search that has only put its root on the stack satisfies the invariant.
    pub proof fn lemma_dive_start(&self, root: int)
        requires
            self.wf(),
            0 <= root < self.nodes@.len(),
        ensures
            self.dive_ok(self.dive_start(root), None),
    {
        let d = self.dive_start(root);
        assert forall|i: int| 0 <= i < self.nodes@.len() implies #[trigger] self.link_ok(
            d.came_from,
            d.rank,
            d.root,
            i,
        ) by {}
        assert(d.stack[0] == root);
        assert(d.stack.contains(root as usize));
    }

    /// Taking the last cell from the stack and marking it keeps the
    /// invariant, with that cell as the one being expanded; either one more
    /// cell is visited or one stale entry less waits on the stack.
    pub proof fn lemma_dive_pop(&self, d: Dive)
        requires
            self.wf(),
            self.dive_ok(d, None),
            d.stack.len() > 0,
        ensures
            self.dive_ok(d.pop(), Some(d.stack.last() as int)),
            d.pop().visited == d.visited.update(d.stack.last() as int, true),
            d.pop().came_from == d.came_from,
            d.visited[d.stack.last() as int] ==> {
                &&& count_false(d.pop().visited, self.nodes@.len() as int) == count_false(
                    d.visited,
                    self.nodes@.len() as int,
                )
                &&& stale(d.pop().stack, d.pop().visited) == stale(d.stack, d.visited) - 1
            },
            !d.visited[d.stack.last() as int] ==> count_false(
                d.pop().visited,
                self.nodes@.len() as int,
            ) == count_false(d.visited, self.nodes@.len() as int) - 1,
            0 <= count_false(d.pop().visited, self.nodes@.len() as int),
    {
        let t = d.pop();
        let c = d.stack.last() as int;
        let n = self.nodes@.len() as int;
        assert(d.stack[d.stack.len() - 1] == c);
        assert(in_tree(d.came_from, d.root, c));
        lemma_count_false_bounds(d.visited, n);
        assert forall|k: int| 0 <= k < t.stack.len() implies (#[trigger] t.stack[k]) < n && in_tree(
            t.came_from,
            t.root,
            t.stack[k] as int,
        ) by {
            assert(t.stack[k] == d.stack[k]);
        }
        assert forall|i: int| 0 <= i < n && #[trigger] in_tree(t.came_from, t.root, i) implies t.visited[i]
            || t.stack.contains(i as usize) by {
            if !t.visited[i] {
                assert(d.stack.contains(i as usize));
                let k = choose|k: int| 0 <= k < d.stack.len() && d.stack[k] == i as usize;
                assert(t.stack[k] == i as usize);
            }
        }
        if d.visited[c] {
            assert(t.visited =~= d.visited.update(c, true));
            lemma_count_false_bounds(t.visited, n);
            assert forall|i: int| 0 <= i < n implies #[trigger] t.entered_from_visited(i) by {
                assert(d.entered_from_visited(i));
            }
        } else {
            lemma_count_false_set(d.visited, c, n);
            lemma_count_false_bounds(t.visited, n);
            assert(c == d.root || d.came_from[c] is Some);
            assert(d.visited[d.root] || c == d.root) by {
                if c != d.root {
                    assert(d.entered_from_visited(c));
                    assert(self.link_ok(d.came_from, d.rank, d.root, c));
                    assert(d.visited[d.came_from[c]->0 as int]);
                }
            }
            assert forall|i: int| 0 <= i < n implies #[trigger] self.link_ok(
                t.came_from,
                t.rank,
                t.root,
                i,
            ) by {
                assert(self.link_ok(d.came_from, d.rank, d.root, i));
                assert(d.entered_from_visited(i));
            }
            assert forall|i: int| 0 <= i < n implies #[trigger] t.entered_from_visited(i) by {
                assert(d.entered_from_visited(i));
                assert(self.link_ok(d.came_from, d.rank, d.root, i));
            }
            assert forall|i: int, j: int|
                0 <= i < n && 0 <= j < n && t.visited[i] && Some(i) != Some(c) && #[trigger] self.is_step(
                    self.nodes@[i],
                    self.nodes@[j],
                ) implies in_tree(t.came_from, t.root, j) by {
                assert(d.visited[i]);
            }
        }
    }

    /// Putting an unvisited neighbour of the cell being expanded on the
    /// stack keeps the invariant and adds no stale entry.
    pub proof fn lemma_dive_discover(&self, d: Dive, current: int, found: int)
        requires
            self.wf(),
            self.dive_ok(d, Some(current)),
            0 <= found < self.nodes@.len(),
            !d.visited[found],
            self.is_step(self.nodes@[current], self.nodes@[found]),
        ensures
            self.dive_ok(d.discover(current, found), Some(current)),
            stale(d.discover(current, found).stack, d.visited) == stale(d.stack, d.visited),
    {
        let t = d.discover(current, found);
        let n = self.nodes@.len() as int;
        assert(found != current);
        assert(d.visited[d.root]);
        assert(found != d.root);
        assert(t.stack.drop_last() =~= d.stack);
        lemma_count_false_bounds(d.visited, n);
        assert forall|i: int| 0 <= i < n implies #[trigger] self.link_ok(
            t.came_from,
            t.rank,
            t.root,
            i,
        ) by {
            assert(self.link_ok(d.came_from, d.rank, d.root, i));
            assert(d.entered_from_visited(i));
        }
        assert forall|i: int| 0 <= i < n implies #[trigger] t.entered_from_visited(i) by {
            assert(d.entered_from_visited(i));
        }
        assert forall|k: int| 0 <= k < t.stack.len() implies (#[trigger] t.stack[k]) < n && in_tree(
            t.came_from,
            t.root,
            t.stack[k] as int,
        ) by {
            if k < d.stack.len() {
                assert(t.stack[k] == d.stack[k]);
            }
        }
        assert forall|i: int| 0 <= i < n && #[trigger] in_tree(t.came_from, t.root, i) implies t.visited[i]
            || t.stack.contains(i as usize) by {
            if i == found {
                assert(t.stack[d.stack.len() as int] == found as usize);
            } else if !t.visited[i] {
                assert(in_tree(d.came_from, d.root, i));
                let k = choose|k: int| 0 <= k < d.stack.len() && d.stack[k] == i as usize;
                assert(t.stack[k] == i as usize);
            }
        }
        assert forall|i: int, j: int|
            0 <= i < n && 0 <= j < n && t.visited[i] && Some(i) != Some(current) && #[trigger] self.is_step(
                self.nodes@[i],
                self.nodes@[j],
            ) implies in_tree(t.came_from, t.root, j) by {
            assert(in_tree(d.came_from, d.root, j));
        }
    }

    /// Once every neighbour of the cell being expanded is visited or on the
    /// stack, the invariant holds again between steps.
    pub proof fn lemma_dive_finish(&self, d: Dive, current: int)
        requires
            self.wf(),
            self.dive_ok(d, Some(current)),
            forall|j: int|
                0 <= j < self.nodes@.len() && #[trigger] self.is_step(
                    self.nodes@[current],
                    self.nodes@[j],
                ) ==> in_tree(d.came_from, d.root, j),
        ensures
            self.dive_ok(d, None),
    {
    }

    /// When the stack has run empty the search has visited every cell that
    /// can be reached from its root.
    pub proof fn lemma_dive_exhausted(&self, d: Dive)
        requires
            self.wf(),
            self.dive_ok(d, None),
            d.stack.len() == 0,
        ensures
            forall|c: GridNode| #[trigger]
                self.reachable(self.nodes@[d.root], c) ==> self.is_cell(c) && d.visited[self.index_of_cell(
                    c,
                )],
    {
        let n = self.nodes@.len() as int;
        assert forall|i: int| 0 <= i < n && in_tree(d.came_from, d.root, i) implies d.visited[i] by {
            if !d.visited[i] {
                assert(d.stack.contains(i as usize));
            }
        }
        assert(in_tree(d.came_from, d.root, d.root));
        assert(self.expands_into(d.visited, d.visited)) by {
            assert forall|i: int, j: int|
                0 <= i < n && 0 <= j < n && d.visited[i] && #[trigger] self.is_step(
                    self.nodes@[i],
                    self.nodes@[j],
                ) implies d.visited[j] by {
                assert(in_tree(d.came_from, d.root, j));
            }
        }
        assert forall|c: GridNode| #[trigger]
            self.reachable(self.nodes@[d.root], c) implies self.is_cell(c) && d.visited[self.index_of_cell(
            c,
        )] by {
            let p = choose|p: Seq<GridNode>| self.is_path(p, self.nodes@[d.root], c);
            self.lemma_node_is_cell(d.root);
            self.lemma_closed_holds_walk(d.visited, p);
            self.lemma_walk_last_cell(p);
        }
    }

    /// Every cell in a list that covers the visited cells can be reached
    /// from the root of the search.
    pub proof fn lemma_dive_reachable(&self, processed: Seq<GridNode>, d: Dive, current: Option<int>)
        requires
            self.wf(),
            self.dive_ok(d, current),
            self.covers(processed, d.visited),
        ensures
            forall|k: int|
                0 <= k < processed.len() ==> self.reachable(
                    self.nodes@[d.root],
                    #[trigger] processed[k],
                ),
    {
        assert forall|k: int| 0 <= k < processed.len() implies self.reachable(
            self.nodes@[d.root],
            #[trigger] processed[k],
        ) by {
            let c = processed[k];
            self.lemma_cell_at(c.x as int, c.y as int);
            let i = self.index_of_cell(c);
            assert(d.visited[i]);
            self.lemma_tree_reaches(d.came_from, d.rank, d.root, i);
        }
    }

    /// The search after the first `k` neighbours of the cell `current` were
    /// looked at, in neighbour order: each one not visited yet is put on the
    /// stack.
    pub open spec fn dive_discovered(&self, d: Dive, current: int, k: int) -> Dive
        decreases k,
    {
        if k <= 0 {
            d
        } else {
            let before = self.dive_discovered(d, current, k - 1);
            let c = self.nodes@[current];
            let found = self.index_of_cell(self.neighbors(c.x as int, c.y as int)[k - 1]);
            if before.visited[found] {
                before
            } else {
                before.discover(current, found)
            }
        }
    }

    /// The search after the cell `current`, taken from the stack, was expanded.
    pub open spec fn dive_expanded(&self, d: Dive, current: int) -> Dive {
        let c = self.nodes@[current];
        self.dive_discovered(d, current, self.neighbors(c.x as int, c.y as int).len() as int)
    }

    /// Looking at the first `k` neighbours of the cell being expanded keeps
    /// the invariant, adds no stale entry and leaves every one of them
    /// visited or on the stack.
    pub proof fn lemma_dive_discovered(&self, d: Dive, current: int, k: int)
        requires
            self.wf(),
            self.dive_ok(d, Some(current)),
            0 <= current < self.nodes@.len(),
            0 <= k <= self.neighbors(
                self.nodes@[current].x as int,
                self.nodes@[current].y as int,
            ).len(),
        ensures
            self.dive_ok(self.dive_discovered(d, current, k), Some(current)),
            self.dive_discovered(d, current, k).visited == d.visited,
            self.dive_discovered(d, current, k).root == d.root,
            stale(self.dive_discovered(d, current, k).stack, d.visited) == stale(d.stack, d.visited),
            forall|i: int|
                0 <= i < k ==> {
                    let j = self.index_of_cell(
                        #[trigger] self.neighbors(
                            self.nodes@[current].x as int,
                            self.nodes@[current].y as int,
                        )[i],
                    );
                    0 <= j < self.nodes@.len() && in_tree(
                        self.dive_discovered(d, current, k).came_from,
                        d.root,
                        j,
                    )
                },
        decreases k,
    {
        if k > 0 {
            self.lemma_dive_discovered(d, current, k - 1);
            let before = self.dive_discovered(d, current, k - 1);
            let after = self.dive_discovered(d, current, k);
            let c = self.nodes@[current];
            let all = self.neighbors(c.x as int, c.y as int);
            self.lemma_node_is_cell(current);
            self.lemma_neighbor_is_step(c.x as int, c.y as int, k - 1);
            self.lemma_cell_at(all[k - 1].x as int, all[k - 1].y as int);
            let found = self.index_of_cell(all[k - 1]);
            if !before.visited[found] {
                self.lemma_dive_discover(before, current, found);
            }
            assert forall|i: int| 0 <= i < k implies {
                let j = self.index_of_cell(#[trigger] all[i]);
                0 <= j < self.nodes@.len() && in_tree(after.came_from, d.root, j)
            } by {
                let j = self.index_of_cell(all[i]);
                if i < k - 1 {
                    assert(in_tree(before.came_from, d.root, j));
                }
            }
        }
    }

    /// Expanding the cell taken from the stack restores the invariant
    /// between steps and adds no stale entry.
    pub proof fn lemma_dive_expanded(&self, d: Dive, current: int)
        requires
            self.wf(),
            self.dive_ok(d, Some(current)),
            0 <= current < self.nodes@.len(),
        ensures
            self.dive_ok(self.dive_expanded(d, current), None),
            self.dive_expanded(d, current).visited == d.visited,
            self.dive_expanded(d, current).root == d.root,
            stale(self.dive_expanded(d, current).stack, d.visited) == stale(d.stack, d.visited),
    {
        let c = self.nodes@[current];
        let all = self.neighbors(c.x as int, c.y as int);
        let after = self.dive_expanded(d, current);
        self.lemma_dive_discovered(d, current, all.len() as int);
        self.lemma_node_is_cell(current);
        assert forall|j: int|
            0 <= j < self.nodes@.len() && #[trigger] self.is_step(
                self.nodes@[current],
                self.nodes@[j],
            ) implies in_tree(after.came_from, after.root, j) by {
            let b = self.nodes@[j];
            self.lemma_neighbors_are_steps(c.x as int, c.y as int, b);
            let k = choose|k: int| 0 <= k < all.len() && all[k] == b;
            self.lemma_node_is_cell(j);
            assert(self.index_of_cell(all[k]) == j);
        }
        self.lemma_dive_finish(after, current);
    }

    /// Depth-first search step by step: the cell put on the stack last is
    /// taken from it, marked and listed; if it is the cell `end` the search
    /// has found it, otherwise the cell is expanded and the search goes on.
    /// Yields the state the search ends in, the cells listed, and whether
    /// `end` was found.
    pub open spec fn dfs_run(&self, d: Dive, listed: Seq<GridNode>, end: int) -> (
        Dive,
        Seq<GridNode>,
        bool,
    )
        decreases count_false(d.visited, self.nodes@.len() as int), stale(d.stack, d.visited),
        when self.wf() && self.dive_ok(d, None)
        via Self::dfs_run_ends
    {
        if d.stack.len() == 0 {
            (d, listed, false)
        } else {
            let current = d.stack.last() as int;
            let more = listed.push(self.nodes@[current]);
            if current == end {
                (d.pop(), more, true)
            } else {
                self.dfs_run(self.dive_expanded(d.pop(), current), more, end)
            }
        }
    }

    /// Every step of a depth-first search visits one more cell or takes a
    /// stale entry from the stack.
    #[via_fn]
    proof fn dfs_run_ends(&self, d: Dive, listed: Seq<GridNode>, end: int) {
        if d.stack.len() > 0 {
            let current = d.stack.last() as int;
            self.lemma_dive_pop(d);
            self.lemma_dive_expanded(d.pop(), current);
            lemma_stale_bounds(d.stack, d.visited);
            lemma_stale_bounds(self.dive_expanded(d.pop(), current).stack, d.pop().visited);
        }
    }

    /// Depth-first search from the cell `start` for the cell `end`, run
    /// until the stack is empty or `end` is found.
    pub open spec fn depth_first(&self, start: int, end: int) -> (Dive, Seq<GridNode>, bool) {
        self.dfs_run(self.dive_start(start), Seq::empty(), end)
    }

    /// `result` is what a search that ended as `outcome` returns:
    /// the cells listed, and the path that follows the predecessors back
    /// from `end` if `end` was found, no path otherwise.
    pub open spec fn dive_reports(
        &self,
        outcome: (Dive, Seq<GridNode>, bool),
        end: int,
        result: PathResult,
    ) -> bool {
        &&& result.processed@ == outcome.1
        &&& if outcome.2 {
            exists|chain: Seq<int>|
                {
                    &&& #[trigger] is_chain(outcome.0.came_from, chain, end, outcome.0.root)
                    &&& result.path@ == self.cells_at(chain).reverse()
                }
        } else {
            result.path@.len() == 0
        }
    }

    /// Puts the neighbours of `current` that have not been visited yet on
    /// the stack, in neighbour order, each with `current` as its
    /// predecessor, whether or not it waits on the stack already.
    pub(crate) fn dive_expand(
        &self,
        current: usize,
        frontier: &mut Vec<usize>,
        visited: &Vec<bool>,
        came_from: &mut Vec<Option<usize>>,
        Ghost(before): Ghost<Dive>,
    ) -> (after: Ghost<Dive>)
        requires
            self.wf(),
            self.dive_ok(before, Some(current as int)),
            old(frontier)@ == before.stack,
            visited@ == before.visited,
            old(came_from)@ == before.came_from,
        ensures
            after@ == self.dive_expanded(before, current as int),
            self.dive_ok(after@, None),
            final(frontier)@ == after@.stack,
            visited@ == after@.visited,
            final(came_from)@ == after@.came_from,
            after@.root == before.root,
            stale(after@.stack, after@.visited) == stale(before.stack, before.visited),
    {
        let ghost n = self.nodes@.len();
        let node = self.nodes[current];
        proof {
            self.lemma_node_is_cell(current as int);
        }
        let neighbors = self.get_neighbors(node.x, node.y);
        let ghost mut d = before;
        let mut t: usize = 0;
        while t < neighbors.len()
            invariant
                self.wf(),
                t <= neighbors@.len(),
                cells_of(neighbors@) == self.neighbors(node.x as int, node.y as int),
                node == self.nodes@[current as int],
                self.in_bounds(node.x as int, node.y as int),
                self.cell(node.x as int, node.y as int) == node,
                self.dive_ok(d, Some(current as int)),
                d == self.dive_discovered(before, current as int, t as int),
                frontier@ == d.stack,
                visited@ == d.visited,
                came_from@ == d.came_from,
                d.root == before.root,
                d.visited == before.visited,
                stale(d.stack, d.visited) == stale(before.stack, before.visited),
                n == self.nodes@.len(),
                forall|k: int|
                    0 <= k < t ==> {
                        let j = self.index_of_cell(
                            #[trigger] self.neighbors(node.x as int, node.y as int)[k],
                        );
                        0 <= j < n && in_tree(d.came_from, d.root, j)
                    },
            decreases neighbors@.len() - t,
        {
            let neighbor = neighbors[t];
            proof {
                assert(cells_of(neighbors@)[t as int] == *neighbor);
                self.lemma_neighbor_is_step(node.x as int, node.y as int, t as int);
                self.lemma_cell_at(neighbor.x as int, neighbor.y as int);
            }
            let found = self.get_index(neighbor.x, neighbor.y);
            assert(self.neighbors(node.x as int, node.y as int)[t as int] == *neighbor);
            assert(self.nodes@[found as int] == *neighbor);
            if !visited[found] {
                proof {
                    self.lemma_dive_discover(d, current as int, found as int);
                    let earlier = d;
                    d = d.discover(current as int, found as int);
                    assert forall|k: int| 0 <= k < t implies {
                        let j = self.index_of_cell(
                            #[trigger] self.neighbors(node.x as int, node.y as int)[k],
                        );
                        0 <= j < n && in_tree(d.came_from, d.root, j)
                    } by {
                        let j = self.index_of_cell(self.neighbors(node.x as int, node.y as int)[k]);
                        assert(in_tree(earlier.came_from, earlier.root, j));
                    }
                }
                came_from.set(found, Some(current));
                frontier.push(found);
            }
            t += 1;
        }
        proof {
            assert forall|j: int|
                0 <= j < n && #[trigger] self.is_step(
                    self.nodes@[current as int],
                    self.nodes@[j],
                ) implies in_tree(d.came_from, d.root, j) by {
                let b = self.nodes@[j];
                self.lemma_neighbors_are_steps(node.x as int, node.y as int, b);
                let all = self.neighbors(node.x as int, node.y as int);
                let k = choose|k: int| 0 <= k < all.len() && all[k] == b;
                self.lemma_node_is_cell(j);
                assert(self.index_of_cell(all[k]) == j);
            }
            self.lemma_dive_finish(d, current as int);
        }
        Ghost(d)
    }

    /// Depth-first search from `(start_x, start_y)` to `(end_x, end_y)`.
    ///
    /// The stack is last in, first out.  A cell is marked when it is taken
    /// from the stack, not when it is put there, so a cell can wait on the
    /// stack several times; each time it is taken it is processed again and
    /// its unvisited neighbours are put on the stack once more.  The search
    /// stops when the end cell is taken from the stack.
    pub fn dfs(&self, start_x: i32, start_y: i32, end_x: i32, end_y: i32) -> (result: PathResult)
        requires
            self.wf(),
            self.in_bounds(start_x as int, start_y as int),
            self.in_bounds(end_x as int, end_y as int),
        ensures
            self.search_result(
                self.cell(start_x as int, start_y as int),
                self.cell(end_x as int, end_y as int),
                result,
            ),
            self.dive_reports(
                self.depth_first(
                    self.index_of(start_x as int, start_y as int),
                    self.index_of(end_x as int, end_y as int),
                ),
                self.index_of(end_x as int, end_y as int),
                result,
            ),
    {
        let n = self.nodes.len();
        let mut result = PathResult { path: Vec::new(), processed: Vec::new() };
        let mut frontier: Vec<usize> = Vec::new();

        let start = self.get_index(start_x, start_y);
        let end = self.get_index(end_x, end_y);
        let ghost start_node = self.nodes@[start as int];
        let ghost end_node = self.nodes@[end as int];

        let mut came_from: Vec<Option<usize>> = filled(n, None);
        let mut visited: Vec<bool> = filled(n, false);

        frontier.push(start);

        let ghost mut d = self.dive_start(start as int);
        let ghost outcome = self.depth_first(start as int, end as int);
        proof {
            assert(result.processed@ =~= Seq::<GridNode>::empty());
            self.lemma_dive_start(start as int);
            assert(frontier@ =~= d.stack);
            assert(visited@ =~= d.visited);
            assert(came_from@ =~= d.came_from);
            lemma_count_false_bounds(d.visited, n as int);
            lemma_stale_bounds(d.stack, d.visited);
        }

        while frontier.len() > 0
            invariant
                self.wf(),
                n == self.nodes@.len(),
                start < n,
                end < n,
                start_node == self.nodes@[start as int],
                end_node == self.nodes@[end as int],
                start_node == self.cell(start_x as int, start_y as int),
                end_node == self.cell(end_x as int, end_y as int),
                self.dive_ok(d, None),
                self.dfs_run(d, result.processed@, end as int) == outcome,
                outcome == self.depth_first(
                    self.index_of(start_x as int, start_y as int),
                    self.index_of(end_x as int, end_y as int),
                ),
                end == self.index_of(end_x as int, end_y as int),
                d.root == start,
                frontier@ == d.stack,
                visited@ == d.visited,
                came_from@ == d.came_from,
                !d.visited[end as int],
                result.path@.len() == 0,
                self.covers(result.processed@, d.visited),
                result.processed@.len() > 0 ==> result.processed@[0] == start_node,
                result.processed@.len() == 0 ==> d.stack =~= seq![start],
                0 <= count_false(d.visited, n as int),
                0 <= stale(d.stack, d.visited),
            decreases count_false(d.visited, n as int), stale(d.stack, d.visited),
        {
            let ghost waiting = d;
            proof {
                self.lemma_dive_pop(waiting);
                d = waiting.pop();
                lemma_stale_bounds(d.stack, d.visited);
            }
            let current = frontier.pop().unwrap();
            proof {
                assert(frontier@ =~= d.stack);
                self.lemma_covers_push(result.processed@, waiting.visited, current as int);
            }
            result.processed.push(self.nodes[current]);
            visited.set(current, true);

            if current == end {
                let (found, Ghost(chain)) = self.construct_path(
                    result,
                    &came_from,
                    end,
                    Ghost(d.rank),
                    Ghost(d.root),
                );
                proof {
                    self.lemma_chain_is_path(d.came_from, d.rank, d.root, chain, end as int);
                    assert(Seq::<GridNode>::empty() + self.cells_at(chain) =~= self.cells_at(chain));
                    if start == end {
                        self.lemma_chain_at_root(d.came_from, d.rank, d.root, chain);
                        assert(self.cells_at(chain).reverse() =~= seq![start_node]);
                    }
                    self.lemma_dive_reachable(found.processed@, d, Some(current as int));
                    assert(outcome == (d, found.processed@, true));
                    assert(is_chain(outcome.0.came_from, chain, end as int, outcome.0.root));
                }
                return found;
            }
            let Ghost(after) = self.dive_expand(
                current,
                &mut frontier,
                &visited,
                &mut came_from,
                Ghost(d),
            );
            proof {
                assert(self.dfs_run(after, result.processed@, end as int) == outcome);
                d = after;
            }
        }
        proof {
            assert(outcome == (d, result.processed@, false));
            self.lemma_dive_exhausted(d);
            self.lemma_dive_reachable(result.processed@, d, None);
            assert forall|c: GridNode| #[trigger]
                self.reachable(start_node, c) implies result.processed@.contains(c) by {
                self.lemma_cell_at(c.x as int, c.y as int);
                assert(d.visited[self.index_of_cell(c)]);
            }
            assert(!self.reachable(start_node, end_node)) by {
                if self.reachable(start_node, end_node) {
                    self.lemma_node_is_cell(end as int);
                }
            }
            self.lemma_node_is_cell(start as int);
            assert(self.is_path(seq![start_node], start_node, start_node));
            assert(self.reachable(start_node, start_node));
            assert(result.processed@.contains(start_node));
        }
        result
    }
}

} // verus!
