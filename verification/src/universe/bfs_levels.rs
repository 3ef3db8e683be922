use super::bfs::Sweep;
use super::forest::in_tree;
use super::forest::is_chain;
use super::grid_node::GridNode;
use super::universe::Universe;
use vstd::prelude::*;

verus! {

impl Universe {
    /// The rank of cell `i` is one more than that of the cell it was
    /// discovered from.
    pub open spec fn depth_ok(&self, s: Sweep, i: int) -> bool {
        match s.came_from[i] {
            Some(p) => s.rank[i] == s.rank[p as int] + 1,
            None => true,
        }
    }

    /// A breadth-first sweep works level by level: ranks count the moves
    /// from the root, every expanded cell ranks at most `level`, the queue
    /// holds cells of rank `level` followed by cells of rank `level + 1`,
    /// and a move out of an expanded cell raises the rank by one at most.
    /// `level` is the rank of the cell taken from the queue last.
    pub open spec fn levels_ok(&self, s: Sweep, level: int, current: Option<int>) -> bool {
        let n = self.nodes@.len();
        &&& s.rank[s.root] == 0
        &&& 0 <= level
        &&& forall|i: int| 0 <= i < n ==> #[trigger] self.depth_ok(s, i)
        &&& forall|i: int| 0 <= i < n && #[trigger] s.popped[i] ==> s.rank[i] <= level
        &&& forall|k: int|
            0 <= k < s.frontier.len() ==> level <= s.rank[#[trigger] s.frontier[k] as int] <= level
                + 1
        &&& forall|k: int, l: int|
            0 <= k <= l < s.frontier.len() ==> s.rank[#[trigger] s.frontier[k] as int]
                <= s.rank[#[trigger] s.frontier[l] as int]
        &&& forall|i: int, j: int|
            0 <= i < n && 0 <= j < n && s.popped[i] && #[trigger] self.is_step(
                self.nodes@[i],
                self.nodes@[j],
            ) ==> s.rank[j] <= s.rank[i] + 1
        &&& (current matches Some(c) ==> s.rank[c] == level)
    }

    /// A sweep that has only discovered its root is at level 0.
    pub proof fn lemma_levels_start(&self, root: int)
        requires
            self.wf(),
            0 <= root < self.nodes@.len(),
        ensures
            self.levels_ok(self.sweep_start(root), 0, None),
    {
        let s = self.sweep_start(root);
        assert forall|i: int| 0 <= i < self.nodes@.len() implies #[trigger] self.depth_ok(s, i) by {}
    }

    /// Taking the oldest cell from the queue moves the sweep to that cell's level.
    pub proof fn lemma_levels_pop(&self, s: Sweep, level: int)
        requires
            self.wf(),
            self.sweep_ok(s, None),
            self.levels_ok(s, level, None),
            s.frontier.len() > 0,
        ensures
            self.levels_ok(s.pop(), s.rank[s.frontier[0] as int], Some(s.frontier[0] as int)),
    {
        let t = s.pop();
        let c = s.frontier[0] as int;
        let n = self.nodes@.len();
        assert forall|i: int| 0 <= i < n implies #[trigger] self.depth_ok(t, i) by {
            assert(self.depth_ok(s, i));
        }
        assert forall|k: int| 0 <= k < t.frontier.len() implies s.rank[c] <= t.rank[
        #[trigger] t.frontier[k] as int] <= s.rank[c] + 1 by {
            assert(t.frontier[k] == s.frontier[k + 1]);
        }
        assert forall|k: int, l: int| 0 <= k <= l < t.frontier.len() implies t.rank[
        #[trigger] t.frontier[k] as int] <= t.rank[#[trigger] t.frontier[l] as int] by {
            assert(t.frontier[k] == s.frontier[k + 1]);
            assert(t.frontier[l] == s.frontier[l + 1]);
        }
    }

    /// Discovering an unvisited neighbour of the cell being expanded puts a
    /// cell of the next level at the end of the queue.
    pub proof fn lemma_levels_discover(&self, s: Sweep, level: int, current: int, found: int)
        requires
            self.wf(),
            self.sweep_ok(s, Some(current)),
            self.levels_ok(s, level, Some(current)),
            0 <= found < self.nodes@.len(),
            !s.visited[found],
        ensures
            self.levels_ok(s.discover(current, found), level, Some(current)),
    {
        let t = s.discover(current, found);
        let n = self.nodes@.len();
        assert(in_tree(s.came_from, s.root, s.root));
        assert(found != s.root);
        assert(found != current);
        assert forall|i: int| 0 <= i < n implies #[trigger] self.depth_ok(t, i) by {
            assert(self.depth_ok(s, i));
            assert(self.link_ok(s.came_from, s.rank, s.root, i));
            if i != found {
                match s.came_from[i] {
                    Some(p) => {
                        assert(s.visited[p as int]);
                    },
                    None => {},
                }
            }
        }
        assert forall|k: int| 0 <= k < t.frontier.len() implies level <= t.rank[
        #[trigger] t.frontier[k] as int] <= level + 1 by {
            if k < s.frontier.len() {
                assert(t.frontier[k] == s.frontier[k]);
                assert(s.visited[s.frontier[k] as int]);
            }
        }
        assert forall|k: int, l: int| 0 <= k <= l < t.frontier.len() implies t.rank[
        #[trigger] t.frontier[k] as int] <= t.rank[#[trigger] t.frontier[l] as int] by {
            if k < s.frontier.len() {
                assert(t.frontier[k] == s.frontier[k]);
                assert(s.visited[s.frontier[k] as int]);
            }
            if l < s.frontier.len() {
                assert(t.frontier[l] == s.frontier[l]);
                assert(s.visited[s.frontier[l] as int]);
            }
        }
        assert forall|i: int, j: int|
            0 <= i < n && 0 <= j < n && t.popped[i] && #[trigger] self.is_step(
                self.nodes@[i],
                self.nodes@[j],
            ) implies t.rank[j] <= t.rank[i] + 1 by {
            assert(s.visited[j]);
            assert(s.visited[i]);
        }
        assert forall|i: int| 0 <= i < n && #[trigger] t.popped[i] implies t.rank[i] <= level by {
            assert(s.visited[i]);
        }
    }

    /// Once every neighbour of the cell being expanded is discovered, the
    /// cell joins the expanded cells of its level.
    pub proof fn lemma_levels_finish(&self, s: Sweep, level: int, current: int)
        requires
            self.wf(),
            self.sweep_ok(s, Some(current)),
            self.levels_ok(s, level, Some(current)),
            forall|j: int|
                0 <= j < self.nodes@.len() && #[trigger] self.is_step(
                    self.nodes@[current],
                    self.nodes@[j],
                ) ==> s.visited[j],
        ensures
            self.levels_ok(s.finish(current), level, None),
    {
        let t = s.finish(current);
        let n = self.nodes@.len();
        assert forall|i: int| 0 <= i < n implies #[trigger] self.depth_ok(t, i) by {
            assert(self.depth_ok(s, i));
        }
        assert forall|i: int, j: int|
            0 <= i < n && 0 <= j < n && t.popped[i] && #[trigger] self.is_step(
                self.nodes@[i],
                self.nodes@[j],
            ) implies t.rank[j] <= t.rank[i] + 1 by {
            if i == current {
                assert(s.visited[j]);
                if !s.popped[j] && j != current {
                    let k = choose|k: int| 0 <= k < s.frontier.len() && s.frontier[k] == j as usize;
                    assert(s.rank[s.frontier[k] as int] <= level + 1);
                }
            }
        }
    }

    /// Every walk from the root with no more moves than the present level
    /// ends in a visited cell whose rank is no higher than the number of
    /// its moves; with fewer moves than the level the cell was expanded.
    pub proof fn lemma_levels_walk(&self, s: Sweep, level: int, current: Option<int>, p: Seq<GridNode>)
        requires
            self.wf(),
            self.sweep_ok(s, current),
            self.levels_ok(s, level, current),
            self.is_walk(p),
            p[0] == self.nodes@[s.root],
            p.len() - 1 <= level,
        ensures
            ({
                let t = self.index_of_cell(p.last());
                &&& 0 <= t < self.nodes@.len()
                &&& s.visited[t]
                &&& s.rank[t] <= p.len() - 1
                &&& p.len() - 1 < level ==> s.popped[t]
            }),
        decreases p.len(),
    {
        let t = self.index_of_cell(p.last());
        self.lemma_walk_last_cell(p);
        self.lemma_cell_at(p.last().x as int, p.last().y as int);
        if p.len() == 1 {
            self.lemma_node_is_cell(s.root);
            assert(in_tree(s.came_from, s.root, s.root));
            assert(s.visited[s.root]);
        } else {
            let q = p.drop_last();
            self.lemma_walk_prefix(p, p.len() - 1);
            assert(p.take(p.len() - 1) =~= q);
            self.lemma_levels_walk(s, level, current, q);
            let a = self.index_of_cell(q.last());
            assert(self.is_step(p[p.len() - 2], p[p.len() - 1]));
            self.lemma_cell_at(q.last().x as int, q.last().y as int);
            assert(self.is_step(self.nodes@[a], self.nodes@[t]));
            assert(s.visited[t]);
        }
        if !s.popped[t] {
            if current != Some(t) {
                let k = choose|k: int| 0 <= k < s.frontier.len() && s.frontier[k] == t as usize;
                assert(level <= s.rank[s.frontier[k] as int]);
            }
        }
    }

    /// The rank of a visited cell is the least number of moves that lead to
    /// it from the root: no walk from the root to it has fewer moves.
    pub proof fn lemma_rank_is_depth(&self, s: Sweep, level: int, current: Option<int>, p: Seq<GridNode>)
        requires
            self.wf(),
            self.sweep_ok(s, current),
            self.levels_ok(s, level, current),
            self.is_walk(p),
            p[0] == self.nodes@[s.root],
            s.visited[self.index_of_cell(p.last())],
        ensures
            s.rank[self.index_of_cell(p.last())] <= p.len() - 1,
    {
        let t = self.index_of_cell(p.last());
        self.lemma_walk_last_cell(p);
        self.lemma_cell_at(p.last().x as int, p.last().y as int);
        if p.len() - 1 <= level {
            self.lemma_levels_walk(s, level, current, p);
        } else if !s.popped[t] && current != Some(t) {
            let k = choose|k: int| 0 <= k < s.frontier.len() && s.frontier[k] == t as usize;
            assert(s.rank[s.frontier[k] as int] <= level + 1);
        }
    }

    /// When the cell `end` is taken from the queue, no path from the root
    /// to it has fewer moves than its rank.
    pub proof fn lemma_levels_shortest(&self, s: Sweep, level: int, end: int, p: Seq<GridNode>)
        requires
            self.wf(),
            self.sweep_ok(s, Some(end)),
            self.levels_ok(s, level, Some(end)),
            self.is_path(p, self.nodes@[s.root], self.nodes@[end]),
        ensures
            s.rank[end] <= p.len() - 1,
    {
        self.lemma_node_is_cell(end);
        self.lemma_rank_is_depth(s, level, Some(end), p);
    }

    /// A chain of predecessors from a cell back to the root has one cell
    /// more than the rank of the cell it starts at.
    pub proof fn lemma_chain_depth(&self, s: Sweep, level: int, current: Option<int>, chain: Seq<int>, from: int)
        requires
            self.wf(),
            self.sweep_ok(s, current),
            self.levels_ok(s, level, current),
            is_chain(s.came_from, chain, from, s.root),
        ensures
            chain.len() == s.rank[from] + 1,
        decreases chain.len(),
    {
        if chain.len() > 1 {
            let rest = chain.drop_first();
            assert(s.came_from[chain[0]] == Some(chain[1] as usize));
            assert(self.depth_ok(s, from));
            assert forall|k: int| 0 <= k < rest.len() - 1 implies s.came_from[#[trigger] rest[k]] == Some(
                rest[k + 1] as usize,
            ) by {
                assert(rest[k] == chain[k + 1]);
                assert(s.came_from[chain[k + 1]] == Some(chain[k + 2] as usize));
            }
            assert forall|k: int| 0 <= k < rest.len() implies 0 <= #[trigger] rest[k]
                < s.came_from.len() by {
                assert(rest[k] == chain[k + 1]);
            }
            self.lemma_chain_depth(s, level, current, rest, chain[1]);
        }
    }

    /// Some path from the root to a visited cell has as many moves as the
    /// rank of the cell.
    pub proof fn lemma_rank_walk(&self, s: Sweep, level: int, current: Option<int>, i: int) -> (p: Seq<
        GridNode,
    >)
        requires
            self.wf(),
            self.sweep_ok(s, current),
            self.levels_ok(s, level, current),
            0 <= i < self.nodes@.len(),
            s.visited[i],
        ensures
            self.is_path(p, self.nodes@[s.root], self.nodes@[i]),
            p.len() == s.rank[i] + 1,
        decreases s.rank[i],
    {
        assert(self.link_ok(s.came_from, s.rank, s.root, i));
        assert(self.depth_ok(s, i));
        assert(in_tree(s.came_from, s.root, i));
        match s.came_from[i] {
            Some(before) => {
                assert(s.visited[before as int]);
                let q = self.lemma_rank_walk(s, level, current, before as int);
                self.lemma_walk_push(q, self.nodes@[i]);
                q.push(self.nodes@[i])
            },
            None => {
                self.lemma_node_is_cell(s.root);
                seq![self.nodes@[s.root]]
            },
        }
    }

    /// No move leads from a cell the start side has expanded into a cell the
    /// end side has expanded.
    pub open spec fn no_crossing(&self, by_start: Seq<bool>, by_end: Seq<bool>) -> bool {
        forall|x: int, y: int|
            0 <= x < self.nodes@.len() && 0 <= y < self.nodes@.len() && by_start[x] && by_end[y]
                ==> !#[trigger] self.is_step(self.nodes@[x], self.nodes@[y])
    }

    /// The start side expanding a cell that the end side has not visited
    /// opens no move from an expanded cell of the start side into one of
    /// the end side.
    pub proof fn lemma_no_crossing_forward(&self, s: Sweep, e: Sweep, current: int)
        requires
            self.wf(),
            exists|c: Option<int>| self.sweep_ok(s, c),
            self.sweep_ok(e, None),
            self.no_crossing(s.popped, e.popped),
            0 <= current < self.nodes@.len(),
            s.visited[current],
            !e.visited[current],
            current == s.root ==> forall|y: int| 0 <= y < self.nodes@.len() ==> !e.popped[y],
        ensures
            self.no_crossing(s.popped.update(current, true), e.popped),
    {
        let n = self.nodes@.len();
        let more = s.popped.update(current, true);
        assert forall|x: int, y: int| 0 <= x < n && 0 <= y < n && more[x] && e.popped[y] implies !#[trigger] self.is_step(
            self.nodes@[x],
            self.nodes@[y],
        ) by {
            if x == current && self.is_step(self.nodes@[x], self.nodes@[y]) {
                if current != s.root {
                    assert(in_tree(s.came_from, s.root, current));
                    assert(self.link_ok(s.came_from, s.rank, s.root, current));
                    assert(self.nodes@[current].passable);
                    assert(self.is_step(self.nodes@[y], self.nodes@[current]));
                    assert(e.visited[current]);
                }
            }
        }
    }

    /// The end side expanding a cell that the start side has not visited
    /// opens no move from an expanded cell of the start side into one of
    /// the end side.
    pub proof fn lemma_no_crossing_backward(&self, s: Sweep, e: Sweep, current: int)
        requires
            self.wf(),
            self.sweep_ok(s, None),
            e.popped.len() == self.nodes@.len(),
            self.no_crossing(s.popped, e.popped),
            0 <= current < self.nodes@.len(),
            !s.visited[current],
        ensures
            self.no_crossing(s.popped, e.popped.update(current, true)),
    {
        let n = self.nodes@.len();
        let more = e.popped.update(current, true);
        assert forall|x: int, y: int| 0 <= x < n && 0 <= y < n && s.popped[x] && more[y] implies !#[trigger] self.is_step(
            self.nodes@[x],
            self.nodes@[y],
        ) by {
            if y == current && self.is_step(self.nodes@[x], self.nodes@[y]) {
                assert(s.visited[current]);
            }
        }
    }

    /// The ranks that the two sides of a bidirectional breadth-first search
    /// give to a cell both have visited add up to a number of moves that
    /// differs by an even number from that of any path from start to end.
    pub proof fn lemma_meeting_parity(
        &self,
        s: Sweep,
        start_level: int,
        start_current: Option<int>,
        e: Sweep,
        end_level: int,
        end_current: Option<int>,
        m: int,
        q: Seq<GridNode>,
    )
        requires
            self.wf(),
            self.sweep_ok(s, start_current),
            self.levels_ok(s, start_level, start_current),
            self.sweep_ok(e, end_current),
            self.levels_ok(e, end_level, end_current),
            0 <= m < self.nodes@.len(),
            s.visited[m],
            e.visited[m],
            self.is_path(q, self.nodes@[s.root], self.nodes@[e.root]),
        ensures
            (s.rank[m] + e.rank[m] - (q.len() - 1)) % 2 == 0,
            0 <= s.rank[m],
            0 <= e.rank[m],
    {
        let from_start = self.lemma_rank_walk(s, start_level, start_current, m);
        let from_end = self.lemma_rank_walk(e, end_level, end_current, m);
        self.lemma_walk_open(from_start);
        self.lemma_walk_open(from_end);
        self.lemma_open_walk_reverse(from_end);
        if from_end.len() > 1 {
            assert(self.is_step(from_end[from_end.len() - 2], from_end[from_end.len() - 1]));
        }
        self.lemma_open_walks_join(from_start, from_end.reverse());
        let through = from_start + from_end.reverse().drop_first();
        self.lemma_walk_open(q);
        self.lemma_same_ends_same_parity(through, q);
        assert(through.len() == s.rank[m] + e.rank[m] + 1);
    }

    /// When the start side takes from its queue a cell that the end side
    /// has visited, the two ranks of the cell add up to at most one move
    /// more than any path from start to end has.
    pub proof fn lemma_meeting_forward(
        &self,
        s: Sweep,
        e: Sweep,
        end_level: int,
        m: int,
        q: Seq<GridNode>,
    )
        requires
            self.wf(),
            self.sweep_ok(s, Some(m)),
            self.levels_ok(s, s.rank[m], Some(m)),
            self.sweep_ok(e, None),
            self.levels_ok(e, end_level, None),
            0 <= m < self.nodes@.len(),
            e.visited[m],
            self.no_crossing(s.popped, e.popped),
            !s.popped[e.root],
            self.is_path(q, self.nodes@[s.root], self.nodes@[e.root]),
        ensures
            s.rank[m] + e.rank[m] <= q.len(),
    {
        let a = s.rank[m];
        let b = e.rank[m];
        let len = q.len() - 1;
        self.lemma_node_is_cell(s.root);
        self.lemma_node_is_cell(e.root);
        self.lemma_node_is_cell(m);
        self.lemma_rank_bound(e, end_level, None, m);
        if a + b <= q.len() {
        } else if a > len {
            self.lemma_levels_walk(s, a, Some(m), q);
        } else if a == 0 {
            assert(m == s.root) by {
                assert(self.depth_ok(s, m));
                assert(self.link_ok(s.came_from, s.rank, s.root, m));
                assert(in_tree(s.came_from, s.root, m));
            }
            assert(in_tree(e.came_from, e.root, m));
            if m != e.root {
                assert(self.link_ok(e.came_from, e.rank, e.root, m));
            } else {
                assert(len == 0) by {
                    self.lemma_levels_start_rank(e, end_level, None);
                }
            }
            self.lemma_walk_back(q, 0);
            assert(q.skip(0) =~= q);
            self.lemma_rank_is_depth(e, end_level, None, q.reverse());
        } else {
            self.lemma_walk_prefix(q, a);
            self.lemma_levels_walk(s, a, Some(m), q.take(a));
            assert(self.is_step(q[a - 1], q[a]));
            self.lemma_walk_back(q, a);
            self.lemma_levels_walk(e, end_level, None, q.skip(a).reverse());
            let x = self.index_of_cell(q[a - 1]);
            let y = self.index_of_cell(q[a]);
            assert(q.take(a).last() == q[a - 1]);
            self.lemma_cell_at(q[a - 1].x as int, q[a - 1].y as int);
            self.lemma_cell_at(q[a].x as int, q[a].y as int);
            assert(self.is_step(self.nodes@[x], self.nodes@[y]));
        }
    }

    /// When the end side takes from its queue a cell that the start side
    /// has visited, the two ranks of the cell add up to at most one move
    /// more than any path from start to end has.
    pub proof fn lemma_meeting_backward(
        &self,
        s: Sweep,
        start_level: int,
        e: Sweep,
        m: int,
        q: Seq<GridNode>,
    )
        requires
            self.wf(),
            self.sweep_ok(s, None),
            self.levels_ok(s, start_level, None),
            self.sweep_ok(e, Some(m)),
            self.levels_ok(e, e.rank[m], Some(m)),
            0 <= m < self.nodes@.len(),
            s.visited[m],
            self.no_crossing(s.popped, e.popped),
            s.popped[s.root],
            !s.popped[e.root],
            self.is_path(q, self.nodes@[s.root], self.nodes@[e.root]),
        ensures
            s.rank[m] + e.rank[m] <= q.len(),
    {
        let a = s.rank[m];
        let b = e.rank[m];
        let len = q.len() - 1;
        self.lemma_node_is_cell(s.root);
        self.lemma_node_is_cell(e.root);
        self.lemma_node_is_cell(m);
        self.lemma_rank_bound(s, start_level, None, m);
        if a + b <= q.len() {
        } else if len == 0 {
            assert(q[0] == q.last());
        } else if b > len {
            assert(self.is_step(q[0], q[1]));
            self.lemma_walk_back(q, 1);
            self.lemma_levels_walk(e, b, Some(m), q.skip(1).reverse());
            let y = self.index_of_cell(q[1]);
            self.lemma_cell_at(q[1].x as int, q[1].y as int);
            assert(self.is_step(self.nodes@[s.root], self.nodes@[y]));
        } else if b == 0 {
            assert(m == e.root) by {
                assert(self.depth_ok(e, m));
                assert(self.link_ok(e.came_from, e.rank, e.root, m));
                assert(in_tree(e.came_from, e.root, m));
            }
            self.lemma_rank_is_depth(s, start_level, None, q);
        } else {
            let j = len - b + 1;
            assert(self.is_step(q[j - 1], q[j]));
            self.lemma_walk_back(q, j);
            self.lemma_levels_walk(e, b, Some(m), q.skip(j).reverse());
            self.lemma_walk_prefix(q, j);
            self.lemma_levels_walk(s, start_level, None, q.take(j));
            let x = self.index_of_cell(q[j - 1]);
            let y = self.index_of_cell(q[j]);
            assert(q.take(j).last() == q[j - 1]);
            self.lemma_cell_at(q[j - 1].x as int, q[j - 1].y as int);
            self.lemma_cell_at(q[j].x as int, q[j].y as int);
            assert(self.is_step(self.nodes@[x], self.nodes@[y]));
        }
    }

    /// When one side of a bidirectional breadth-first search takes from its
    /// queue a cell `m` that the other side has visited, the ranks of `m`
    /// on the two sides add up to no more moves than any path from the
    /// start to the end has.
    pub proof fn lemma_meeting_is_shortest(
        &self,
        s: Sweep,
        start_level: int,
        start_current: Option<int>,
        e: Sweep,
        end_level: int,
        end_current: Option<int>,
        m: int,
        q: Seq<GridNode>,
    )
        requires
            self.wf(),
            self.sweep_ok(s, start_current),
            self.levels_ok(s, start_level, start_current),
            self.sweep_ok(e, end_current),
            self.levels_ok(e, end_level, end_current),
            (start_current == Some(m) && end_current is None) || (end_current == Some(m)
                && start_current is None),
            0 <= m < self.nodes@.len(),
            s.visited[m],
            e.visited[m],
            self.no_crossing(s.popped, e.popped),
            !s.popped[e.root],
            end_current == Some(m) ==> s.popped[s.root],
            self.is_path(q, self.nodes@[s.root], self.nodes@[e.root]),
        ensures
            s.rank[m] + e.rank[m] <= q.len() - 1,
    {
        self.lemma_meeting_parity(s, start_level, start_current, e, end_level, end_current, m, q);
        if start_current == Some(m) {
            self.lemma_meeting_forward(s, e, end_level, m, q);
        } else {
            self.lemma_meeting_backward(s, start_level, e, m, q);
        }
    }

    /// The root of a sweep ranks zero.
    pub proof fn lemma_levels_start_rank(&self, s: Sweep, level: int, current: Option<int>)
        requires
            self.levels_ok(s, level, current),
        ensures
            s.rank[s.root] == 0,
    {
    }

    /// A visited cell ranks at most one above the present level, and never
    /// below zero.
    pub proof fn lemma_rank_bound(&self, s: Sweep, level: int, current: Option<int>, i: int)
        requires
            self.wf(),
            self.sweep_ok(s, current),
            self.levels_ok(s, level, current),
            0 <= i < self.nodes@.len(),
            s.visited[i],
        ensures
            0 <= s.rank[i] <= level + 1,
    {
        if !s.popped[i] && current != Some(i) {
            assert(s.frontier.contains(i as usize));
            let k = choose|k: int| 0 <= k < s.frontier.len() && s.frontier[k] == i as usize;
            assert(s.rank[s.frontier[k] as int] <= level + 1);
        }
    }
}

} // verus!
