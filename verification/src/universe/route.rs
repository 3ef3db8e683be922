use super::grid_node::GridNode;
use super::path_result::PathResult;
use super::universe::Universe;
use vstd::prelude::*;

verus! {

/// `a` and `b` lie next to each other in a row or in a column.
pub open spec fn adjacent(a: GridNode, b: GridNode) -> bool {
    ||| a.x == b.x && (a.y == b.y + 1 || a.y + 1 == b.y)
    ||| a.y == b.y && (a.x == b.x + 1 || a.x + 1 == b.x)
}

/// Absolute value.
pub open spec fn distance(d: int) -> int {
    if d < 0 {
        -d
    } else {
        d
    }
}

/// Manhattan distance between the positions of `a` and `b`.
pub open spec fn manhattan(a: GridNode, b: GridNode) -> int {
    distance(a.x - b.x) + distance(a.y - b.y)
}

/// One move changes the Manhattan distance to any cell by exactly one.
pub proof fn lemma_one_move_changes_distance(a: GridNode, b: GridNode, c: GridNode)
    requires
        adjacent(b, c),
    ensures
        manhattan(a, c) == manhattan(a, b) + 1 || manhattan(a, c) == manhattan(a, b) - 1,
{
}

/// Two numbers that each differ from a third by an even number differ from
/// each other by an even number.
pub proof fn lemma_even_difference(a: int, b: int, m: int)
    requires
        (a - m) % 2 == 0,
        (b - m) % 2 == 0,
    ensures
        (a - b) % 2 == 0,
{
}

/// Adding one move keeps the number of moves and the distance both even or
/// both odd when the distance changes by one.
pub proof fn lemma_parity_step(moves: int, before: int, after: int)
    requires
        (moves - before) % 2 == 0,
        after == before + 1 || after == before - 1,
    ensures
        (moves + 1 - after) % 2 == 0,
{
}

/// In a sequence of cells each next to the one before it, the number of
/// moves and the Manhattan distance between the ends are both even or both
/// odd, and there are at least as many moves as that distance.
pub proof fn lemma_neighbors_parity(p: Seq<GridNode>)
    requires
        p.len() > 0,
        forall|i: int| 0 < i < p.len() ==> adjacent(p[i - 1], #[trigger] p[i]),
    ensures
        manhattan(p[0], p.last()) <= p.len() - 1,
        (p.len() - 1 - manhattan(p[0], p.last())) % 2 == 0,
    decreases p.len(),
{
    if p.len() > 1 {
        let q = p.drop_last();
        assert forall|i: int| 0 < i < q.len() implies adjacent(q[i - 1], #[trigger] q[i]) by {
            assert(adjacent(p[i - 1], p[i]));
        }
        lemma_neighbors_parity(q);
        assert(adjacent(p[p.len() - 2], p[p.len() - 1]));
        let before = manhattan(p[0], q.last());
        let after = manhattan(p[0], p.last());
        assert(q.last() == p[p.len() - 2]);
        assert(q[0] == p[0]);
        lemma_one_move_changes_distance(p[0], q.last(), p.last());
        lemma_parity_step(q.len() - 1, before, after);
    } else {
        assert(manhattan(p[0], p[0]) == 0);
    }
}

/// Cost of moving into `c`: one for the step plus the cell's weight.
pub open spec fn step_cost(c: GridNode) -> int {
    c.weight + 1
}

/// Total cost of walking along `p`: the cost of entering every cell but the first.
pub open spec fn path_cost(p: Seq<GridNode>) -> int
    decreases p.len(),
{
    if p.len() <= 1 {
        0
    } else {
        path_cost(p.drop_last()) + step_cost(p.last())
    }
}

impl Universe {
    /// One move of a search: from cell `a` into the adjacent, passable cell `b`.
    pub open spec fn is_step(&self, a: GridNode, b: GridNode) -> bool {
        &&& self.is_cell(a)
        &&& self.is_cell(b)
        &&& adjacent(a, b)
        &&& b.passable
    }

    /// `p` is a non-empty sequence of cells of the grid in which every cell
    /// after the first is entered by a move from the cell before it.
    pub open spec fn is_walk(&self, p: Seq<GridNode>) -> bool {
        &&& p.len() > 0
        &&& self.is_cell(p[0])
        &&& forall|i: int| 0 < i < p.len() ==> self.is_step(p[i - 1], #[trigger] p[i])
    }

    /// `p` leads from `start` to `end` by moves into passable cells.
    pub open spec fn is_path(&self, p: Seq<GridNode>, start: GridNode, end: GridNode) -> bool {
        &&& self.is_walk(p)
        &&& p[0] == start
        &&& p.last() == end
    }

    /// Some path leads from `start` to `end`.
    pub open spec fn reachable(&self, start: GridNode, end: GridNode) -> bool {
        exists|p: Seq<GridNode>| self.is_path(p, start, end)
    }

    /// `p` is a path from `start` to `end` and no path between them costs less.
    pub open spec fn is_cheapest_path(
        &self,
        p: Seq<GridNode>,
        start: GridNode,
        end: GridNode,
    ) -> bool {
        &&& self.is_path(p, start, end)
        &&& forall|q: Seq<GridNode>| #[trigger]
            self.is_path(q, start, end) ==> path_cost(p) <= path_cost(q)
    }

    /// Like a walk, except that the last cell need not be passable: every
    /// cell after the first is adjacent to the one before it, and every cell
    /// strictly between the first and the last is passable.
    pub open spec fn is_open_walk(&self, p: Seq<GridNode>) -> bool {
        &&& p.len() > 0
        &&& forall|i: int| 0 <= i < p.len() ==> self.is_cell(#[trigger] p[i])
        &&& forall|i: int| 0 < i < p.len() ==> adjacent(p[i - 1], #[trigger] p[i])
        &&& forall|i: int| 0 < i < p.len() - 1 ==> (#[trigger] p[i]).passable
    }

    /// `p` leads from `start` to `end` through passable cells; `end` itself
    /// need not be passable.
    pub open spec fn is_open_path(&self, p: Seq<GridNode>, start: GridNode, end: GridNode) -> bool {
        &&& self.is_open_walk(p)
        &&& p[0] == start
        &&& p.last() == end
    }

    /// The neighbour at `(x, y)` as a search sees it: the cell there if the
    /// position is in the grid and the cell is passable, nothing otherwise.
    pub open spec fn neighbor_at(&self, x: int, y: int) -> Seq<GridNode> {
        if self.in_bounds(x, y) && self.cell(x, y).passable {
            seq![self.cell(x, y)]
        } else {
            Seq::empty()
        }
    }

    /// The passable cells next to `(x, y)`, in the fixed order up, down, left, right.
    pub open spec fn neighbors(&self, x: int, y: int) -> Seq<GridNode> {
        self.neighbor_at(x, y - 1) + self.neighbor_at(x, y + 1) + self.neighbor_at(x - 1, y)
            + self.neighbor_at(x + 1, y)
    }

    /// The neighbours of a cell are exactly the cells one move away from it.
    pub proof fn lemma_neighbors_are_steps(&self, x: int, y: int, b: GridNode)
        requires
            self.wf(),
            self.in_bounds(x, y),
        ensures
            self.neighbors(x, y).contains(b) <==> self.is_step(self.cell(x, y), b),
    {
        self.lemma_cell_at(x, y);
        let a = self.cell(x, y);
        let up = self.neighbor_at(x, y - 1);
        let down = self.neighbor_at(x, y + 1);
        let left = self.neighbor_at(x - 1, y);
        let right = self.neighbor_at(x + 1, y);
        let all = self.neighbors(x, y);
        if self.in_bounds(x, y - 1) {
            self.lemma_cell_at(x, y - 1);
        }
        if self.in_bounds(x, y + 1) {
            self.lemma_cell_at(x, y + 1);
        }
        if self.in_bounds(x - 1, y) {
            self.lemma_cell_at(x - 1, y);
        }
        if self.in_bounds(x + 1, y) {
            self.lemma_cell_at(x + 1, y);
        }
        if all.contains(b) {
            let k = choose|k: int| 0 <= k < all.len() && all[k] == b;
            assert(self.is_step(a, b));
        }
        if self.is_step(a, b) {
            if b.x == x && b.y == y - 1 {
                assert(up.len() == 1 && up[0] == b);
                assert(all[0] == b);
            } else if b.x == x && b.y == y + 1 {
                assert(down.len() == 1 && down[0] == b);
                assert(all[up.len() as int] == b);
            } else if b.x == x - 1 && b.y == y {
                assert(left.len() == 1 && left[0] == b);
                assert(all[(up.len() + down.len()) as int] == b);
            } else {
                assert(b.x == x + 1 && b.y == y);
                assert(right.len() == 1 && right[0] == b);
                assert(all[(up.len() + down.len() + left.len()) as int] == b);
            }
        }
    }

    /// Every neighbour of a cell is a passable cell of the grid next to it.
    pub proof fn lemma_neighbor_is_step(&self, x: int, y: int, k: int)
        requires
            self.wf(),
            self.in_bounds(x, y),
            0 <= k < self.neighbors(x, y).len(),
        ensures
            self.is_step(self.cell(x, y), self.neighbors(x, y)[k]),
    {
        let b = self.neighbors(x, y)[k];
        assert(self.neighbors(x, y).contains(b));
        self.lemma_neighbors_are_steps(x, y, b);
    }

    /// A walk stays a walk when a further move is appended.
    pub proof fn lemma_walk_push(&self, p: Seq<GridNode>, b: GridNode)
        requires
            self.is_walk(p),
            self.is_step(p.last(), b),
        ensures
            self.is_walk(p.push(b)),
            path_cost(p.push(b)) == path_cost(p) + step_cost(b),
    {
        let q = p.push(b);
        assert forall|i: int| 0 < i < q.len() implies self.is_step(q[i - 1], #[trigger] q[i]) by {
            if i < p.len() {
                assert(self.is_step(p[i - 1], p[i]));
            }
        }
        assert(q.drop_last() =~= p);
    }

    /// A prefix of a walk is a walk.
    pub proof fn lemma_walk_prefix(&self, p: Seq<GridNode>, len: int)
        requires
            self.is_walk(p),
            0 < len <= p.len(),
        ensures
            self.is_walk(p.take(len)),
    {
        let q = p.take(len);
        assert forall|i: int| 0 < i < q.len() implies self.is_step(q[i - 1], #[trigger] q[i]) by {
            assert(self.is_step(p[i - 1], p[i]));
        }
    }

    /// A walk is an open walk, and an open walk that ends in a passable cell is a walk.
    pub proof fn lemma_walk_open(&self, p: Seq<GridNode>)
        ensures
            self.is_walk(p) ==> self.is_open_walk(p),
            self.is_open_walk(p) && (p.len() == 1 || p.last().passable) ==> self.is_walk(p),
    {
        if self.is_walk(p) {
            assert forall|i: int| 0 <= i < p.len() implies self.is_cell(#[trigger] p[i]) by {
                if i > 0 {
                    assert(self.is_step(p[i - 1], p[i]));
                }
            }
            assert forall|i: int| 0 < i < p.len() implies adjacent(p[i - 1], #[trigger] p[i]) by {
                assert(self.is_step(p[i - 1], p[i]));
            }
            assert forall|i: int| 0 < i < p.len() - 1 implies (#[trigger] p[i]).passable by {
                assert(self.is_step(p[i - 1], p[i]));
            }
        }
        if self.is_open_walk(p) && (p.len() == 1 || p.last().passable) {
            assert forall|i: int| 0 < i < p.len() implies self.is_step(p[i - 1], #[trigger] p[i]) by {
                assert(self.is_cell(p[i - 1]));
                assert(self.is_cell(p[i]));
                assert(adjacent(p[i - 1], p[i]));
                if i < p.len() - 1 {
                    assert(p[i].passable);
                }
            }
        }
    }

    /// Some cell can be reached both from `start` and from `end`: the two
    /// sides of a bidirectional search can meet.
    pub open spec fn meets(&self, start: GridNode, end: GridNode) -> bool {
        exists|m: GridNode| #[trigger] self.reachable(start, m) && self.reachable(end, m)
    }

    /// An open walk read backwards is an open walk.
    pub proof fn lemma_open_walk_reverse(&self, p: Seq<GridNode>)
        requires
            self.is_open_walk(p),
        ensures
            self.is_open_walk(p.reverse()),
    {
        let r = p.reverse();
        assert forall|i: int| 0 <= i < r.len() implies self.is_cell(#[trigger] r[i]) by {
            assert(self.is_cell(p[p.len() - 1 - i]));
        }
        assert forall|i: int| 0 < i < r.len() implies adjacent(r[i - 1], #[trigger] r[i]) by {
            assert(adjacent(p[p.len() - 1 - i], p[p.len() - i]));
        }
        assert forall|i: int| 0 < i < r.len() - 1 implies (#[trigger] r[i]).passable by {
            assert(p[p.len() - 1 - i].passable);
        }
    }

    /// Two open walks, the second starting where the first ends, make one
    /// open walk if the cell where they join is passable or one of them is
    /// a single cell.
    pub proof fn lemma_open_walks_join(&self, a: Seq<GridNode>, b: Seq<GridNode>)
        requires
            self.is_open_walk(a),
            self.is_open_walk(b),
            a.last() == b[0],
            a.len() == 1 || b.len() == 1 || b[0].passable,
        ensures
            self.is_open_walk(a + b.drop_first()),
            (a + b.drop_first())[0] == a[0],
            (a + b.drop_first()).last() == b.last(),
    {
        let t = b.drop_first();
        let j = a + t;
        assert forall|i: int| 0 <= i < j.len() implies self.is_cell(#[trigger] j[i]) by {
            if i < a.len() {
                assert(j[i] == a[i]);
            } else {
                assert(j[i] == b[i - a.len() + 1]);
            }
        }
        assert forall|i: int| 0 < i < j.len() implies adjacent(j[i - 1], #[trigger] j[i]) by {
            if i < a.len() {
                assert(adjacent(a[i - 1], a[i]));
            } else {
                let k = i - a.len() + 1;
                assert(j[i] == b[k]);
                assert(adjacent(b[k - 1], b[k]));
                if k - 1 > 0 {
                    assert(j[i - 1] == b[k - 1]);
                } else {
                    assert(j[i - 1] == a.last());
                }
            }
        }
        assert forall|i: int| 0 < i < j.len() - 1 implies (#[trigger] j[i]).passable by {
            if i < a.len() - 1 {
                assert(a[i].passable);
            } else if i == a.len() - 1 {
                assert(j[i] == b[0]);
            } else {
                let k = i - a.len() + 1;
                assert(j[i] == b[k]);
                assert(b[k].passable);
            }
        }
    }

    /// On a grid the number of moves of a walk and the Manhattan distance
    /// between its ends are both even or both odd, and the walk has at
    /// least as many moves as that distance.
    pub proof fn lemma_open_walk_parity(&self, p: Seq<GridNode>)
        requires
            self.is_open_walk(p),
        ensures
            manhattan(p[0], p.last()) <= p.len() - 1,
            (p.len() - 1 - manhattan(p[0], p.last())) % 2 == 0,
    {
        assert forall|i: int| 0 < i < p.len() implies adjacent(p[i - 1], #[trigger] p[i]) by {}
        lemma_neighbors_parity(p);
    }

    /// Two open walks between the same ends have both an even or both an
    /// odd number of cells.
    pub proof fn lemma_same_ends_same_parity(&self, p: Seq<GridNode>, q: Seq<GridNode>)
        requires
            self.is_open_walk(p),
            self.is_open_walk(q),
            p[0] == q[0],
            p.last() == q.last(),
        ensures
            (p.len() - q.len()) % 2 == 0,
    {
        self.lemma_open_walk_parity(p);
        self.lemma_open_walk_parity(q);
        lemma_even_difference(p.len() - 1, q.len() - 1, manhattan(p[0], p.last()));
    }

    /// Read backwards, the part of a walk from position `j` on is a walk,
    /// provided the cell at `j` is passable or the part is a single cell.
    pub proof fn lemma_walk_back(&self, p: Seq<GridNode>, j: int)
        requires
            self.is_walk(p),
            0 <= j < p.len(),
            p[j].passable || j == p.len() - 1,
        ensures
            self.is_walk(p.skip(j).reverse()),
            p.skip(j).reverse().len() == p.len() - j,
            p.skip(j).reverse()[0] == p.last(),
            p.skip(j).reverse().last() == p[j],
    {
        let r = p.skip(j).reverse();
        let len = p.len() - j;
        self.lemma_walk_last_cell(p);
        assert(r[0] == p[p.len() - 1]);
        assert forall|i: int| 0 < i < r.len() implies self.is_step(r[i - 1], #[trigger] r[i]) by {
            let k = p.len() - 1 - i;
            assert(r[i] == p[k]);
            assert(r[i - 1] == p[k + 1]);
            assert(self.is_step(p[k], p[k + 1]));
            if k > j {
                assert(self.is_step(p[k - 1], p[k]));
            } else if k > 0 {
                assert(self.is_step(p[k - 1], p[k]));
            }
        }
    }

    /// When `end` is passable, the two sides of a bidirectional search can
    /// meet exactly if `end` can be reached from `start`.
    pub proof fn lemma_meets_is_reachable(&self, start: GridNode, end: GridNode)
        requires
            self.wf(),
            self.is_cell(start),
            self.is_cell(end),
            end.passable,
        ensures
            self.meets(start, end) <==> self.reachable(start, end),
    {
        if self.reachable(start, end) {
            assert(self.is_path(seq![end], end, end));
            assert(self.reachable(end, end));
        }
        if self.meets(start, end) {
            let m = choose|m: GridNode| #[trigger] self.reachable(start, m) && self.reachable(end, m);
            let a = choose|a: Seq<GridNode>| self.is_path(a, start, m);
            let b = choose|b: Seq<GridNode>| self.is_path(b, end, m);
            self.lemma_walk_open(a);
            self.lemma_walk_open(b);
            self.lemma_open_walk_reverse(b);
            let r = b.reverse();
            if b.len() > 1 {
                assert(self.is_step(b[b.len() - 2], b[b.len() - 1]));
            }
            self.lemma_open_walks_join(a, r);
            let j = a + r.drop_first();
            self.lemma_walk_open(j);
            assert(j.len() == 1 || j.last().passable);
            assert(self.is_path(j, start, end));
        }
    }

    /// What every search from one end returns.
    ///
    /// The path is empty exactly if `end` cannot be reached from `start`;
    /// otherwise it leads from `start` to `end` by moves into passable
    /// cells.  `processed` begins with `start`, holds only cells that can be
    /// reached from `start`, ends with `end` when a path was found, and
    /// holds every cell that can be reached from `start` when none was.
    pub open spec fn search_result(&self, start: GridNode, end: GridNode, result: PathResult) -> bool {
        &&& result.path@.len() > 0 <==> self.reachable(start, end)
        &&& result.path@.len() > 0 ==> self.is_path(result.path@, start, end)
        &&& start == end ==> result.path@ == seq![start]
        &&& result.processed@.len() > 0
        &&& result.processed@[0] == start
        &&& forall|k: int|
            0 <= k < result.processed@.len() ==> self.reachable(
                start,
                #[trigger] result.processed@[k],
            )
        &&& result.path@.len() > 0 ==> result.processed@.last() == end
        &&& result.path@.len() == 0 ==> forall|c: GridNode| #[trigger]
            self.reachable(start, c) ==> result.processed@.contains(c)
    }

    /// What a search returns that marks a cell when it joins the frontier:
    /// the result of a search in which no cell is processed twice.
    pub open spec fn single_visit_result(&self, start: GridNode, end: GridNode, result: PathResult) -> bool {
        &&& self.search_result(start, end, result)
        &&& result.processed@.no_duplicates()
    }

    /// `p` is a path from `start` to `end` and no path between them has
    /// fewer cells.
    pub open spec fn is_shortest_path(
        &self,
        p: Seq<GridNode>,
        start: GridNode,
        end: GridNode,
    ) -> bool {
        &&& self.is_path(p, start, end)
        &&& forall|q: Seq<GridNode>| #[trigger] self.is_path(q, start, end) ==> p.len() <= q.len()
    }

    /// What a breadth-first search returns: the result of a search in which
    /// no cell is processed twice and whose path, if there is one, is a
    /// shortest one.
    pub open spec fn shortest_result(&self, start: GridNode, end: GridNode, result: PathResult) -> bool {
        &&& self.single_visit_result(start, end, result)
        &&& result.path@.len() > 0 ==> self.is_shortest_path(result.path@, start, end)
    }

    /// What a search that settles costs returns: the result of a search
    /// whose path, if there is one, is a cheapest one.
    pub open spec fn cheapest_result(&self, start: GridNode, end: GridNode, result: PathResult) -> bool {
        &&& self.search_result(start, end, result)
        &&& result.path@.len() > 0 ==> self.is_cheapest_path(result.path@, start, end)
    }

    /// What a bidirectional search between `start` and `end` returns.
    ///
    /// The two sides meet exactly if some cell can be reached from both
    /// ends, and then the path leads from `start` to `end` through passable
    /// cells.  The end side starts from `end` whether or not `end` is
    /// passable, so only for a passable `end` is the path one that a search
    /// from `start` alone could walk.  `processed` begins with `start`,
    /// holds only cells that can be reached from one of the ends, and holds
    /// every such cell when the sides did not meet.
    pub open spec fn bidirectional_result(
        &self,
        start: GridNode,
        end: GridNode,
        result: PathResult,
    ) -> bool {
        &&& result.path@.len() > 0 <==> self.meets(start, end)
        &&& result.path@.len() > 0 ==> self.is_open_path(result.path@, start, end)
        &&& result.path@.len() > 0 && end.passable ==> self.is_path(result.path@, start, end)
        &&& start == end ==> result.path@ == seq![start]
        &&& result.processed@.len() > 0
        &&& result.processed@[0] == start
        &&& forall|k: int|
            0 <= k < result.processed@.len() ==> {
                ||| self.reachable(start, #[trigger] result.processed@[k])
                ||| self.reachable(end, result.processed@[k])
            }
        &&& result.path@.len() == 0 ==> forall|c: GridNode|
            self.reachable(start, c) || self.reachable(end, c) ==> #[trigger] result.processed@.contains(c)
    }

    /// What a bidirectional breadth-first search returns: the result of a
    /// bidirectional search whose path has no more cells than any path
    /// from `start` to `end`.
    pub open spec fn bidirectional_shortest_result(
        &self,
        start: GridNode,
        end: GridNode,
        result: PathResult,
    ) -> bool {
        &&& self.bidirectional_result(start, end, result)
        &&& forall|q: Seq<GridNode>| #[trigger]
            self.is_path(q, start, end) ==> 0 < result.path@.len() <= q.len()
    }
}

} // verus!
