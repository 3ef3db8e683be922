use super::grid_node::GridNode;
use vstd::prelude::*;

verus! {

/// A rectangular grid of cells, stored row by row: the cell at `(x, y)` sits
/// at index `y * width + x` of `nodes`.
pub struct Universe {
    pub width: u32,
    pub height: u32,
    pub nodes: Vec<GridNode>,
}

/// The cell that a fresh or reset grid holds at `(x, y)`: no extra cost, passable.
pub open spec fn blank_cell(x: int, y: int) -> GridNode {
    GridNode { x: x as i32, y: y as i32, weight: 0, passable: true }
}

/// `c` with its weight and passability set back to those of a blank cell.
pub open spec fn cleared(c: GridNode) -> GridNode {
    GridNode { x: c.x, y: c.y, weight: 0, passable: true }
}

/// Two positions in one row of a grid of width `w` that share an index are the same position.
pub proof fn lemma_position_unique(w: int, x1: int, y1: int, x2: int, y2: int)
    requires
        0 <= x1 < w,
        0 <= x2 < w,
        y1 * w + x1 == y2 * w + x2,
    ensures
        x1 == x2,
        y1 == y2,
{
    if y1 < y2 {
        assert((y2 - y1) * w >= w) by (nonlinear_arith)
            requires
                y2 - y1 >= 1,
                w > 0,
        ;
        assert((y2 - y1) * w == y2 * w - y1 * w) by (nonlinear_arith);
    } else if y2 < y1 {
        assert((y1 - y2) * w >= w) by (nonlinear_arith)
            requires
                y1 - y2 >= 1,
                w > 0,
        ;
        assert((y1 - y2) * w == y1 * w - y2 * w) by (nonlinear_arith);
    }
}

/// A position inside a `w` by `h` grid has an index below `w * h`.
pub proof fn lemma_index_in_range(w: int, h: int, x: int, y: int)
    requires
        0 <= x < w,
        0 <= y < h,
    ensures
        0 <= y * w + x < w * h,
        y * w + w <= w * h,
{
    assert(y * w >= 0) by (nonlinear_arith)
        requires
            y >= 0,
            w > 0,
    ;
    assert(y * w + w <= w * h) by (nonlinear_arith)
        requires
            y + 1 <= h,
            w > 0,
    ;
}

impl Universe {
    /// `(x, y)` names a cell of the grid.
    pub open spec fn in_bounds(&self, x: int, y: int) -> bool {
        0 <= x < self.width && 0 <= y < self.height
    }

    /// Index in `nodes` of the cell at `(x, y)`.
    pub open spec fn index_of(&self, x: int, y: int) -> int {
        y * self.width + x
    }

    /// The cell stored for `(x, y)`.
    pub open spec fn cell(&self, x: int, y: int) -> GridNode {
        self.nodes@[self.index_of(x, y)]
    }

    /// `c` is the grid's own record of the cell at `c`'s position.
    pub open spec fn is_cell(&self, c: GridNode) -> bool {
        self.in_bounds(c.x as int, c.y as int) && self.cell(c.x as int, c.y as int) == c
    }

    /// The grid is fully populated, each cell records its own position, the
    /// number of cells fits the signed index arithmetic, and no weight is negative.
    pub open spec fn wf(&self) -> bool {
        &&& 0 < self.width
        &&& 0 < self.height
        &&& self.width * self.height <= i32::MAX
        &&& self.nodes@.len() == self.width * self.height
        &&& forall|i: int|
            0 <= i < self.nodes@.len() ==> {
                let c = #[trigger] self.nodes@[i];
                &&& 0 <= c.x < self.width
                &&& 0 <= c.y < self.height
                &&& c.y * self.width + c.x == i
                &&& c.weight >= 0
            }
    }

    /// Every cell is as in a fresh grid.
    pub open spec fn is_blank(&self) -> bool {
        forall|x: int, y: int|
            self.in_bounds(x, y) ==> #[trigger] self.cell(x, y) == blank_cell(x, y)
    }

    /// In a well-formed grid the cell stored for an in-bounds position lies
    /// inside `nodes` and records that position.
    pub proof fn lemma_cell_at(&self, x: int, y: int)
        requires
            self.wf(),
            self.in_bounds(x, y),
        ensures
            0 <= self.index_of(x, y) < self.nodes@.len(),
            self.cell(x, y).x == x,
            self.cell(x, y).y == y,
            self.is_cell(self.cell(x, y)),
    {
        lemma_index_in_range(self.width as int, self.height as int, x, y);
        let c = self.nodes@[self.index_of(x, y)];
        lemma_position_unique(self.width as int, c.x as int, c.y as int, x, y);
    }

    /// Both dimensions of a well-formed grid fit a signed coordinate.
    pub proof fn lemma_dims_fit(&self)
        requires
            self.wf(),
        ensures
            self.width <= i32::MAX,
            self.height <= i32::MAX,
            self.width <= self.nodes@.len(),
            self.height <= self.nodes@.len(),
    {
        assert(self.width <= self.width * self.height && self.height <= self.width * self.height)
            by (nonlinear_arith)
            requires
                0 < self.width,
                0 < self.height,
        ;
    }

    /// In a well-formed grid every stored node is the cell at its own position.
    pub proof fn lemma_node_is_cell(&self, i: int)
        requires
            self.wf(),
            0 <= i < self.nodes@.len(),
        ensures
            self.is_cell(self.nodes@[i]),
            self.index_of(self.nodes@[i].x as int, self.nodes@[i].y as int) == i,
    {
    }

    /// A grid of `width` by `height` blank cells.
    pub fn new(width: u32, height: u32) -> (universe: Self)
        requires
            0 < width,
            0 < height,
            width * height <= i32::MAX,
        ensures
            universe.width == width,
            universe.height == height,
            universe.wf(),
            universe.is_blank(),
    {
        let nodes = blank_nodes(width, height);
        let universe = Universe { width, height, nodes };
        proof {
            assert forall|x: int, y: int| universe.in_bounds(x, y) implies #[trigger] universe.cell(
                x,
                y,
            ) == blank_cell(x, y) by {
                universe.lemma_cell_at(x, y);
            }
        }
        universe
    }

    /// Replaces the grid by one of `width` by `height` blank cells; nothing of
    /// the old contents is kept.
    pub fn resize(&mut self, width: u32, height: u32)
        requires
            0 < width,
            0 < height,
            width * height <= i32::MAX,
        ensures
            final(self).width == width,
            final(self).height == height,
            final(self).wf(),
            final(self).is_blank(),
    {
        let nodes = blank_nodes(width, height);
        self.width = width;
        self.height = height;
        self.nodes = nodes;
        proof {
            assert forall|x: int, y: int| self.in_bounds(x, y) implies #[trigger] self.cell(x, y)
                == blank_cell(x, y) by {
                self.lemma_cell_at(x, y);
            }
        }
    }

    /// Sets every cell's weight to 0 and makes it passable; dimensions and
    /// positions stay.
    pub fn reset(&mut self)
        ensures
            final(self).width == old(self).width,
            final(self).height == old(self).height,
            final(self).nodes@.len() == old(self).nodes@.len(),
            forall|i: int|
                0 <= i < old(self).nodes@.len() ==> #[trigger] final(self).nodes@[i] == cleared(
                    old(self).nodes@[i],
                ),
            old(self).wf() ==> final(self).wf() && final(self).is_blank(),
    {
        let n = self.nodes.len();
        let mut i: usize = 0;
        while i < n
            invariant
                i <= n,
                n == self.nodes@.len(),
                n == old(self).nodes@.len(),
                self.width == old(self).width,
                self.height == old(self).height,
                forall|k: int| 0 <= k < i ==> #[trigger] self.nodes@[k] == cleared(old(self).nodes@[k]),
                forall|k: int| i <= k < n ==> #[trigger] self.nodes@[k] == old(self).nodes@[k],
            decreases n - i,
        {
            let mut node = self.nodes[i];
            node.weight = 0;
            node.passable = true;
            self.nodes.set(i, node);
            i += 1;
        }
        proof {
            if old(self).wf() {
                assert forall|k: int| 0 <= k < self.nodes@.len() implies {
                    let c = #[trigger] self.nodes@[k];
                    &&& 0 <= c.x < self.width
                    &&& 0 <= c.y < self.height
                    &&& c.y * self.width + c.x == k
                    &&& c.weight >= 0
                } by {
                    assert(self.nodes@[k] == cleared(old(self).nodes@[k]));
                }
                assert forall|x: int, y: int| self.in_bounds(x, y) implies #[trigger] self.cell(
                    x,
                    y,
                ) == blank_cell(x, y) by {
                    self.lemma_cell_at(x, y);
                    assert(self.nodes@[self.index_of(x, y)] == cleared(
                        old(self).nodes@[self.index_of(x, y)],
                    ));
                }
            }
        }
    }

    /// A copy of the cell at `(x, y)`.
    pub fn get_cell(&self, x: i32, y: i32) -> (node: GridNode)
        requires
            self.wf(),
            self.in_bounds(x as int, y as int),
        ensures
            node == self.cell(x as int, y as int),
            node.x == x,
            node.y == y,
    {
        proof {
            self.lemma_cell_at(x as int, y as int);
        }
        let index = self.get_index(x, y);
        self.nodes[index]
    }

    /// Sets the extra cost of entering the cell at `(x, y)`.
    pub fn set_weight(&mut self, x: i32, y: i32, weight: i32)
        requires
            old(self).wf(),
            old(self).in_bounds(x as int, y as int),
            weight >= 0,
        ensures
            final(self).wf(),
            final(self).width == old(self).width,
            final(self).height == old(self).height,
            final(self).nodes@ == old(self).nodes@.update(
                old(self).index_of(x as int, y as int),
                (GridNode { weight, ..old(self).cell(x as int, y as int) }),
            ),
    {
        proof {
            self.lemma_cell_at(x as int, y as int);
        }
        let index = self.get_index(x, y);
        let mut node = self.nodes[index];
        node.weight = weight;
        self.nodes.set(index, node);
    }

    /// Makes the cell at `(x, y)` passable or impassable.
    pub fn set_passable(&mut self, x: i32, y: i32, passable: bool)
        requires
            old(self).wf(),
            old(self).in_bounds(x as int, y as int),
        ensures
            final(self).wf(),
            final(self).width == old(self).width,
            final(self).height == old(self).height,
            final(self).nodes@ == old(self).nodes@.update(
                old(self).index_of(x as int, y as int),
                (GridNode { passable, ..old(self).cell(x as int, y as int) }),
            ),
    {
        proof {
            self.lemma_cell_at(x as int, y as int);
        }
        let index = self.get_index(x, y);
        let mut node = self.nodes[index];
        node.passable = passable;
        self.nodes.set(index, node);
    }

    /// Index in `nodes` of the cell at `(x, y)`.
    pub fn get_index(&self, x: i32, y: i32) -> (index: usize)
        requires
            self.wf(),
            self.in_bounds(x as int, y as int),
        ensures
            index == self.index_of(x as int, y as int),
            index < self.nodes@.len(),
    {
        proof {
            lemma_index_in_range(self.width as int, self.height as int, x as int, y as int);
        }
        (y * self.width as i32 + x) as usize
    }

    /// The cell at `(x, y)`, borrowed from the grid.
    pub fn get_cell_ref(&self, x: i32, y: i32) -> (node: &GridNode)
        requires
            self.wf(),
            self.in_bounds(x as int, y as int),
        ensures
            *node == self.cell(x as int, y as int),
            node.x == x,
            node.y == y,
    {
        proof {
            self.lemma_cell_at(x as int, y as int);
        }
        let index = self.get_index(x, y);
        &self.nodes[index]
    }
}

/// The cells of a blank `width` by `height` grid, row by row.
fn blank_nodes(width: u32, height: u32) -> (nodes: Vec<GridNode>)
    requires
        0 < width,
        0 < height,
        width * height <= i32::MAX,
    ensures
        nodes@.len() == width * height,
        forall|i: int|
            0 <= i < nodes@.len() ==> {
                let c = #[trigger] nodes@[i];
                &&& 0 <= c.x < width
                &&& 0 <= c.y < height
                &&& c.y * width + c.x == i
                &&& c.weight == 0
                &&& c.passable
            },
{
    proof {
        assert(width <= width * height && height <= width * height) by (nonlinear_arith)
            requires
                0 < width,
                0 < height,
        ;
    }
    let mut nodes: Vec<GridNode> = Vec::with_capacity((width * height) as usize);
    let rows: i32 = height as i32;
    let cols: i32 = width as i32;
    let mut y: i32 = 0;
    while y < rows
        invariant
            0 <= y <= rows,
            rows == height,
            cols == width,
            0 < width,
            width * height <= i32::MAX,
            nodes@.len() == y * width,
            forall|i: int|
                0 <= i < nodes@.len() ==> {
                    let c = #[trigger] nodes@[i];
                    &&& 0 <= c.x < width
                    &&& 0 <= c.y < height
                    &&& c.y * width + c.x == i
                    &&& c.weight == 0
                    &&& c.passable
                },
        decreases rows - y,
    {
        let mut x: i32 = 0;
        while x < cols
            invariant
                0 <= x <= cols,
                0 <= y < rows,
                rows == height,
                cols == width,
                0 < width,
                width * height <= i32::MAX,
                nodes@.len() == y * width + x,
                forall|i: int|
                    0 <= i < nodes@.len() ==> {
                        let c = #[trigger] nodes@[i];
                        &&& 0 <= c.x < width
                        &&& 0 <= c.y < height
                        &&& c.y * width + c.x == i
                        &&& c.weight == 0
                        &&& c.passable
                    },
            decreases cols - x,
        {
            nodes.push(GridNode { x, y, weight: 0, passable: true });
            x += 1;
        }
        proof {
            assert((y + 1) * width == y * width + width) by (nonlinear_arith);
        }
        y += 1;
    }
    proof {
        assert(height * width == width * height) by (nonlinear_arith);
    }
    nodes
}

} // verus!
