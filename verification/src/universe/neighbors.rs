use super::grid_node::GridNode;
use super::route::manhattan;
use super::universe::Universe;
use vstd::prelude::*;

verus! {

/// The cells that the references in `found` point to.
pub open spec fn cells_of(found: Seq<&GridNode>) -> Seq<GridNode> {
    Seq::new(found.len(), |k: int| *found[k])
}

impl Universe {
    /// The passable cells next to `(x, y)` that lie in the grid, in the
    /// order up, down, left, right.
    pub fn get_neighbors(&self, x: i32, y: i32) -> (found: Vec<&GridNode>)
        requires
            self.wf(),
            self.in_bounds(x as int, y as int),
        ensures
            cells_of(found@) == self.neighbors(x as int, y as int),
    {
        proof {
            self.lemma_dims_fit();
        }
        let mut vec: Vec<&GridNode> = Vec::with_capacity(4);
        let ghost up = self.neighbor_at(x as int, y - 1);
        let ghost down = self.neighbor_at(x as int, y + 1);
        let ghost left = self.neighbor_at(x - 1, y as int);
        let ghost right = self.neighbor_at(x + 1, y as int);

        if y > 0 && self.get_cell_ref(x, y - 1).passable {
            vec.push(self.get_cell_ref(x, y - 1));
        }
        assert(cells_of(vec@) =~= up);

        if y < self.height as i32 - 1 && self.get_cell_ref(x, y + 1).passable {
            vec.push(self.get_cell_ref(x, y + 1));
        }
        assert(cells_of(vec@) =~= up + down);

        if x > 0 && self.get_cell_ref(x - 1, y).passable {
            vec.push(self.get_cell_ref(x - 1, y));
        }
        assert(cells_of(vec@) =~= up + down + left);

        if x < self.width as i32 - 1 && self.get_cell_ref(x + 1, y).passable {
            vec.push(self.get_cell_ref(x + 1, y));
        }
        assert(cells_of(vec@) =~= up + down + left + right);

        vec
    }

    /// Manhattan distance between `a` and `b`.
    pub fn heuristic(a: &GridNode, b: &GridNode) -> (h: i32)
        requires
            manhattan(*a, *b) <= i32::MAX,
        ensures
            h == manhattan(*a, *b),
    {
        let distance_x = if a.x >= b.x {
            a.x - b.x
        } else {
            b.x - a.x
        };
        let distance_y = if a.y >= b.y {
            a.y - b.y
        } else {
            b.y - a.y
        };
        distance_x + distance_y
    }
}

} // verus!
