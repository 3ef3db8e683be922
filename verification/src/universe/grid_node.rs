use vstd::prelude::*;

verus! {

/// One cell of the grid: its position, the extra cost of entering it, and
/// whether it may be entered at all.
///
/// Cells are plain values; two cells with the same four fields are the same cell.
#[derive(Clone, Copy, Debug, PartialEq, Eq, Hash, Structural)]
pub struct GridNode {
    pub x: i32,
    pub y: i32,
    pub weight: i32,
    pub passable: bool,
}

impl Default for GridNode {
    fn default() -> (node: Self)
        ensures
            node == (GridNode { x: 0, y: 0, weight: 0, passable: false }),
    {
        GridNode { x: 0, y: 0, weight: 0, passable: false }
    }
}

} // verus!
