use vstd::prelude::*;

verus! {

/// Direction of the wall that splits a chamber: a horizontal wall runs along
/// a row, a vertical wall along a column.
#[derive(Clone, Copy, Debug, PartialEq, Eq, Structural)]
pub enum Orientation {
    Horizontal,
    Vertical,
}

} // verus!
