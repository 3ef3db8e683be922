use vstd::prelude::*;

verus! {

/// The maze layouts that can be generated: a random fill with the given
/// percentage of walls, or a maze built by recursive division.
pub enum MazeType {
    Random25,
    Random50,
    Random75,
    RecursiveDivision,
}

} // verus!
