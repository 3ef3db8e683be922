use vstd::prelude::*;

verus! {

/// A saved grid layout: its dimensions, the weight given to weighted cells,
/// and the keys of the cells that are walls or weighted.
#[derive(Debug)]
pub struct GridSnapshot {
    pub width: i32,
    pub height: i32,
    pub weight: i32,
    pub walls: Vec<String>,
    pub weights: Vec<String>,
}

} // verus!
