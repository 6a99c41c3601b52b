//! Cells: the state and the colour at one position of the grid.

use vstd::prelude::*;
use crate::colour::Rgba;

verus! {

/// One position of the grid: the name of its state, and the colour it is
/// shown in.
#[derive(Debug, PartialEq)]
pub struct Cell {
    pub state: String,
    pub colour: Rgba,
}

/// What a `Cell` holds.
pub ghost struct CellView {
    pub state: Seq<char>,
    pub colour: Rgba,
}

impl View for Cell {
    type V = CellView;

    open spec fn view(&self) -> CellView {
        CellView { state: self.state@, colour: self.colour }
    }
}

impl Clone for Cell {
    fn clone(&self) -> (copy: Self)
        ensures
            copy@ == self@,
    {
        Cell { state: self.state.clone(), colour: self.colour }
    }
}

} // verus!
