use vstd::prelude::*;

verus! {

/// The playing field: a `size` by `size` grid. Physical sizing for
/// rendering is a concern of the display layer, not of the rules.
#[derive(Clone, Copy, Debug, PartialEq, Eq, Structural)]
pub struct Board {
    pub size: u8,
}

impl Board {
    pub fn new(size: u8) -> (b: Board)
        ensures
            b.size == size,
    {
        Board { size }
    }
}

} // verus!
