use vstd::prelude::*;

verus! {

/// A cell of the square grid: unsigned coordinates, each in `[0, size)`.
/// Compared by equality; the natural key for "is this cell occupied".
#[derive(Clone, Copy, Debug, PartialEq, Eq, Structural, Hash)]
pub struct Position {
    pub x: u8,
    pub y: u8,
}

/// Both coordinates of `p` lie inside a `size` by `size` grid.
pub open spec fn in_range(p: Position, size: int) -> bool {
    p.x < size && p.y < size
}

} // verus!
