use vstd::prelude::*;

use core::cmp::Ordering;

use crate::position::{in_range, Position};

verus! {

/// A shift command: one of the four directions tiles can slide. A
/// closed enumeration — the comparator and indexing functions below
/// dispatch on it exhaustively, one arm per direction.
#[derive(Clone, Copy, Debug, PartialEq, Eq, Structural)]
pub enum BoardShift {
    Up,
    Down,
    Left,
    Right,
}

/// The lane a cell belongs to under a shift: the coordinate orthogonal
/// to the movement axis. Merges never cross a lane boundary.
pub open spec fn lane_of(dir: BoardShift, p: Position) -> int {
    match dir {
        BoardShift::Up | BoardShift::Down => p.x as int,
        BoardShift::Left | BoardShift::Right => p.y as int,
    }
}

/// Distance of a cell from the edge the shift packs tiles against,
/// along the movement axis: 0 at that edge. Up and Right pack toward
/// the high-index edge, Down and Left toward the low-index edge.
pub open spec fn rank_of(dir: BoardShift, p: Position, size: int) -> int {
    match dir {
        BoardShift::Up => size - 1 - p.y,
        BoardShift::Down => p.y as int,
        BoardShift::Left => p.x as int,
        BoardShift::Right => size - 1 - p.x,
    }
}

/// The cell of lane `lane` at distance `col` from the target edge:
/// the inverse of the (`lane_of`, `rank_of`) pair.
pub open spec fn pos_at(dir: BoardShift, lane: int, col: int, size: int) -> Position
    recommends
        0 <= lane < size,
        0 <= col < size,
        size <= 255,
{
    match dir {
        BoardShift::Up => Position { x: lane as u8, y: (size - 1 - col) as u8 },
        BoardShift::Down => Position { x: lane as u8, y: col as u8 },
        BoardShift::Left => Position { x: col as u8, y: lane as u8 },
        BoardShift::Right => Position { x: (size - 1 - col) as u8, y: lane as u8 },
    }
}

/// A cell is recovered from its lane and rank, and a (lane, rank) pair
/// inside the grid names a cell of the grid with that lane and rank.
pub proof fn lemma_lane_rank_bijective(dir: BoardShift, size: int, p: Position, lane: int, col: int)
    requires
        0 < size <= 255,
    ensures
        in_range(p, size) ==> pos_at(dir, lane_of(dir, p), rank_of(dir, p, size), size) == p,
        in_range(p, size) ==> 0 <= lane_of(dir, p) < size && 0 <= rank_of(dir, p, size) < size,
        0 <= lane < size && 0 <= col < size ==> {
            &&& in_range(pos_at(dir, lane, col, size), size)
            &&& lane_of(dir, pos_at(dir, lane, col, size)) == lane
            &&& rank_of(dir, pos_at(dir, lane, col, size), size) == col
        },
{
}

/// The traversal order of the resolver's pass: lanes kept apart by the
/// primary key, and within a lane the tile nearest the target edge
/// first. This mirrors the two-key comparator, direction by direction.
pub open spec fn sort_spec(dir: BoardShift, a: Position, b: Position) -> Ordering {
    match dir {
        BoardShift::Up => if b.x != a.x {
            if b.x < a.x {
                Ordering::Less
            } else {
                Ordering::Greater
            }
        } else {
            if b.y < a.y {
                Ordering::Less
            } else if b.y > a.y {
                Ordering::Greater
            } else {
                Ordering::Equal
            }
        },
        BoardShift::Down => if a.x != b.x {
            if a.x < b.x {
                Ordering::Less
            } else {
                Ordering::Greater
            }
        } else {
            if a.y < b.y {
                Ordering::Less
            } else if a.y > b.y {
                Ordering::Greater
            } else {
                Ordering::Equal
            }
        },
        BoardShift::Left => if a.y != b.y {
            if a.y < b.y {
                Ordering::Less
            } else {
                Ordering::Greater
            }
        } else {
            if a.x < b.x {
                Ordering::Less
            } else if a.x > b.x {
                Ordering::Greater
            } else {
                Ordering::Equal
            }
        },
        BoardShift::Right => if b.y != a.y {
            if b.y < a.y {
                Ordering::Less
            } else {
                Ordering::Greater
            }
        } else {
            if b.x < a.x {
                Ordering::Less
            } else if b.x > a.x {
                Ordering::Greater
            } else {
                Ordering::Equal
            }
        },
    }
}

impl BoardShift {
    /// The two-key comparator that orders tiles for the resolver's
    /// single pass: within a lane, `Less` means "visited first", i.e.
    /// nearer the target edge.
    pub fn sort(&self, a: &Position, b: &Position) -> (r: Ordering)
        ensures
            r == sort_spec(*self, *a, *b),
            r == Ordering::Equal <==> *a == *b,
    {
        match self {
            BoardShift::Up => if b.x != a.x {
                if b.x < a.x {
                    Ordering::Less
                } else {
                    Ordering::Greater
                }
            } else {
                if b.y < a.y {
                    Ordering::Less
                } else if b.y > a.y {
                    Ordering::Greater
                } else {
                    Ordering::Equal
                }
            },
            BoardShift::Down => if a.x != b.x {
                if a.x < b.x {
                    Ordering::Less
                } else {
                    Ordering::Greater
                }
            } else {
                if a.y < b.y {
                    Ordering::Less
                } else if a.y > b.y {
                    Ordering::Greater
                } else {
                    Ordering::Equal
                }
            },
            BoardShift::Left => if a.y != b.y {
                if a.y < b.y {
                    Ordering::Less
                } else {
                    Ordering::Greater
                }
            } else {
                if a.x < b.x {
                    Ordering::Less
                } else if a.x > b.x {
                    Ordering::Greater
                } else {
                    Ordering::Equal
                }
            },
            BoardShift::Right => if b.y != a.y {
                if b.y < a.y {
                    Ordering::Less
                } else {
                    Ordering::Greater
                }
            } else {
                if b.x < a.x {
                    Ordering::Less
                } else if b.x > a.x {
                    Ordering::Greater
                } else {
                    Ordering::Equal
                }
            },
        }
    }

    /// Reassign the coordinate along the shift axis so the tile sits
    /// `index` cells away from the target edge; the lane coordinate is
    /// left untouched.
    pub fn set_column_position(&self, board_size: u8, position: &mut Position, index: u8)
        requires
            index < board_size,
        ensures
            *final(position) == pos_at(
                *self,
                lane_of(*self, *old(position)),
                index as int,
                board_size as int,
            ),
            lane_of(*self, *final(position)) == lane_of(*self, *old(position)),
            rank_of(*self, *final(position), board_size as int) == index as int,
    {
        match self {
            BoardShift::Up => {
                position.y = board_size - 1 - index;
            },
            BoardShift::Down => {
                position.y = index;
            },
            BoardShift::Left => {
                position.x = index;
            },
            BoardShift::Right => {
                position.x = board_size - 1 - index;
            },
        }
    }

    /// The lane coordinate of a cell under this shift.
    pub fn get_row_position(&self, position: &Position) -> (r: u8)
        ensures
            r as int == lane_of(*self, *position),
    {
        match self {
            BoardShift::Up | BoardShift::Down => position.x,
            BoardShift::Left | BoardShift::Right => position.y,
        }
    }
}

} // verus!
