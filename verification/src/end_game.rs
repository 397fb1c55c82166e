use vstd::prelude::*;

use crate::position::Position;
use crate::tile::{well_formed_tiles, Tile};

verus! {

/// Every cell of the grid holds a tile.
pub open spec fn board_full(tiles: Seq<Tile>, size: int) -> bool {
    tiles.len() == size * size
}

/// `q` is an orthogonal neighbor of `p`.
pub open spec fn adjacent(p: Position, q: Position) -> bool {
    ||| p.x == q.x && (p.y + 1 == q.y || q.y + 1 == p.y)
    ||| p.y == q.y && (p.x + 1 == q.x || q.x + 1 == p.x)
}

/// Some other tile sits next to tile `i` with the same value: a shift
/// along the axis between them would merge the pair.
pub open spec fn has_equal_neighbor(tiles: Seq<Tile>, i: int) -> bool {
    exists|j: int|
        0 <= j < tiles.len() && adjacent(tiles[i].pos, (#[trigger] tiles[j]).pos) && tiles[j].value
            == tiles[i].value
}

/// No move is left: the grid is full and no tile could merge with any
/// orthogonal neighbor. While a cell is still empty some shift always
/// moves a tile, so a board that is not full is never over.
pub open spec fn game_over(tiles: Seq<Tile>, size: int) -> bool {
    board_full(tiles, size) && forall|i: int| 0 <= i < tiles.len() ==> !has_equal_neighbor(tiles, i)
}

/// Whether some tile sits on `p` carrying the value `v`.
fn any_tile_with(tiles: &Vec<Tile>, p: Position, v: u64) -> (r: bool)
    ensures
        r == exists|j: int|
            0 <= j < tiles@.len() && (#[trigger] tiles@[j]).pos == p && tiles@[j].value == v,
{
    let mut j: usize = 0;
    while j < tiles.len()
        invariant
            j <= tiles@.len(),
            forall|k: int| 0 <= k < j ==> !((#[trigger] tiles@[k]).pos == p && tiles@[k].value == v),
        decreases tiles@.len() - j,
    {
        if tiles[j].pos == p && tiles[j].value == v {
            return true;
        }
        j += 1;
    }
    false
}

/// Whether tile `i` has an orthogonal neighbor of equal value, looking
/// at most four cells up.
#[verifier::loop_isolation(false)]
fn tile_has_equal_neighbor(tiles: &Vec<Tile>, i: usize, size: u8) -> (r: bool)
    requires
        well_formed_tiles(tiles@, size as int),
        i < tiles@.len(),
    ensures
        r == has_equal_neighbor(tiles@, i as int),
{
    let p = tiles[i].pos;
    let v = tiles[i].value;
    let left = p.x > 0 && any_tile_with(tiles, Position { x: p.x - 1, y: p.y }, v);
    let right = p.x + 1 < size && any_tile_with(tiles, Position { x: p.x + 1, y: p.y }, v);
    let down = p.y > 0 && any_tile_with(tiles, Position { x: p.x, y: p.y - 1 }, v);
    let up = p.y + 1 < size && any_tile_with(tiles, Position { x: p.x, y: p.y + 1 }, v);
    let r = left || right || down || up;
    proof {
        if r {
            assert(has_equal_neighbor(tiles@, i as int));
        } else {
            if has_equal_neighbor(tiles@, i as int) {
                let j = choose|j: int|
                    0 <= j < tiles@.len() && adjacent(p, (#[trigger] tiles@[j]).pos)
                        && tiles@[j].value == v;
                let q = tiles@[j].pos;
                assert(q.x < size && q.y < size);
                assert(false);
            }
        }
    }
    r
}

/// Decide whether the game is over: the grid must be full and no tile
/// may have an equal-valued orthogonal neighbor. A board that is not
/// full is reported as not over at once.
#[verifier::loop_isolation(false)]
pub fn end_game(tiles: &Vec<Tile>, size: u8) -> (r: bool)
    requires
        well_formed_tiles(tiles@, size as int),
    ensures
        r == game_over(tiles@, size as int),
{
    proof {
        assert((size as int) * (size as int) <= 255 * 255) by (nonlinear_arith)
            requires
                size as int <= 255,
        ;
    }
    if tiles.len() != (size as usize) * (size as usize) {
        return false;
    }
    let mut i: usize = 0;
    while i < tiles.len()
        invariant
            i <= tiles@.len(),
            forall|k: int| 0 <= k < i ==> !has_equal_neighbor(tiles@, k),
        decreases tiles@.len() - i,
    {
        if tile_has_equal_neighbor(tiles, i, size) {
            return false;
        }
        i += 1;
    }
    true
}

} // verus!
