use vstd::prelude::*;

use rand::seq::IteratorRandom;

use crate::position::{in_range, Position};
use crate::tile::{occupied, Tile};

verus! {

/// Relies on rand's `IteratorRandom::choose`: it returns `None` if and
/// only if the iterator is empty, and any element it returns was
/// yielded by the iterator. Which element comes back is up to the
/// thread-local generator, so nothing more is claimed.
#[verifier::external_body]
fn choose_cell(cells: &Vec<Position>) -> (r: Option<Position>)
    ensures
        r is Some <==> cells@.len() > 0,
        r matches Some(p) ==> cells@.contains(p),
{
    cells.iter().cloned().choose(&mut rand::thread_rng())
}

/// Relies on rand's `IteratorRandom::choose_multiple`: it samples
/// `amount` elements of the iterator without replacement — all of
/// them when it holds fewer — so distinct inputs stay distinct. Which
/// elements come back is up to the thread-local generator.
#[verifier::external_body]
fn choose_cells(cells: &Vec<Position>, amount: usize) -> (r: Vec<Position>)
    ensures
        r@.len() == if cells@.len() < amount {
            cells@.len() as int
        } else {
            amount as int
        },
        forall|k: int| 0 <= k < r@.len() ==> cells@.contains(#[trigger] r@[k]),
        cells@.no_duplicates() ==> r@.no_duplicates(),
{
    cells.iter().cloned().choose_multiple(&mut rand::thread_rng(), amount)
}

/// Whether some tile sits on cell `p`.
fn cell_occupied(tiles: &Vec<Tile>, p: Position) -> (r: bool)
    ensures
        r == occupied(tiles@, p),
{
    let mut j: usize = 0;
    while j < tiles.len()
        invariant
            j <= tiles@.len(),
            forall|k: int| 0 <= k < j ==> (#[trigger] tiles@[k]).pos != p,
        decreases tiles@.len() - j,
    {
        if tiles[j].pos == p {
            return true;
        }
        j += 1;
    }
    false
}

/// Every empty cell of the grid, each exactly once.
#[verifier::loop_isolation(false)]
pub fn empty_cells(tiles: &Vec<Tile>, size: u8) -> (r: Vec<Position>)
    ensures
        forall|p: Position|
            #[trigger] r@.contains(p) <==> in_range(p, size as int) && !occupied(tiles@, p),
        r@.no_duplicates(),
{
    let mut r: Vec<Position> = Vec::new();
    let mut x: u8 = 0;
    while x < size
        invariant
            x <= size,
            forall|p: Position|
                #[trigger] r@.contains(p) <==> p.x < x && p.y < size && !occupied(tiles@, p),
            r@.no_duplicates(),
        decreases size as int - x as int,
    {
        let mut y: u8 = 0;
        while y < size
            invariant
                x < size,
                y <= size,
                forall|p: Position|
                    #[trigger] r@.contains(p) <==> ((p.x < x && p.y < size) || (p.x == x && p.y < y))
                        && !occupied(tiles@, p),
                r@.no_duplicates(),
            decreases size as int - y as int,
        {
            let p = Position { x, y };
            if !cell_occupied(tiles, p) {
                proof {
                    assert(!r@.contains(p));
                }
                let ghost old_r = r@;
                r.push(p);
                proof {
                    assert(r@ == old_r.push(p));
                    assert forall|q: Position| #[trigger] r@.contains(q) implies (old_r.contains(q)
                        || q == p) by {
                        let k = choose|k: int| 0 <= k < r@.len() && r@[k] == q;
                        if k < old_r.len() {
                            assert(old_r[k] == q);
                        }
                    }
                    assert forall|q: Position| old_r.contains(q) implies #[trigger] r@.contains(
                        q,
                    ) by {
                        let k = choose|k: int| 0 <= k < old_r.len() && old_r[k] == q;
                        assert(r@[k] == q);
                    }
                    assert(r@.contains(p)) by {
                        assert(r@[old_r.len() as int] == p);
                    }
                    assert forall|k1: int, k2: int| 0 <= k1 < k2 < r@.len() implies r@[k1]
                        != r@[k2] by {
                        if k2 == old_r.len() {
                            assert(old_r.contains(old_r[k1]));
                        }
                    }
                }
            }
            y = y + 1;
        }
        x = x + 1;
    }
    proof {
        assert forall|p: Position| #[trigger] r@.contains(p) implies in_range(p, size as int)
            && !occupied(tiles@, p) by {}
    }
    r
}

/// Pick the cell for the one tile spawned after a successful shift:
/// an empty cell, chosen by the random source, and `None` exactly when
/// the board has none left.
pub fn new_tile_handler(tiles: &Vec<Tile>, size: u8) -> (r: Option<Position>)
    ensures
        r is Some <==> exists|p: Position| in_range(p, size as int) && !occupied(tiles@, p),
        r matches Some(p) ==> in_range(p, size as int) && !occupied(tiles@, p),
{
    let cells = empty_cells(tiles, size);
    let r = choose_cell(&cells);
    proof {
        if cells@.len() > 0 {
            assert(cells@.contains(cells@[0]));
        }
        if exists|p: Position| in_range(p, size as int) && !occupied(tiles@, p) {
            let p = choose|p: Position| in_range(p, size as int) && !occupied(tiles@, p);
            assert(cells@.contains(p));
        }
    }
    r
}

/// The two distinct cells a fresh game starts its tiles on, chosen by
/// the random source over the whole grid.
pub fn spawn_tiles(size: u8) -> (r: Vec<Position>)
    requires
        2 <= size,
    ensures
        r@.len() == 2,
        forall|k: int| 0 <= k < r@.len() ==> in_range(#[trigger] r@[k], size as int),
        r@[0] != r@[1],
{
    let no_tiles: Vec<Tile> = Vec::new();
    let cells = empty_cells(&no_tiles, size);
    proof {
        let p0 = Position { x: 0, y: 0 };
        let p1 = Position { x: 0, y: 1 };
        assert(!occupied(no_tiles@, p0) && !occupied(no_tiles@, p1));
        assert(cells@.contains(p0) && cells@.contains(p1));
        let k0 = choose|k: int| 0 <= k < cells@.len() && cells@[k] == p0;
        let k1 = choose|k: int| 0 <= k < cells@.len() && cells@[k] == p1;
        assert(k0 != k1);
        assert(cells@.len() >= 2);
    }
    let r = choose_cells(&cells, 2);
    r
}

/// A freshly spawned tile: it always carries the base value 2.
pub fn spawn_tile(id: u64, pos: Position) -> (t: Tile)
    ensures
        t.id == id,
        t.pos == pos,
        t.value == 2,
{
    Tile { id, pos, value: 2 }
}

} // verus!
