use vstd::prelude::*;

use crate::board::Board;
use crate::board_shift::BoardShift;
use crate::end_game::{end_game, game_over};
use crate::game::{game_reset, Game};
use crate::laws::{lemma_shift_ids_bounded, lemma_shift_score_bounded, lemma_shift_well_formed};
use crate::position::{in_range, Position};
use crate::shift::{
    board_shift, moved_from, removed_ids, shift_moved, shift_score, shifted, ShiftOutcome,
};
use crate::spawn::{new_tile_handler, spawn_tile, spawn_tiles};
use crate::tile::{is_pow2, lemma_sum_append, occupied, sum_values, well_formed_tiles, Tile};

verus! {

/// Whether the session is still taking shift commands or has ended.
#[derive(Clone, Copy, Debug, PartialEq, Eq, Structural)]
pub enum RunState {
    Playing,
    GameOver,
}

/// The whole game session: the board, the live tiles, the scoreboard,
/// the run state, and the next fresh tile identity.
pub struct GameState {
    pub board: Board,
    pub tiles: Vec<Tile>,
    pub game: Game,
    pub run_state: RunState,
    pub next_id: u64,
}

/// The session invariant: a valid board, a well-formed tile store,
/// every identity below the next fresh one, and the best score at
/// least the running score.
pub open spec fn state_ok(s: GameState) -> bool {
    &&& 2 <= s.board.size
    &&& well_formed_tiles(s.tiles@, s.board.size as int)
    &&& forall|i: int| 0 <= i < s.tiles@.len() ==> (#[trigger] s.tiles@[i]).id < s.next_id
    &&& s.game.score <= s.game.best_score
}

/// The index of the tile carrying identity `id`, if any.
fn find_by_id(tiles: &Vec<Tile>, id: u64) -> (r: Option<usize>)
    ensures
        r matches Some(i) ==> i < tiles@.len() && tiles@[i as int].id == id,
        r is None ==> forall|i: int| 0 <= i < tiles@.len() ==> (#[trigger] tiles@[i]).id != id,
{
    let mut i: usize = 0;
    while i < tiles.len()
        invariant
            i <= tiles@.len(),
            forall|k: int| 0 <= k < i ==> (#[trigger] tiles@[k]).id != id,
        decreases tiles@.len() - i,
    {
        if tiles[i].id == id {
            return Some(i);
        }
        i += 1;
    }
    None
}

/// Whether the resolution changed the board: something was absorbed,
/// or some surviving identity now sits on another cell.
#[verifier::loop_isolation(false)]
fn detect_change(tiles: &Vec<Tile>, out: &ShiftOutcome) -> (r: bool)
    requires
        forall|i: int, j: int|
            0 <= i < tiles@.len() && 0 <= j < tiles@.len() && i != j ==> (#[trigger] tiles@[i]).id
                != (#[trigger] tiles@[j]).id,
    ensures
        r == moved_from(tiles@, out.tiles@, out.removed@),
{
    if out.removed.len() > 0 {
        return true;
    }
    let mut k: usize = 0;
    while k < out.tiles.len()
        invariant
            k <= out.tiles@.len(),
            forall|k2: int, i: int|
                0 <= k2 < k && 0 <= i < tiles@.len() && (#[trigger] out.tiles@[k2]).id == (
                #[trigger] tiles@[i]).id ==> out.tiles@[k2].pos == tiles@[i].pos,
        decreases out.tiles@.len() - k,
    {
        let t = out.tiles[k];
        match find_by_id(tiles, t.id) {
            Some(i) => {
                if !(t.pos == tiles[i].pos) {
                    return true;
                }
            },
            None => {},
        }
        k += 1;
    }
    false
}

impl GameState {
    /// Start a session: a `size` by `size` board holding two base
    /// tiles on distinct random cells, both counters at zero.
    pub fn new(size: u8) -> (s: GameState)
        requires
            2 <= size,
        ensures
            state_ok(s),
            s.board.size == size,
            s.tiles@.len() == 2,
            forall|k: int| 0 <= k < s.tiles@.len() ==> (#[trigger] s.tiles@[k]).value == 2,
            s.game.score == 0,
            s.game.best_score == 0,
            s.run_state == RunState::Playing,
    {
        let cells = spawn_tiles(size);
        let t0 = spawn_tile(0, cells[0]);
        let t1 = spawn_tile(1, cells[1]);
        let mut tiles: Vec<Tile> = Vec::new();
        tiles.push(t0);
        tiles.push(t1);
        proof {
            assert(is_pow2(2));
        }
        GameState {
            board: Board::new(size),
            tiles,
            game: Game::new(),
            run_state: RunState::Playing,
            next_id: 2,
        }
    }

    /// Reset the session for a new round: every tile despawned, the
    /// running score zeroed, the best score kept, and the two starting
    /// tiles spawned afresh.
    pub fn game_reset(&mut self)
        requires
            state_ok(*old(self)),
            old(self).next_id + 2 <= u64::MAX,
        ensures
            state_ok(*final(self)),
            final(self).board == old(self).board,
            final(self).tiles@.len() == 2,
            forall|k: int|
                0 <= k < final(self).tiles@.len() ==> (#[trigger] final(self).tiles@[k]).value == 2,
            final(self).game.score == 0,
            final(self).game.best_score == old(self).game.best_score,
            final(self).run_state == RunState::Playing,
    {
        let cells = spawn_tiles(self.board.size);
        let t0 = spawn_tile(self.next_id, cells[0]);
        let t1 = spawn_tile(self.next_id + 1, cells[1]);
        let mut tiles: Vec<Tile> = Vec::new();
        tiles.push(t0);
        tiles.push(t1);
        proof {
            assert(is_pow2(2));
        }
        self.tiles = tiles;
        self.next_id = self.next_id + 2;
        game_reset(&mut self.game);
        self.run_state = RunState::Playing;
    }

    /// Run one full turn for a shift command: resolve the shift over a
    /// snapshot of the store, apply the whole batch, award the score,
    /// spawn one base tile on a random empty cell only if the shift
    /// changed the board, and declare the game over when the full
    /// board has no merge left.
    pub fn board_shift(&mut self, dir: BoardShift) -> (changed: bool)
        requires
            state_ok(*old(self)),
            sum_values(old(self).tiles@) + 2 <= u64::MAX as int,
            old(self).game.score + sum_values(old(self).tiles@) <= u64::MAX as int,
            old(self).next_id < u64::MAX,
        ensures
            state_ok(*final(self)),
            final(self).board == old(self).board,
            changed == shift_moved(old(self).tiles@, dir, old(self).board.size as int),
            !changed ==> {
                &&& final(self).tiles@ == shifted(
                    old(self).tiles@,
                    dir,
                    old(self).board.size as int,
                )
                &&& final(self).game == old(self).game
                &&& final(self).next_id == old(self).next_id
            },
            changed ==> {
                &&& final(self).game.score == old(self).game.score + shift_score(
                    old(self).tiles@,
                    dir,
                    old(self).board.size as int,
                )
                &&& ({
                    let bs = final(self).game.best_score;
                    let sc = final(self).game.score;
                    bs == if old(self).game.best_score < sc {
                        sc
                    } else {
                        old(self).game.best_score
                    }
                })
                &&& {
                    ||| exists|p: Position|
                        {
                            &&& in_range(p, old(self).board.size as int)
                            &&& !occupied(
                                shifted(old(self).tiles@, dir, old(self).board.size as int),
                                p,
                            )
                            &&& final(self).tiles@ == shifted(
                                old(self).tiles@,
                                dir,
                                old(self).board.size as int,
                            ).push(Tile { id: old(self).next_id, pos: p, value: 2 })
                        }
                    ||| (final(self).tiles@ == shifted(
                        old(self).tiles@,
                        dir,
                        old(self).board.size as int,
                    ) && forall|p: Position|
                        in_range(p, old(self).board.size as int) ==> occupied(
                            shifted(old(self).tiles@, dir, old(self).board.size as int),
                            p,
                        ))
                }
            },
            final(self).run_state == if game_over(
                final(self).tiles@,
                old(self).board.size as int,
            ) {
                RunState::GameOver
            } else {
                old(self).run_state
            },
            sum_values(final(self).tiles@) <= sum_values(old(self).tiles@) + 2,
    {
        let size = self.board.size;
        let ghost t0 = self.tiles@;
        let ghost sz = size as int;
        proof {
            lemma_shift_well_formed(t0, dir, sz);
            lemma_shift_score_bounded(t0, dir, sz);
            lemma_shift_ids_bounded(t0, dir, sz, old(self).next_id);
            crate::laws::lemma_shift_conserves_sum(t0, dir, sz);
        }
        let outcome = board_shift(dir, &self.tiles, size);
        let changed = detect_change(&self.tiles, &outcome);
        self.tiles = outcome.tiles;
        if changed {
            self.game.apply_delta(outcome.score_delta);
            match new_tile_handler(&self.tiles, size) {
                Some(p) => {
                    let fresh = spawn_tile(self.next_id, p);
                    let ghost before = self.tiles@;
                    self.tiles.push(fresh);
                    self.next_id = self.next_id + 1;
                    proof {
                        assert(is_pow2(2));
                        assert(self.tiles@ == before.push(fresh));
                        assert forall|i: int, j: int|
                            0 <= i < self.tiles@.len() && 0 <= j < self.tiles@.len() && i
                                != j implies (#[trigger] self.tiles@[i]).pos != (
                        #[trigger] self.tiles@[j]).pos by {
                            if j == before.len() {
                                assert(occupied(before, before[i].pos));
                            } else if i == before.len() {
                                assert(occupied(before, before[j].pos));
                            }
                        }
                        lemma_sum_append(before, seq![fresh]);
                        assert(before.push(fresh) =~= before + seq![fresh]);
                        assert(sum_values(seq![fresh]) == 2 + sum_values(
                            seq![fresh].skip(1),
                        ));
                        assert(seq![fresh].skip(1) =~= Seq::<Tile>::empty());
                    }
                },
                None => {},
            }
        }
        let over = end_game(&self.tiles, size);
        if over {
            self.run_state = RunState::GameOver;
        }
        changed
    }
}

} // verus!
