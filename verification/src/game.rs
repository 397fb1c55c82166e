use vstd::prelude::*;

verus! {

/// The score tracker: the running score of the current round and the
/// session's high-water best score.
#[derive(Clone, Copy, Debug, PartialEq, Eq, Structural)]
pub struct Game {
    pub score: u64,
    pub best_score: u64,
}

impl Game {
    /// A fresh scoreboard, both counters at zero.
    pub fn new() -> (g: Game)
        ensures
            g.score == 0,
            g.best_score == 0,
    {
        Game { score: 0, best_score: 0 }
    }

    /// Accumulate one resolution's score and keep the best score the
    /// high-water mark of the running score.
    pub fn apply_delta(&mut self, delta: u64)
        requires
            old(self).score + delta <= u64::MAX,
        ensures
            final(self).score == old(self).score + delta,
            final(self).best_score == if old(self).best_score < old(self).score + delta {
                (old(self).score + delta) as u64
            } else {
                old(self).best_score
            },
    {
        self.score = self.score + delta;
        if self.best_score < self.score {
            self.best_score = self.score;
        }
    }
}

/// Reset for a new round: the running score returns to zero; the best
/// score survives the reset.
pub fn game_reset(game: &mut Game)
    ensures
        final(game).score == 0,
        final(game).best_score == old(game).best_score,
{
    game.score = 0;
}

} // verus!
