use vstd::prelude::*;

use crate::board::{mine_target, MAX_SIDE};
use crate::grid::{flag_result, reveal_result, FlagOutcome, Grid, RevealOutcome};

verus! {

/// Where a game stands.
#[derive(Clone, Copy, Debug, PartialEq, Eq, Structural)]
pub enum GameState {
    Playing,
    GameOver { won: bool },
}

/// The state a game moves to after a reveal reported `out`.
pub open spec fn state_after_reveal(out: RevealOutcome) -> GameState {
    if out is Detonated {
        GameState::GameOver { won: false }
    } else {
        GameState::Playing
    }
}

/// The state a game moves to after a flag toggle reported `out`.
pub open spec fn state_after_flag(out: FlagOutcome) -> GameState {
    match out {
        FlagOutcome::Toggled { won: true, .. } => GameState::GameOver { won: true },
        _ => GameState::Playing,
    }
}

/// One game: a board and where play stands on it. Moves are taken only
/// while playing.
pub struct Game {
    pub grid: Grid,
    pub state: GameState,
}

impl Game {
    /// A game in play on `grid`.
    pub fn new(grid: Grid) -> (g: Game)
        ensures
            g.grid@ == grid@,
            g.state == GameState::Playing,
    {
        Game { grid, state: GameState::Playing }
    }

    /// A game in play on a freshly generated board of side `n`.
    pub fn new_game(n: usize) -> (g: Game)
        requires
            1 <= n <= MAX_SIDE,
        ensures
            g.grid@.wf(),
            g.grid@.n == n,
            g.grid@.mine_count() == mine_target(n as int),
            forall|c: int, r: int|
                #![trigger g.grid@.revealed(c, r)]
                g.grid@.in_bounds(c, r) ==> !g.grid@.revealed(c, r) && !g.grid@.flag_at(c, r),
            g.state == GameState::Playing,
    {
        Game::new(Grid::generate(n))
    }

    pub fn reveal_at(&mut self, c: usize, r: usize) -> (out: RevealOutcome)
        requires
            old(self).grid@.wf(),
            old(self).grid@.in_bounds(c as int, r as int),
        ensures
            final(self).grid@.wf(),
            old(self).state == GameState::Playing ==> {
                &&& reveal_result(old(self).grid@, c as int, r as int, final(self).grid@, out)
                &&& final(self).state == state_after_reveal(out)
            },
            old(self).state != GameState::Playing ==> {
                &&& out is NoOp
                &&& final(self).grid@ == old(self).grid@
                &&& final(self).state == old(self).state
            },
    {
        match self.state {
            GameState::Playing => {
                let out = self.grid.reveal_at(c, r);
                if let RevealOutcome::Detonated(_) = out {
                    self.state = GameState::GameOver { won: false };
                }
                out
            },
            GameState::GameOver { .. } => RevealOutcome::NoOp,
        }
    }

    pub fn toggle_flag_at(&mut self, c: usize, r: usize) -> (out: FlagOutcome)
        requires
            old(self).grid@.wf(),
            old(self).grid@.in_bounds(c as int, r as int),
        ensures
            final(self).grid@.wf(),
            old(self).state == GameState::Playing ==> {
                &&& flag_result(old(self).grid@, c as int, r as int, final(self).grid@, out)
                &&& final(self).state == state_after_flag(out)
            },
            old(self).state != GameState::Playing ==> {
                &&& out is NoOp
                &&& final(self).grid@ == old(self).grid@
                &&& final(self).state == old(self).state
            },
    {
        match self.state {
            GameState::Playing => {
                let out = self.grid.toggle_flag_at(c, r);
                if let FlagOutcome::Toggled { won: true, .. } = out {
                    self.state = GameState::GameOver { won: true };
                }
                out
            },
            GameState::GameOver { .. } => FlagOutcome::NoOp,
        }
    }
}

} // verus!
