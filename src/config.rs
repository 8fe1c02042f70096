use vstd::prelude::*;

verus! {

/// The dealer keeps drawing while the score is at most this, when the dealer hits soft 17.
pub const SOFT_DRAW_LIMIT: i32 = 16;

/// The dealer keeps drawing while the score is at most this, when the dealer stands on soft 17.
pub const HARD_DRAW_LIMIT: i32 = 17;

/// How the player chooses between standing and hitting again at a decision point.
#[derive(Clone, Copy, Debug, PartialEq, Eq, Structural)]
pub enum Decision {
    /// Take the branch with the higher chance of winning.
    MostWin,
    /// Take the branch with the lower chance of losing.
    LeastLoss,
}

/// The score up to which the dealer keeps drawing, by whether the dealer hits soft 17.
pub open spec fn dealer_limit(soft_17: bool) -> int {
    if soft_17 {
        SOFT_DRAW_LIMIT as int
    } else {
        HARD_DRAW_LIMIT as int
    }
}

/// The rule configuration of one calculation.
#[derive(Clone, Copy, Debug, PartialEq, Eq, Structural)]
pub struct Config {
    pub soft_17: bool,
    pub decision: Decision,
}

impl Config {
    /// The score up to which the dealer keeps drawing under this configuration.
    pub open spec fn spec_draw_limit(self) -> int {
        dealer_limit(self.soft_17)
    }

    pub fn draw_limit(&self) -> (r: i32)
        ensures
            r == self.spec_draw_limit(),
    {
        if self.soft_17 {
            SOFT_DRAW_LIMIT
        } else {
            HARD_DRAW_LIMIT
        }
    }
}

impl Default for Config {
    /// The dealer hits soft 17 and the player goes for the most wins.
    fn default() -> (r: Config)
        ensures
            r.soft_17,
            r.decision == Decision::MostWin,
    {
        Config { soft_17: true, decision: Decision::MostWin }
    }
}

} // verus!
