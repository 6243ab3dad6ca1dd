//! The outcome of a game, seen from its first team.
use vstd::prelude::*;

verus! {

/// Fixed-point scale of a probability: `PROB_SCALE` stands for `1.0`.
pub const PROB_SCALE: u64 = 1_000_000_000;

/// Result of a game for its first team.
#[derive(Debug, Clone, Copy, PartialEq, Eq, Structural)]
pub enum Score {
    Win,
    Loss,
    Draw,
}

/// A character that names no outcome.
#[derive(Debug, Clone, Copy, PartialEq, Eq, Structural)]
pub struct InvalidScore {
    pub found: char,
}

/// The numeric outcome of a score, in units of `1 / PROB_SCALE`.
pub open spec fn score_value(s: Score) -> int {
    match s {
        Score::Win => PROB_SCALE as int,
        Score::Loss => 0,
        Score::Draw => PROB_SCALE as int / 2,
    }
}

/// The outcome seen from the other team.
pub open spec fn inverse_spec(s: Score) -> Score {
    match s {
        Score::Win => Score::Loss,
        Score::Loss => Score::Win,
        Score::Draw => Score::Draw,
    }
}

/// The outcome a character names: `W` or `1`, `L` or `2`, `D`.
pub open spec fn score_of_char(c: char) -> Option<Score> {
    if c == 'W' || c == '1' {
        Some(Score::Win)
    } else if c == 'L' || c == '2' {
        Some(Score::Loss)
    } else if c == 'D' {
        Some(Score::Draw)
    } else {
        None
    }
}

impl Score {
    /// Win is one, loss zero and draw one half, scaled by `PROB_SCALE`.
    pub fn value(self) -> (r: u64)
        ensures
            r == score_value(self),
    {
        match self {
            Score::Win => PROB_SCALE,
            Score::Loss => 0,
            Score::Draw => PROB_SCALE / 2,
        }
    }

    /// The same game seen from the other team: win and loss swap, a draw stays.
    pub fn inverse(self) -> (r: Score)
        ensures
            r == inverse_spec(self),
            score_value(r) == PROB_SCALE - score_value(self),
    {
        match self {
            Score::Win => Score::Loss,
            Score::Loss => Score::Win,
            Score::Draw => Score::Draw,
        }
    }

    /// The outcome whose numeric value is `v` (one, zero or one half,
    /// scaled by `PROB_SCALE`), if any.
    pub fn from_value(v: u64) -> (r: Option<Score>)
        ensures
            match r {
                Some(s) => score_value(s) == v,
                None => forall|s: Score| score_value(s) != v,
            },
    {
        if v == PROB_SCALE {
            Some(Score::Win)
        } else if v == 0 {
            Some(Score::Loss)
        } else if v == PROB_SCALE / 2 {
            Some(Score::Draw)
        } else {
            None
        }
    }

    /// Reads an outcome from its one-character code, case-sensitive.
    pub fn try_from(c: char) -> (r: Result<Score, InvalidScore>)
        ensures
            match score_of_char(c) {
                Some(s) => r == Ok::<Score, InvalidScore>(s),
                None => r == Err::<Score, InvalidScore>(InvalidScore { found: c }),
            },
    {
        if c == 'W' || c == '1' {
            Ok(Score::Win)
        } else if c == 'L' || c == '2' {
            Ok(Score::Loss)
        } else if c == 'D' {
            Ok(Score::Draw)
        } else {
            Err(InvalidScore { found: c })
        }
    }
}

} // verus!
