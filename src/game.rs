//! Players' ratings and completed games.
use vstd::prelude::*;
use crate::score::Score;

verus! {

/// Rating of a player never seen before: 2000 points.
pub const DEFAULT_ELO: i64 = 2_000_000;

/// A player's rating, in thousandths of a point.
#[derive(Debug, Clone, Copy, PartialEq, Eq, Structural)]
pub struct Player {
    pub elo: i64,
}

impl Player {
    /// A player at the default rating.
    pub fn new() -> (r: Player)
        ensures
            r.elo == DEFAULT_ELO,
    {
        Player::with_elo(DEFAULT_ELO)
    }

    /// A player at the given rating.
    pub fn with_elo(elo: i64) -> (r: Player)
        ensures
            r.elo == elo,
    {
        Player { elo }
    }

    /// The rating, in thousandths of a point.
    pub fn rating_value(&self) -> (r: i64)
        ensures
            r == self.elo,
    {
        self.elo
    }
}

impl Default for Player {
    fn default() -> (r: Player)
        ensures
            r.elo == DEFAULT_ELO,
    {
        Player::new()
    }
}

/// A completed game: two teams of one size, at least one player each, and
/// the outcome for the first team. A player may be listed more than once.
#[derive(Debug)]
pub struct Game {
    team1: Vec<u64>,
    team2: Vec<u64>,
    score: Score,
}

impl Game {
    #[verifier::type_invariant]
    spec fn inv(&self) -> bool {
        self.team1.len() == self.team2.len() && self.team1.len() > 0
    }

    /// The first team.
    pub closed spec fn first(&self) -> Seq<u64> {
        self.team1@
    }

    /// The second team.
    pub closed spec fn second(&self) -> Seq<u64> {
        self.team2@
    }

    /// The outcome for the first team.
    pub closed spec fn outcome(&self) -> Score {
        self.score
    }

    /// Builds a game from two teams of equal, positive size.
    pub fn new(team1: Vec<u64>, team2: Vec<u64>, score: Score) -> (r: Game)
        requires
            team1.len() == team2.len(),
            team1.len() > 0,
        ensures
            r.first() == team1@,
            r.second() == team2@,
            r.outcome() == score,
    {
        Game { team1, team2, score }
    }

    /// The first team; both teams have the same, positive size.
    pub fn team1(&self) -> (r: &Vec<u64>)
        ensures
            r@ == self.first(),
            self.first().len() == self.second().len(),
            self.first().len() > 0,
    {
        proof {
            use_type_invariant(self);
        }
        &self.team1
    }

    /// The second team.
    pub fn team2(&self) -> (r: &Vec<u64>)
        ensures
            r@ == self.second(),
    {
        &self.team2
    }

    /// The outcome for the first team.
    pub fn score(&self) -> (r: Score)
        ensures
            r == self.outcome(),
    {
        self.score
    }
}

} // verus!
