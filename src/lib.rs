//! Team-game skill ratings: an Elo store, the per-game update rule and an
//! exact team balancer, all on fixed-point integers.
//!
//! A rating is held in thousandths of a point (`2030.5` points is `2_030_500`),
//! and a probability in billionths (`0.5` is `500_000_000`).
use vstd::prelude::*;

pub mod score;
pub mod expected;
pub mod game;
pub mod ratings;
pub mod manager;
pub mod balance;
pub mod records;

verus! {

pub use crate::balance::{BalanceError, MAX_ROSTER};
pub use crate::expected::{RATING_SCALE, SATURATION};
pub use crate::game::{Game, Player, DEFAULT_ELO};
pub use crate::manager::{EloManager, DEFAULT_K};
pub use crate::records::{parse_score_line, parse_team_line, RecordError, TeamRecord};
pub use crate::score::{InvalidScore, Score, PROB_SCALE};

} // verus!
