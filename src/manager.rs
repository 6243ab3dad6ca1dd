//! The rating table and the processing of completed games.
use std::collections::HashMap;
use vstd::prelude::*;
use crate::expected::{expected_spec, win_probability, RATING_SCALE};
use crate::game::{Game, Player, DEFAULT_ELO};
use crate::ratings::{
    game_delta, has_headroom, lemma_delta_bound, lemma_occurrences_bounds, lemma_team_sum_bounds,
    lemma_team_sum_same, lemma_trunc_div_bounds, max_step, occurrences, processed, rating_of,
    registered, team_mean, team_sum,
};
use crate::score::PROB_SCALE;

verus! {

broadcast use vstd::std_specs::hash::group_hash_axioms;

/// Sensitivity `K` of a table built by `new`: 60 points per game.
pub const DEFAULT_K: u32 = 60;

/// Ratings of players keyed by id, with the sensitivity used to update them.
pub struct EloManager {
    players: HashMap<u64, Player>,
    k: u32,
}

impl View for EloManager {
    type V = Map<u64, int>;

    closed spec fn view(&self) -> Map<u64, int> {
        self.players@.map_values(|p: Player| p.elo as int)
    }
}

impl EloManager {
    /// The sensitivity `K`, in rating points per game.
    pub closed spec fn k_factor(&self) -> int {
        self.k as int
    }

    /// Every rating held fits an `i64`.
    pub proof fn lemma_ratings_fit(&self)
        ensures
            forall|id: u64|
                i64::MIN <= #[trigger] rating_of(self@, id) <= i64::MAX,
            self.k_factor() <= u32::MAX,
    {
        assert forall|id: u64| i64::MIN <= #[trigger] rating_of(self@, id) <= i64::MAX by {
            if self@.contains_key(id) {
                assert(self@[id] == self.players@[id].elo as int);
            }
        }
    }

    /// An empty table with the default sensitivity.
    pub fn new() -> (r: EloManager)
        ensures
            r@ == Map::<u64, int>::empty(),
            r.k_factor() == DEFAULT_K,
    {
        EloManager::with_k(DEFAULT_K)
    }

    /// An empty table with sensitivity `k` points per game.
    pub fn with_k(k: u32) -> (r: EloManager)
        ensures
            r@ == Map::<u64, int>::empty(),
            r.k_factor() == k,
    {
        let r = EloManager { players: HashMap::new(), k };
        assert(r@ =~= Map::<u64, int>::empty());
        r
    }

    /// Probability, in units of `1 / PROB_SCALE`, that a side rated `elo1`
    /// beats a side rated `elo2`: `1 / (1 + 10^(gap / R))` with the gap
    /// `elo2 - elo1` clamped to `[-R, R]`, `R` being `SATURATION`.
    pub fn expected_score(elo1: i64, elo2: i64) -> (r: u64)
        ensures
            r == expected_spec(elo1 as int, elo2 as int),
            0 < r < PROB_SCALE,
    {
        win_probability(elo1, elo2)
    }

    /// The sensitivity `K`, in rating points per game.
    pub fn k(&self) -> (r: u32)
        ensures
            r == self.k_factor(),
    {
        self.k
    }

    /// The whole table, for ranking and export.
    pub fn players(&self) -> (r: &HashMap<u64, Player>)
        ensures
            r@.map_values(|p: Player| p.elo as int) == self@,
    {
        &self.players
    }

    /// Sets the rating of `id`, replacing any earlier one.
    pub fn insert(&mut self, id: u64, player: Player)
        ensures
            final(self)@ == old(self)@.insert(id, player.elo as int),
            final(self).k_factor() == old(self).k_factor(),
    {
        self.players.insert(id, player);
        assert(self@ =~= old(self)@.insert(id, player.elo as int));
    }

    /// The rating of `id`, or the default rating if it has none; the table
    /// is left as it is.
    pub fn get_or_default(&self, id: u64) -> (r: i64)
        ensures
            r == rating_of(self@, id),
    {
        match self.players.get(&id) {
            Some(p) => p.elo,
            None => DEFAULT_ELO,
        }
    }

    /// The rating of `id`; an id without one is first given the default.
    pub fn get_or_insert_default(&mut self, id: u64) -> (r: i64)
        ensures
            r == rating_of(old(self)@, id),
            final(self)@ == registered(old(self)@, seq![id]),
            final(self).k_factor() == old(self).k_factor(),
    {
        let r = match self.players.get(&id) {
            Some(p) => p.elo,
            None => {
                self.players.insert(id, Player::new());
                DEFAULT_ELO
            },
        };
        assert(self@ =~= registered(old(self)@, seq![id])) by {
            assert(seq![id].contains(id)) by {
                assert(seq![id][0] == id);
            }
        }
        r
    }

    /// Sum of the ratings of the listings of `team`.
    pub(crate) fn team_total(&self, team: &[u64]) -> (r: i128)
        ensures
            r == team_sum(self@, team@),
    {
        proof {
            self.lemma_ratings_fit();
        }
        let mut acc: i128 = 0;
        let mut i: usize = 0;
        while i < team.len()
            invariant
                i <= team@.len(),
                acc == team_sum(self@, team@.take(i as int)),
                forall|id: u64| i64::MIN <= #[trigger] rating_of(self@, id) <= i64::MAX,
            decreases team@.len() - i,
        {
            let x = self.get_or_default(team[i]);
            proof {
                let t = team@.take(i as int + 1);
                assert(t.drop_last() =~= team@.take(i as int));
                assert(t.last() == team@[i as int]);
                lemma_team_sum_bounds(self@, t, i64::MIN as int, i64::MAX as int);
                assert(t.len() * (i64::MIN as int) >= i128::MIN) by (nonlinear_arith)
                    requires
                        t.len() <= usize::MAX + 1,
                        usize::MAX <= u64::MAX,
                ;
                assert(t.len() * (i64::MAX as int) <= i128::MAX) by (nonlinear_arith)
                    requires
                        t.len() <= usize::MAX + 1,
                        usize::MAX <= u64::MAX,
                ;
            }
            acc = acc + x as i128;
            i = i + 1;
        }
        assert(team@.take(team@.len() as int) =~= team@);
        acc
    }

    /// Mean rating of `team`, rounded toward zero; ids without a rating count
    /// at the default, and the table is left as it is.
    pub fn mean_elo(&self, team: &[u64]) -> (r: i64)
        requires
            team@.len() > 0,
        ensures
            r == team_mean(self@, team@),
    {
        let total = self.team_total(team);
        proof {
            self.lemma_ratings_fit();
            lemma_team_sum_bounds(self@, team@, i64::MIN as int, i64::MAX as int);
            lemma_trunc_div_bounds(total as int, team@.len() as int, i64::MIN as int, i64::MAX as int);
        }
        let n = team.len() as i128;
        if total >= 0 {
            (total / n) as i64
        } else {
            (-((-total) / n)) as i64
        }
    }

    /// Registers every id of `team` at the default rating if it has none,
    /// and returns the team's mean rating.
    fn mean_elo_insert(&mut self, team: &[u64]) -> (r: i64)
        requires
            team@.len() > 0,
        ensures
            r == team_mean(old(self)@, team@),
            final(self)@ == registered(old(self)@, team@),
            final(self).k_factor() == old(self).k_factor(),
    {
        let mut i: usize = 0;
        while i < team.len()
            invariant
                i <= team@.len(),
                self@ == registered(old(self)@, team@.take(i as int)),
                self.k_factor() == old(self).k_factor(),
            decreases team@.len() - i,
        {
            let ghost before = self@;
            self.get_or_insert_default(team[i]);
            proof {
                let t = team@.take(i as int + 1);
                assert forall|k: u64| t.contains(k) <==> (team@.take(i as int).contains(k) || k
                    == team@[i as int]) by {
                    if t.contains(k) {
                        let j = choose|j: int| 0 <= j < t.len() && t[j] == k;
                        if j < i {
                            assert(team@.take(i as int)[j] == k);
                        }
                    }
                    if team@.take(i as int).contains(k) {
                        let j = choose|j: int|
                            0 <= j < i && team@.take(i as int)[j] == k;
                        assert(t[j] == k);
                    }
                    if k == team@[i as int] {
                        assert(t[i as int] == k);
                    }
                }
                assert(seq![team@[i as int]].contains(team@[i as int])) by {
                    assert(seq![team@[i as int]][0] == team@[i as int]);
                }
                assert forall|k: u64| #[trigger] seq![team@[i as int]].contains(k) implies k
                    == team@[i as int] by {}
                assert(self@ =~= registered(old(self)@, t));
            }
            i = i + 1;
        }
        assert(team@.take(team@.len() as int) =~= team@);
        let r = self.mean_elo(team);
        proof {
            lemma_team_sum_same(self@, old(self)@, team@);
        }
        r
    }

    /// Adds `delta` to the rating of each listing of `team` (so twice to an
    /// id listed twice); every id of `team` must already have a rating.
    fn shift_team(&mut self, team: &[u64], delta: i64)
        requires
            forall|id: u64| team@.contains(id) ==> old(self)@.contains_key(id),
            forall|id: u64|
                team@.contains(id) ==> i64::MIN + team@.len() * max_step(old(self).k_factor())
                    <= #[trigger] old(self)@[id] <= i64::MAX - team@.len() * max_step(
                    old(self).k_factor(),
                ),
            -max_step(old(self).k_factor()) <= delta <= max_step(old(self).k_factor()),
        ensures
            final(self)@ == Map::new(
                |id: u64| old(self)@.contains_key(id),
                |id: u64| old(self)@[id] + occurrences(team@, id) * delta,
            ),
            final(self).k_factor() == old(self).k_factor(),
    {
        let ghost m0 = old(self)@;
        let ghost step = max_step(old(self).k_factor());
        let mut i: usize = 0;
        while i < team.len()
            invariant
                i <= team@.len(),
                self.k_factor() == old(self).k_factor(),
                step == max_step(self.k_factor()),
                -step <= delta <= step,
                forall|id: u64| team@.contains(id) ==> m0.contains_key(id),
                forall|id: u64|
                    team@.contains(id) ==> i64::MIN + team@.len() * step <= #[trigger] m0[id]
                        <= i64::MAX - team@.len() * step,
                self@ == Map::new(
                    |id: u64| m0.contains_key(id),
                    |id: u64| m0[id] + occurrences(team@.take(i as int), id) * delta,
                ),
            decreases team@.len() - i,
        {
            let id = team[i];
            let ghost t = team@.take(i as int + 1);
            proof {
                assert(t.drop_last() =~= team@.take(i as int));
                assert(t.last() == id);
                assert(team@.contains(id)) by {
                    assert(team@[i as int] == id);
                }
                lemma_occurrences_bounds(team@.take(i as int), id);
                let o = occurrences(team@.take(i as int), id);
                let n = team@.len() as int;
                assert(-(n * step) <= (o + 1) * delta <= n * step) by (nonlinear_arith)
                    requires
                        0 <= o < n,
                        o <= i,
                        i < n,
                        -step <= delta <= step,
                ;
                self.lemma_ratings_fit();
            }
            let cur = self.get_or_default(id);
            proof {
                let o = occurrences(team@.take(i as int), id);
                assert(cur == m0[id] + o * delta);
                assert(o * delta + delta == (o + 1) * delta) by (nonlinear_arith);
            }
            self.insert(id, Player::with_elo(cur + delta));
            proof {
                assert(self@ =~= Map::new(
                    |k: u64| m0.contains_key(k),
                    |k: u64| m0[k] + occurrences(t, k) * delta,
                )) by {
                    assert forall|k: u64| m0.contains_key(k) implies self@[k] == m0[k] + occurrences(t, k) * delta by {
                        if k == id {
                            assert(m0[k] + occurrences(t, k) * delta == m0[k] + occurrences(team@.take(i as int), k) * delta + delta) by (nonlinear_arith)
                                requires
                                    occurrences(t, k) == occurrences(team@.take(i as int), k) + 1,
                            ;
                        }
                    }
                }
            }
            i = i + 1;
        }
        assert(team@.take(team@.len() as int) =~= team@);
    }

    /// Whether every id of `team` has a rating in `[MIN + span, MAX - span]`.
    fn team_fits(&self, team: &[u64], span: i128) -> (r: bool)
        requires
            0 <= span,
        ensures
            r == forall|id: u64|
                team@.contains(id) ==> i64::MIN + span <= #[trigger] rating_of(self@, id)
                    <= i64::MAX - span,
    {
        let mut i: usize = 0;
        while i < team.len()
            invariant
                i <= team@.len(),
                0 <= span,
                forall|j: int|
                    0 <= j < i ==> i64::MIN + span <= #[trigger] rating_of(self@, team@[j])
                        <= i64::MAX - span,
            decreases team@.len() - i,
        {
            let x = self.get_or_default(team[i]) as i128;
            if x < (i64::MIN as i128) + span || x > (i64::MAX as i128) - span {
                assert(team@.contains(team@[i as int]));
                return false;
            }
            i = i + 1;
        }
        assert forall|id: u64| team@.contains(id) implies i64::MIN + span <= #[trigger] rating_of(
            self@,
            id,
        ) <= i64::MAX - span by {
            let j = choose|j: int| 0 <= j < team@.len() && team@[j] == id;
            assert(i64::MIN + span <= rating_of(self@, team@[j]) <= i64::MAX - span);
        }
        true
    }

    /// Whether `process` may be called on `game`: every participant's rating
    /// stays within `i64` however the game goes.
    pub fn can_process(&self, game: &Game) -> (r: bool)
        ensures
            r == has_headroom(self@, self.k_factor(), game.first(), game.second()),
    {
        let t1 = game.team1();
        let t2 = game.team2();
        let n1 = t1.len() as i128;
        let n2 = t2.len() as i128;
        proof {
            assert((n1 + n2) * self.k * 1000 <= (2 * (usize::MAX as int)) * u32::MAX * 1000) by (nonlinear_arith)
                requires
                    0 <= n1 <= usize::MAX,
                    0 <= n2 <= usize::MAX,
                    0 <= self.k <= u32::MAX,
            ;
            assert(0 <= (n1 + n2) * self.k * 1000) by (nonlinear_arith)
                requires
                    0 <= n1,
                    0 <= n2,
                    0 <= self.k,
            ;
        }
        let span: i128 = (n1 + n2) * (self.k as i128) * (RATING_SCALE as i128);
        let ok1 = self.team_fits(t1.as_slice(), span);
        let ok2 = self.team_fits(t2.as_slice(), span);
        proof {
            let h = has_headroom(self@, self.k_factor(), game.first(), game.second());
            let n = (n1 + n2) as int;
            let kk = self.k as int;
            assert(n * kk * 1000 == n * (kk * 1000)) by (nonlinear_arith);
            assert(span == (game.first().len() + game.second().len()) * max_step(self.k_factor()));
            if ok1 && ok2 {
                assert(h);
            }
            if !ok1 {
                let id = choose|id: u64| !(t1@.contains(id) ==> i64::MIN + span <= #[trigger] rating_of(self@, id)
                    <= i64::MAX - span);
                assert(!h);
            }
            if !ok2 {
                let id = choose|id: u64| !(t2@.contains(id) ==> i64::MIN + span <= #[trigger] rating_of(self@, id)
                    <= i64::MAX - span);
                assert(!h);
            }
        }
        ok1 && ok2
    }

    /// Applies a completed game. Every participant is first registered at
    /// the default rating if it has none; then, with `e` the expected score
    /// of the first team's mean rating against the second's and `o` the
    /// outcome, each listing in the first team gains `K * (o - e)` and each
    /// listing in the second loses it, rounded toward zero.
    pub fn process(&mut self, game: &Game)
        requires
            has_headroom(old(self)@, old(self).k_factor(), game.first(), game.second()),
        ensures
            final(self)@ == processed(
                old(self)@,
                old(self).k_factor(),
                game.first(),
                game.second(),
                game.outcome(),
            ),
            final(self).k_factor() == old(self).k_factor(),
    {
        let ghost m0 = self@;
        let ghost kf = self.k_factor();
        let t1 = game.team1();
        let t2 = game.team2();
        let mean1 = self.mean_elo_insert(t1.as_slice());
        let ghost m1 = self@;
        let mean2 = self.mean_elo_insert(t2.as_slice());
        let ghost m2 = self@;
        proof {
            lemma_team_sum_same(m1, m0, t2@);
        }
        let e = win_probability(mean1, mean2);
        let diff: i128 = game.score().value() as i128 - e as i128;
        proof {
            assert(mean2 == team_mean(m0, t2@));
            self.lemma_ratings_fit();
            assert(-(PROB_SCALE as int) <= diff <= PROB_SCALE);
            assert(-(u32::MAX * 1000 * PROB_SCALE) <= (self.k as int) * 1000 * diff <= u32::MAX * 1000
                * PROB_SCALE) by (nonlinear_arith)
                requires
                    0 <= self.k <= u32::MAX,
                    -(PROB_SCALE as int) <= diff <= PROB_SCALE,
            ;
        }
        let num: i128 = (self.k as i128) * (RATING_SCALE as i128) * diff;
        proof {
            lemma_delta_bound(m0, kf, t1@, t2@, game.outcome());
            assert(num == kf * RATING_SCALE * (crate::score::score_value(game.outcome()) - e));
        }
        let delta: i64 = if num >= 0 {
            (num / (PROB_SCALE as i128)) as i64
        } else {
            (-((-num) / (PROB_SCALE as i128))) as i64
        };
        let ghost d = game_delta(m0, kf, t1@, t2@, game.outcome());
        let ghost n1 = t1@.len() as int;
        let ghost n2 = t2@.len() as int;
        let ghost step = max_step(kf);
        proof {
            lemma_delta_bound(m0, kf, t1@, t2@, game.outcome());
            assert(delta == d);
            assert(step >= 0);
            assert(n1 * step >= 0 && n2 * step >= 0) by (nonlinear_arith)
                requires
                    n1 >= 0,
                    n2 >= 0,
                    step >= 0,
            ;
            assert((n1 + n2) * step == n1 * step + n2 * step) by (nonlinear_arith);
            assert forall|id: u64| t1@.contains(id) implies m2.contains_key(id) && i64::MIN + n1
                * step <= #[trigger] m2[id] <= i64::MAX - n1 * step by {
                assert(m2[id] == rating_of(m0, id));
            }
        }
        self.shift_team(t1.as_slice(), delta);
        let ghost m3 = self@;
        proof {
            assert forall|id: u64| t2@.contains(id) implies m3.contains_key(id) && i64::MIN + n2
                * step <= #[trigger] m3[id] <= i64::MAX - n2 * step by {
                lemma_occurrences_bounds(t1@, id);
                let o = occurrences(t1@, id);
                assert(-(n1 * step) <= o * delta <= n1 * step) by (nonlinear_arith)
                    requires
                        0 <= o <= n1,
                        -step <= delta <= step,
                ;
                assert(m3[id] == rating_of(m0, id) + o * delta);
            }
        }
        self.shift_team(t2.as_slice(), -delta);
        proof {
            assert(self@ =~= processed(m0, kf, t1@, t2@, game.outcome())) by {
                assert forall|id: u64| #[trigger] self@.contains_key(id) implies self@[id]
                    == rating_of(m0, id) + (occurrences(t1@, id) - occurrences(t2@, id)) * d by {
                    let o1 = occurrences(t1@, id);
                    let o2 = occurrences(t2@, id);
                    assert(o1 * d + o2 * (-d) == (o1 - o2) * d) by (nonlinear_arith);
                }
            }
        }
    }

} // impl

impl Default for EloManager {
    fn default() -> (r: EloManager)
        ensures
            r@ == Map::<u64, int>::empty(),
            r.k_factor() == DEFAULT_K,
    {
        EloManager::new()
    }
}

} // verus!
