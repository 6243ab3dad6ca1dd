//! Spec-level model of a rating table: lookups with the default, team sums
//! and means, and the effect of one game.
use vstd::prelude::*;
use crate::expected::{expected_spec, RATING_SCALE};
use crate::game::DEFAULT_ELO;
use crate::score::{score_value, Score, PROB_SCALE};

verus! {

/// Rating of `id` in `m`, or the default rating when `m` does not hold it.
pub open spec fn rating_of(m: Map<u64, int>, id: u64) -> int {
    if m.contains_key(id) {
        m[id]
    } else {
        DEFAULT_ELO as int
    }
}

/// `m` with every id of `ids` that it lacks added at the default rating.
pub open spec fn registered(m: Map<u64, int>, ids: Seq<u64>) -> Map<u64, int> {
    Map::new(|k: u64| m.contains_key(k) || ids.contains(k), |k: u64| rating_of(m, k))
}

/// Sum of the ratings of the players listed in `team`, each time listed.
pub open spec fn team_sum(m: Map<u64, int>, team: Seq<u64>) -> int
    decreases team.len(),
{
    if team.len() == 0 {
        0
    } else {
        team_sum(m, team.drop_last()) + rating_of(m, team.last())
    }
}

/// `a / n` rounded toward zero.
pub open spec fn trunc_div(a: int, n: int) -> int {
    if a >= 0 {
        a / n
    } else {
        -((-a) / n)
    }
}

/// Mean rating of a team, rounded toward zero.
pub open spec fn team_mean(m: Map<u64, int>, team: Seq<u64>) -> int {
    trunc_div(team_sum(m, team), team.len() as int)
}

/// How many times `id` is listed in `team`.
pub open spec fn occurrences(team: Seq<u64>, id: u64) -> int
    decreases team.len(),
{
    if team.len() == 0 {
        0
    } else {
        occurrences(team.drop_last(), id) + if team.last() == id { 1int } else { 0 }
    }
}

/// Rating change for each listing in the first team of a game (the second
/// team's listings change by its negation), rounded toward zero:
/// `k * (outcome - expected)` points.
pub open spec fn game_delta(m: Map<u64, int>, k: int, t1: Seq<u64>, t2: Seq<u64>, s: Score) -> int {
    let e = expected_spec(team_mean(m, t1), team_mean(m, t2));
    trunc_div(k * RATING_SCALE * (score_value(s) - e), PROB_SCALE as int)
}

/// The table after the game `t1` against `t2` with outcome `s`: every
/// participant is registered, then moves by the delta once per listing in
/// the first team and against it once per listing in the second.
pub open spec fn processed(m: Map<u64, int>, k: int, t1: Seq<u64>, t2: Seq<u64>, s: Score) -> Map<
    u64,
    int,
> {
    let d = game_delta(m, k, t1, t2, s);
    Map::new(
        |id: u64| m.contains_key(id) || t1.contains(id) || t2.contains(id),
        |id: u64| rating_of(m, id) + (occurrences(t1, id) - occurrences(t2, id)) * d,
    )
}

/// The largest change one game can bring to one listing: `k` points.
pub open spec fn max_step(k: int) -> int {
    k * RATING_SCALE
}

/// Every participant's rating stays within `i64` however the game goes.
pub open spec fn has_headroom(m: Map<u64, int>, k: int, t1: Seq<u64>, t2: Seq<u64>) -> bool {
    let span = (t1.len() + t2.len()) * max_step(k);
    forall|id: u64|
        (t1.contains(id) || t2.contains(id)) ==> i64::MIN + span <= #[trigger] rating_of(m, id)
            <= i64::MAX - span
}

/// Sums agree on tables that agree on every rating.
pub proof fn lemma_team_sum_same(m1: Map<u64, int>, m2: Map<u64, int>, team: Seq<u64>)
    requires
        forall|id: u64| rating_of(m1, id) == rating_of(m2, id),
    ensures
        team_sum(m1, team) == team_sum(m2, team),
    decreases team.len(),
{
    if team.len() > 0 {
        lemma_team_sum_same(m1, m2, team.drop_last());
        assert(rating_of(m1, team.last()) == rating_of(m2, team.last()));
    }
}

/// A listed id is listed at least once, and never more than the team's size.
pub proof fn lemma_occurrences_bounds(team: Seq<u64>, id: u64)
    ensures
        0 <= occurrences(team, id) <= team.len(),
        team.contains(id) <==> occurrences(team, id) > 0,
    decreases team.len(),
{
    if team.len() > 0 {
        lemma_occurrences_bounds(team.drop_last(), id);
        let t = team.drop_last();
        if team.contains(id) && team.last() != id {
            let i = choose|i: int| 0 <= i < team.len() && team[i] == id;
            assert(i < team.len() - 1);
            assert(t[i] == id);
        }
        if t.contains(id) {
            let i = choose|i: int| 0 <= i < t.len() && t[i] == id;
            assert(team[i] == id);
        }
        if team.last() == id {
            assert(team[team.len() - 1] == id);
        }
    }
}

/// The sum of a team of `n` ratings in `[lo, hi]` lies in `[n * lo, n * hi]`.
pub proof fn lemma_team_sum_bounds(m: Map<u64, int>, team: Seq<u64>, lo: int, hi: int)
    requires
        forall|id: u64| team.contains(id) ==> lo <= #[trigger] rating_of(m, id) <= hi,
    ensures
        team.len() * lo <= team_sum(m, team) <= team.len() * hi,
    decreases team.len(),
{
    if team.len() > 0 {
        let t = team.drop_last();
        assert forall|id: u64| t.contains(id) implies lo <= #[trigger] rating_of(m, id) <= hi by {
            let i = choose|i: int| 0 <= i < t.len() && t[i] == id;
            assert(team[i] == id);
        }
        lemma_team_sum_bounds(m, t, lo, hi);
        assert(team.contains(team.last())) by {
            assert(team[team.len() - 1] == team.last());
        }
        assert(team.len() * lo == t.len() * lo + lo) by (nonlinear_arith)
            requires
                team.len() == t.len() + 1,
        ;
        assert(team.len() * hi == t.len() * hi + hi) by (nonlinear_arith)
            requires
                team.len() == t.len() + 1,
        ;
    }
}

/// A value in `[n * lo, n * hi]` divided by `n` lies in `[lo, hi]`.
pub proof fn lemma_trunc_div_bounds(a: int, n: int, lo: int, hi: int)
    requires
        n > 0,
        lo <= 0 <= hi,
        n * lo <= a <= n * hi,
    ensures
        lo <= trunc_div(a, n) <= hi,
{
    if a >= 0 {
        assert(a / n <= hi) by (nonlinear_arith)
            requires
                n > 0,
                a <= n * hi,
                a >= 0,
        ;
        assert(a / n >= 0) by (nonlinear_arith)
            requires
                n > 0,
                a >= 0,
        ;
    } else {
        assert(-a <= n * (-lo)) by (nonlinear_arith)
            requires
                n * lo <= a,
        ;
        assert((-a) / n <= -lo) by (nonlinear_arith)
            requires
                n > 0,
                -a <= n * (-lo),
                -a > 0,
        ;
        assert((-a) / n >= 0) by (nonlinear_arith)
            requires
                n > 0,
                -a > 0,
        ;
    }
}

/// Rounding toward zero commutes with negation.
pub proof fn lemma_trunc_div_neg(a: int, n: int)
    requires
        n > 0,
    ensures
        trunc_div(-a, n) == -trunc_div(a, n),
{
    if a == 0 {
        assert(0int / n == 0) by (nonlinear_arith)
            requires
                n > 0,
        ;
    }
}

/// One game moves a listing by at most `k` points.
pub proof fn lemma_delta_bound(m: Map<u64, int>, k: int, t1: Seq<u64>, t2: Seq<u64>, s: Score)
    requires
        k >= 0,
    ensures
        -max_step(k) <= game_delta(m, k, t1, t2, s) <= max_step(k),
{
    let e = expected_spec(team_mean(m, t1), team_mean(m, t2));
    crate::expected::lemma_expected_bounds(team_mean(m, t1), team_mean(m, t2));
    let x = score_value(s) - e;
    let c = k * RATING_SCALE;
    let p = PROB_SCALE as int;
    assert(-p <= x <= p);
    assert(-(c * p) <= c * x <= c * p) by (nonlinear_arith)
        requires
            -p <= x <= p,
            c >= 0,
    ;
    lemma_trunc_div_bounds(c * x, p, -c, c);
}

/// Total change of rating over the ids `ids`, from `before` to `after`.
pub open spec fn change_sum(before: Map<u64, int>, after: Map<u64, int>, ids: Seq<u64>) -> int
    decreases ids.len(),
{
    if ids.len() == 0 {
        0
    } else {
        change_sum(before, after, ids.drop_last()) + rating_of(after, ids.last()) - rating_of(
            before,
            ids.last(),
        )
    }
}

/// Listings of `team` summed over the ids `ids`.
pub open spec fn occurrence_sum(ids: Seq<u64>, team: Seq<u64>) -> int
    decreases ids.len(),
{
    if ids.len() == 0 {
        0
    } else {
        occurrence_sum(ids.drop_last(), team) + occurrences(team, ids.last())
    }
}

/// A store that holds nothing rates every id at the default rating.
pub proof fn lemma_fresh_store_default(id: u64)
    ensures
        rating_of(Map::<u64, int>::empty(), id) == DEFAULT_ELO,
{
}

proof fn lemma_occurrences_single(ids: Seq<u64>, x: u64)
    requires
        ids.no_duplicates(),
    ensures
        occurrence_sum(ids, seq![x]) == if ids.contains(x) { 1int } else { 0 },
    decreases ids.len(),
{
    if ids.len() > 0 {
        let rest = ids.drop_last();
        assert(rest.no_duplicates());
        lemma_occurrences_single(rest, x);
        let one = seq![x];
        assert(one.drop_last() =~= Seq::<u64>::empty());
        assert(one.last() == x);
        let y = ids.last();
        assert(occurrences(one, y) == occurrences(one.drop_last(), y) + if one.last() == y {
            1int
        } else {
            0
        });
        assert(occurrences(Seq::<u64>::empty(), y) == 0);
        if ids.last() == x {
            assert(!rest.contains(x)) by {
                if rest.contains(x) {
                    let i = choose|i: int| 0 <= i < rest.len() && rest[i] == x;
                    assert(ids[i] == ids[ids.len() - 1]);
                }
            }
            assert(ids[ids.len() - 1] == x);
        } else {
            assert(ids.contains(x) <==> rest.contains(x)) by {
                if ids.contains(x) {
                    let i = choose|i: int| 0 <= i < ids.len() && ids[i] == x;
                    assert(i != ids.len() - 1);
                    assert(rest[i] == x);
                }
                if rest.contains(x) {
                    let i = choose|i: int| 0 <= i < rest.len() && rest[i] == x;
                    assert(ids[i] == x);
                }
            }
        }
    }
}

proof fn lemma_occurrence_sum_split(ids: Seq<u64>, team: Seq<u64>)
    requires
        team.len() > 0,
    ensures
        occurrence_sum(ids, team) == occurrence_sum(ids, team.drop_last()) + occurrence_sum(
            ids,
            seq![team.last()],
        ),
    decreases ids.len(),
{
    if ids.len() > 0 {
        lemma_occurrence_sum_split(ids.drop_last(), team);
        let one = seq![team.last()];
        assert(one.drop_last() =~= Seq::<u64>::empty());
        assert(one.last() == team.last());
        let x = ids.last();
        assert(occurrences(one, x) == occurrences(one.drop_last(), x) + if one.last() == x {
            1int
        } else {
            0
        });
        assert(occurrences(Seq::<u64>::empty(), x) == 0);
    }
}

/// Over ids that list each player of `team` once, the listings add up to the
/// team's size.
proof fn lemma_occurrence_sum_len(ids: Seq<u64>, team: Seq<u64>)
    requires
        ids.no_duplicates(),
        forall|id: u64| team.contains(id) ==> ids.contains(id),
    ensures
        occurrence_sum(ids, team) == team.len(),
    decreases team.len(),
{
    if team.len() == 0 {
        assert forall|id: u64| occurrences(team, id) == 0 by {}
        lemma_occurrence_sum_zero(ids, team);
    } else {
        let rest = team.drop_last();
        assert forall|id: u64| rest.contains(id) implies ids.contains(id) by {
            let i = choose|i: int| 0 <= i < rest.len() && rest[i] == id;
            assert(team[i] == id);
        }
        lemma_occurrence_sum_len(ids, rest);
        lemma_occurrence_sum_split(ids, team);
        assert(team.contains(team.last())) by {
            assert(team[team.len() - 1] == team.last());
        }
        lemma_occurrences_single(ids, team.last());
    }
}

proof fn lemma_occurrence_sum_zero(ids: Seq<u64>, team: Seq<u64>)
    requires
        team.len() == 0,
    ensures
        occurrence_sum(ids, team) == 0,
    decreases ids.len(),
{
    if ids.len() > 0 {
        lemma_occurrence_sum_zero(ids.drop_last(), team);
    }
}

proof fn lemma_change_sum_processed(
    m: Map<u64, int>,
    k: int,
    t1: Seq<u64>,
    t2: Seq<u64>,
    s: Score,
    ids: Seq<u64>,
)
    requires
        forall|id: u64| ids.contains(id) ==> t1.contains(id) || t2.contains(id),
    ensures
        change_sum(m, processed(m, k, t1, t2, s), ids) == (occurrence_sum(ids, t1) - occurrence_sum(
            ids,
            t2,
        )) * game_delta(m, k, t1, t2, s),
    decreases ids.len(),
{
    if ids.len() > 0 {
        let rest = ids.drop_last();
        assert forall|id: u64| rest.contains(id) implies t1.contains(id) || t2.contains(id) by {
            let i = choose|i: int| 0 <= i < rest.len() && rest[i] == id;
            assert(ids[i] == id);
        }
        lemma_change_sum_processed(m, k, t1, t2, s, rest);
        let x = ids.last();
        assert(ids.contains(x)) by {
            assert(ids[ids.len() - 1] == x);
        }
        let d = game_delta(m, k, t1, t2, s);
        let after = processed(m, k, t1, t2, s);
        assert(after.contains_key(x));
        assert(rating_of(after, x) == rating_of(m, x) + (occurrences(t1, x) - occurrences(t2, x)) * d);
        let a1 = occurrence_sum(rest, t1);
        let a2 = occurrence_sum(rest, t2);
        let o1 = occurrences(t1, x);
        let o2 = occurrences(t2, x);
        assert(occurrence_sum(ids, t1) == a1 + o1);
        assert(occurrence_sum(ids, t2) == a2 + o2);
        assert(change_sum(m, after, ids) == change_sum(m, after, rest) + rating_of(after, x)
            - rating_of(m, x));
        assert(change_sum(m, after, rest) == (a1 - a2) * d);
        assert((a1 - a2) * d + (o1 - o2) * d == (a1 + o1 - (a2 + o2)) * d) by (nonlinear_arith);
    } else {
        let d = game_delta(m, k, t1, t2, s);
        assert((0int - 0int) * d == 0) by (nonlinear_arith);
    }
}

/// A game leaves the total rating of its participants unchanged: with `ids`
/// listing each participant once, the changes add up to zero.
pub proof fn lemma_zero_sum(m: Map<u64, int>, k: int, t1: Seq<u64>, t2: Seq<u64>, s: Score, ids: Seq<
    u64,
>)
    requires
        t1.len() == t2.len(),
        ids.no_duplicates(),
        forall|id: u64| ids.contains(id) <==> (t1.contains(id) || t2.contains(id)),
    ensures
        change_sum(m, processed(m, k, t1, t2, s), ids) == 0,
{
    lemma_change_sum_processed(m, k, t1, t2, s, ids);
    lemma_occurrence_sum_len(ids, t1);
    lemma_occurrence_sum_len(ids, t2);
    let d = game_delta(m, k, t1, t2, s);
    let n = t1.len() as int;
    assert((n - n) * d == 0) by (nonlinear_arith);
}

/// Swapping the teams and inverting the outcome gives the same ratings.
pub proof fn lemma_process_swap(m: Map<u64, int>, k: int, t1: Seq<u64>, t2: Seq<u64>, s: Score)
    ensures
        processed(m, k, t2, t1, crate::score::inverse_spec(s)) == processed(m, k, t1, t2, s),
{
    let m1 = team_mean(m, t1);
    let m2 = team_mean(m, t2);
    crate::expected::lemma_expected_swap(m1, m2);
    let x = score_value(s) - expected_spec(m1, m2);
    let c = k * RATING_SCALE;
    assert(score_value(crate::score::inverse_spec(s)) - expected_spec(m2, m1) == -x);
    assert(c * (-x) == -(c * x)) by (nonlinear_arith);
    lemma_trunc_div_neg(c * x, PROB_SCALE as int);
    let d = game_delta(m, k, t1, t2, s);
    assert(game_delta(m, k, t2, t1, crate::score::inverse_spec(s)) == -d);
    assert forall|id: u64| true implies (occurrences(t2, id) - occurrences(t1, id)) * (-d) == (
    occurrences(t1, id) - occurrences(t2, id)) * d by {
        let a = occurrences(t1, id);
        let b = occurrences(t2, id);
        assert((b - a) * (-d) == (a - b) * d) by (nonlinear_arith);
    }
    assert(processed(m, k, t2, t1, crate::score::inverse_spec(s)) =~= processed(m, k, t1, t2, s));
}

} // verus!
