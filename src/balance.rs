//! Splitting a roster into two equal teams whose means stay closest to the
//! roster's mean.
//!
//! A candidate first team is a mask over roster positions: position `j` is
//! in it when bit `j` of the mask is set. Masks are tried in ascending order
//! and the first one of least imbalance wins. With `n` players, total rating
//! `T` and candidate sum `S`, the gap between the candidate's mean and the
//! roster's is `|T - 2 S| / n`, so candidates are compared by `|T - 2 S|`,
//! exactly.
use vstd::prelude::*;
use crate::expected::expected_spec;
use crate::manager::EloManager;
use crate::ratings::{rating_of, team_mean, team_sum};

verus! {

/// Largest roster the balancer accepts.
pub const MAX_ROSTER: usize = 16;

/// Why a roster cannot be split.
#[derive(Debug, Clone, Copy, PartialEq, Eq, Structural)]
pub enum BalanceError {
    /// The roster is empty.
    EmptyRoster,
    /// The roster has an odd number of players.
    OddRoster,
    /// The roster has more than `MAX_ROSTER` players.
    RosterTooLarge,
}

/// `2^n`.
pub open spec fn two_to(n: nat) -> nat
    decreases n,
{
    if n == 0 {
        1
    } else {
        2 * two_to((n - 1) as nat)
    }
}

/// Whether bit `j` of `mask` is set.
pub open spec fn bit(mask: nat, j: nat) -> bool
    decreases j,
{
    if j == 0 {
        mask % 2 == 1
    } else {
        bit(mask / 2, (j - 1) as nat)
    }
}

/// Number of bits set among the lowest `n` of `mask`.
pub open spec fn bits_set(mask: nat, n: nat) -> nat
    decreases n,
{
    if n == 0 {
        0
    } else {
        bits_set(mask, (n - 1) as nat) + if bit(mask, (n - 1) as nat) { 1nat } else { 0 }
    }
}

/// Sum of the ratings of the roster positions that `mask` selects.
pub open spec fn mask_sum(m: Map<u64, int>, roster: Seq<u64>, mask: nat) -> int
    decreases roster.len(),
{
    if roster.len() == 0 {
        0
    } else {
        mask_sum(m, roster.drop_last(), mask) + if bit(mask, (roster.len() - 1) as nat) {
            rating_of(m, roster.last())
        } else {
            0
        }
    }
}

/// The players at the positions where bit of `mask` equals `side`, in
/// roster order.
pub open spec fn members(roster: Seq<u64>, mask: nat, side: bool) -> Seq<u64>
    decreases roster.len(),
{
    if roster.len() == 0 {
        Seq::empty()
    } else {
        let rest = members(roster.drop_last(), mask, side);
        if bit(mask, (roster.len() - 1) as nat) == side {
            rest.push(roster.last())
        } else {
            rest
        }
    }
}

/// A mask over the roster that selects exactly half of it.
pub open spec fn valid_mask(roster: Seq<u64>, mask: nat) -> bool {
    mask < two_to(roster.len()) && 2 * bits_set(mask, roster.len()) == roster.len()
}

/// Imbalance of the split `mask`: `|T - 2 S|`, which is `n` times the gap
/// between the selected half's mean and the roster's mean.
pub open spec fn split_score(m: Map<u64, int>, roster: Seq<u64>, mask: nat) -> int {
    let d = team_sum(m, roster) - 2 * mask_sum(m, roster, mask);
    if d >= 0 {
        d
    } else {
        -d
    }
}

/// `mask` is the first, in ascending order, of the valid masks of least
/// imbalance.
pub open spec fn is_best_split(m: Map<u64, int>, roster: Seq<u64>, mask: nat) -> bool {
    &&& valid_mask(roster, mask)
    &&& forall|other: nat| #[trigger]
        valid_mask(roster, other) ==> split_score(m, roster, mask) <= split_score(m, roster, other)
    &&& forall|other: nat| #[trigger]
        valid_mask(roster, other) && other < mask ==> split_score(m, roster, mask) < split_score(
            m,
            roster,
            other,
        )
}

/// The error a roster of `n` players gets before any search, if any.
pub open spec fn roster_error(n: nat) -> Option<BalanceError> {
    if n == 0 {
        Some(BalanceError::EmptyRoster)
    } else if n % 2 == 1 {
        Some(BalanceError::OddRoster)
    } else if n > MAX_ROSTER {
        Some(BalanceError::RosterTooLarge)
    } else {
        None
    }
}

proof fn lemma_two_to_monotone(i: nat, k: nat)
    requires
        i <= k,
    ensures
        1 <= two_to(i) <= two_to(k),
    decreases k,
{
    if k > 0 && i < k {
        lemma_two_to_monotone(i, (k - 1) as nat);
    } else if k > 0 {
        lemma_two_to_monotone(0, (k - 1) as nat);
    }
}

proof fn lemma_two_to_16()
    ensures
        two_to(16) == 65536,
{
    reveal_with_fuel(two_to, 17);
}

proof fn lemma_mask_sum_bounds(m: Map<u64, int>, roster: Seq<u64>, mask: nat)
    requires
        forall|id: u64| i64::MIN <= #[trigger] rating_of(m, id) <= i64::MAX,
    ensures
        roster.len() * (i64::MIN as int) <= mask_sum(m, roster, mask) <= roster.len() * (
        i64::MAX as int),
    decreases roster.len(),
{
    if roster.len() > 0 {
        lemma_mask_sum_bounds(m, roster.drop_last(), mask);
        let n = roster.len() as int;
        assert(n * (i64::MIN as int) == (n - 1) * (i64::MIN as int) + i64::MIN) by (nonlinear_arith);
        assert(n * (i64::MAX as int) == (n - 1) * (i64::MAX as int) + i64::MAX) by (nonlinear_arith);
        assert(rating_of(m, roster.last()) <= i64::MAX);
    }
}

proof fn lemma_bit_of_zero(j: nat)
    ensures
        !bit(0, j),
    decreases j,
{
    if j > 0 {
        lemma_bit_of_zero((j - 1) as nat);
    }
}

/// The mask `2^h - 1` selects exactly the positions below `h`.
proof fn lemma_bit_low_ones(h: nat, j: nat)
    ensures
        bit((two_to(h) - 1) as nat, j) == (j < h),
    decreases j,
{
    lemma_two_to_monotone(0, h);
    if j == 0 {
        if h > 0 {
            lemma_two_to_monotone(0, (h - 1) as nat);
        }
    } else if h == 0 {
        lemma_bit_of_zero((j - 1) as nat);
    } else {
        let x = two_to((h - 1) as nat);
        lemma_two_to_monotone(0, (h - 1) as nat);
        assert(((2 * x - 1) as nat) / 2 == (x - 1) as nat);
        lemma_bit_low_ones((h - 1) as nat, (j - 1) as nat);
    }
}

proof fn lemma_bits_set_agree(a: nat, b: nat, n: nat)
    requires
        forall|j: nat| j < n ==> bit(a, j) == bit(b, j),
    ensures
        bits_set(a, n) == bits_set(b, n),
    decreases n,
{
    if n > 0 {
        lemma_bits_set_agree(a, b, (n - 1) as nat);
    }
}

proof fn lemma_bits_set_low_ones(h: nat, n: nat)
    requires
        h <= n,
    ensures
        bits_set((two_to(h) - 1) as nat, n) == h,
    decreases n,
{
    lemma_two_to_monotone(0, h);
    if n > 0 {
        lemma_bit_low_ones(h, (n - 1) as nat);
        if h == n {
            let a = (two_to(h) - 1) as nat;
            let b = (two_to((h - 1) as nat) - 1) as nat;
            lemma_bits_set_low_ones((h - 1) as nat, (n - 1) as nat);
            assert forall|j: nat| j < n - 1 implies bit(a, j) == bit(b, j) by {
                lemma_bit_low_ones(h, j);
                lemma_bit_low_ones((h - 1) as nat, j);
            }
            lemma_bits_set_agree(a, b, (n - 1) as nat);
        } else {
            lemma_bits_set_low_ones(h, (n - 1) as nat);
        }
    }
}

/// A roster of even size has a split into halves.
proof fn lemma_valid_mask_exists(roster: Seq<u64>)
    requires
        roster.len() % 2 == 0,
    ensures
        valid_mask(roster, (two_to(roster.len() / 2) - 1) as nat),
{
    let n = roster.len();
    lemma_bits_set_low_ones(n / 2, n);
    lemma_two_to_monotone(n / 2, n);
}

/// The two sides of a split hold `bits_set` and the rest of the players.
proof fn lemma_members_len(roster: Seq<u64>, mask: nat)
    ensures
        members(roster, mask, true).len() == bits_set(mask, roster.len()),
        members(roster, mask, false).len() + bits_set(mask, roster.len()) == roster.len(),
    decreases roster.len(),
{
    if roster.len() > 0 {
        lemma_members_len(roster.drop_last(), mask);
    }
}

/// Only one mask is the best split of a roster: the search's result is
/// determined by the roster and the ratings alone, so repeated calls agree.
pub proof fn lemma_best_split_unique(m: Map<u64, int>, roster: Seq<u64>, a: nat, b: nat)
    requires
        is_best_split(m, roster, a),
        is_best_split(m, roster, b),
    ensures
        a == b,
        members(roster, a, true) == members(roster, b, true),
        members(roster, a, false) == members(roster, b, false),
{
    if a < b {
        assert(valid_mask(roster, a));
    } else if b < a {
        assert(valid_mask(roster, b));
    }
}

impl EloManager {
    /// How many positions `mask` selects, and the sum of their ratings.
    fn mask_stats(&self, roster: &[u64], mask: u32) -> (r: (usize, i128))
        requires
            roster@.len() <= MAX_ROSTER,
        ensures
            r.0 == bits_set(mask as nat, roster@.len()),
            r.0 <= roster@.len(),
            r.1 == mask_sum(self@, roster@, mask as nat),
    {
        proof {
            self.lemma_ratings_fit();
        }
        let mut rest: u32 = mask;
        let mut count: usize = 0;
        let mut sum: i128 = 0;
        let mut j: usize = 0;
        while j < roster.len()
            invariant
                j <= roster@.len() <= MAX_ROSTER,
                forall|k: nat| #[trigger] bit(rest as nat, k) == bit(mask as nat, (j + k) as nat),
                count == bits_set(mask as nat, j as nat),
                count <= j,
                sum == mask_sum(self@, roster@.take(j as int), mask as nat),
                forall|id: u64| i64::MIN <= #[trigger] rating_of(self@, id) <= i64::MAX,
            decreases roster@.len() - j,
        {
            let ghost t = roster@.take(j as int + 1);
            proof {
                assert(t.drop_last() =~= roster@.take(j as int));
                assert(t.last() == roster@[j as int]);
                assert(bit(rest as nat, 0) == bit(mask as nat, (j + 0) as nat));
                lemma_mask_sum_bounds(self@, t, mask as nat);
            }
            if rest % 2 == 1 {
                let x = self.get_or_default(roster[j]);
                sum = sum + x as i128;
                count = count + 1;
            }
            proof {
                assert forall|k: nat| #[trigger] bit((rest / 2) as nat, k) == bit(mask as nat, (j + 1 + k) as nat) by {
                    assert(bit(rest as nat, (k + 1) as nat) == bit(mask as nat, (j + (k + 1)) as nat));
                }
            }
            rest = rest / 2;
            j = j + 1;
        }
        assert(roster@.take(roster@.len() as int) =~= roster@);
        (count, sum)
    }

    /// The first valid mask, in ascending order, of least imbalance.
    fn best_mask(&self, roster: &[u64]) -> (r: u32)
        requires
            0 < roster@.len() <= MAX_ROSTER,
            roster@.len() % 2 == 0,
        ensures
            is_best_split(self@, roster@, r as nat),
    {
        let n = roster.len();
        let total = self.team_total(roster);
        proof {
            self.lemma_ratings_fit();
            crate::ratings::lemma_team_sum_bounds(self@, roster@, i64::MIN as int, i64::MAX as int);
            lemma_two_to_16();
        }
        let mut limit: u32 = 1;
        let mut i: usize = 0;
        while i < n
            invariant
                i <= n == roster@.len() <= MAX_ROSTER,
                limit == two_to(i as nat),
                two_to(16) == 65536,
            decreases n - i,
        {
            proof {
                lemma_two_to_monotone((i + 1) as nat, 16);
            }
            limit = limit * 2;
            i = i + 1;
        }
        let mut found = false;
        let mut best: u32 = 0;
        let mut best_score: i128 = 0;
        let mut mask: u32 = 0;
        while mask < limit
            invariant
                n == roster@.len() <= MAX_ROSTER,
                limit == two_to(n as nat),
                mask <= limit,
                total == team_sum(self@, roster@),
                n * (i64::MIN as int) <= total <= n * (i64::MAX as int),
                forall|id: u64| i64::MIN <= #[trigger] rating_of(self@, id) <= i64::MAX,
                found ==> {
                    &&& valid_mask(roster@, best as nat)
                    &&& best < mask
                    &&& best_score == split_score(self@, roster@, best as nat)
                    &&& forall|other: nat| #[trigger]
                        valid_mask(roster@, other) && other < mask ==> best_score <= split_score(
                            self@,
                            roster@,
                            other,
                        )
                    &&& forall|other: nat| #[trigger]
                        valid_mask(roster@, other) && other < best ==> best_score < split_score(
                            self@,
                            roster@,
                            other,
                        )
                },
                !found ==> forall|other: nat| #[trigger] valid_mask(roster@, other) ==> other >= mask,
            decreases limit - mask,
        {
            let (count, sum) = self.mask_stats(roster, mask);
            proof {
                lemma_mask_sum_bounds(self@, roster@, mask as nat);
            }
            if 2 * count == n {
                let d: i128 = total - 2 * sum;
                let score: i128 = if d >= 0 {
                    d
                } else {
                    -d
                };
                if !found || score < best_score {
                    found = true;
                    best = mask;
                    best_score = score;
                }
            }
            mask = mask + 1;
        }
        proof {
            lemma_valid_mask_exists(roster@);
        }
        best
    }

    /// Splits an even roster of at most `MAX_ROSTER` players into two halves
    /// whose means stay closest to the roster's mean (ratings read without
    /// registering anyone); on a tie the first mask in ascending order wins.
    pub fn find_teams(&self, players: &[u64]) -> (r: Result<(Vec<u64>, Vec<u64>), BalanceError>)
        ensures
            match roster_error(players@.len()) {
                Some(e) => r == Err::<(Vec<u64>, Vec<u64>), BalanceError>(e),
                None => match r {
                    Ok((t1, t2)) => exists|mask: nat|
                        #![trigger is_best_split(self@, players@, mask)]
                        is_best_split(self@, players@, mask) && t1@ == members(players@, mask, true)
                            && t2@ == members(players@, mask, false),
                    Err(_) => false,
                },
            },
    {
        if players.len() == 0 {
            return Err(BalanceError::EmptyRoster);
        }
        if players.len() % 2 == 1 {
            return Err(BalanceError::OddRoster);
        }
        if players.len() > MAX_ROSTER {
            return Err(BalanceError::RosterTooLarge);
        }
        let mask = self.best_mask(players);
        let (t1, t2) = split_by_mask(players, mask);
        Ok((t1, t2))
    }

    /// The balanced split of `players` and the expected score of its first
    /// team against its second, from the two teams' mean ratings.
    pub fn predict(&self, players: &[u64]) -> (r: Result<(Vec<u64>, Vec<u64>, u64), BalanceError>)
        ensures
            match roster_error(players@.len()) {
                Some(e) => r == Err::<(Vec<u64>, Vec<u64>, u64), BalanceError>(e),
                None => match r {
                    Ok((t1, t2, e)) => (exists|mask: nat|
                        #![trigger is_best_split(self@, players@, mask)]
                        is_best_split(self@, players@, mask) && t1@ == members(players@, mask, true)
                            && t2@ == members(players@, mask, false)) && e == expected_spec(
                        team_mean(self@, t1@),
                        team_mean(self@, t2@),
                    ),
                    Err(_) => false,
                },
            },
    {
        match self.find_teams(players) {
            Err(e) => Err(e),
            Ok((t1, t2)) => {
                proof {
                    let mask = choose|mask: nat|
                        #![trigger is_best_split(self@, players@, mask)]
                        is_best_split(self@, players@, mask) && t1@ == members(players@, mask, true)
                            && t2@ == members(players@, mask, false);
                    lemma_members_len(players@, mask);
                }
                let e = EloManager::expected_score(self.mean_elo(t1.as_slice()), self.mean_elo(t2.as_slice()));
                Ok((t1, t2, e))
            },
        }
    }
}

/// The players selected by `mask`, and the others, each in roster order.
fn split_by_mask(roster: &[u64], mask: u32) -> (r: (Vec<u64>, Vec<u64>))
    ensures
        r.0@ == members(roster@, mask as nat, true),
        r.1@ == members(roster@, mask as nat, false),
{
    let mut rest: u32 = mask;
    let mut chosen: Vec<u64> = Vec::new();
    let mut others: Vec<u64> = Vec::new();
    let mut j: usize = 0;
    while j < roster.len()
        invariant
            j <= roster@.len(),
            forall|k: nat| #[trigger] bit(rest as nat, k) == bit(mask as nat, (j + k) as nat),
            chosen@ == members(roster@.take(j as int), mask as nat, true),
            others@ == members(roster@.take(j as int), mask as nat, false),
        decreases roster@.len() - j,
    {
        let ghost t = roster@.take(j as int + 1);
        proof {
            assert(t.drop_last() =~= roster@.take(j as int));
            assert(t.last() == roster@[j as int]);
            assert(bit(rest as nat, 0) == bit(mask as nat, (j + 0) as nat));
        }
        if rest % 2 == 1 {
            chosen.push(roster[j]);
        } else {
            others.push(roster[j]);
        }
        proof {
            assert forall|k: nat| #[trigger] bit((rest / 2) as nat, k) == bit(
                mask as nat,
                (j + 1 + k) as nat,
            ) by {
                assert(bit(rest as nat, (k + 1) as nat) == bit(mask as nat, (j + (k + 1)) as nat));
            }
        }
        rest = rest / 2;
        j = j + 1;
    }
    assert(roster@.take(roster@.len() as int) =~= roster@);
    (chosen, others)
}

} // verus!
