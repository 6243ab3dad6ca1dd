use elo::{
    EloManager, Game, InvalidScore, Player, Score, DEFAULT_ELO,
    DEFAULT_K, PROB_SCALE, SATURATION,
};

const A: u64 = 1;
const B: u64 = 2;
const C: u64 = 3;
const D: u64 = 4;

fn rating(m: &EloManager, id: u64) -> i64 {
    m.get_or_default(id)
}

#[test]
fn unseen_player_gets_default() {
    let m = EloManager::new();
    assert_eq!(m.get_or_default(42), DEFAULT_ELO);
    assert_eq!(DEFAULT_ELO, 2_000_000);
    assert!(m.players().is_empty());
}

#[test]
fn get_or_insert_default_registers_once() {
    let mut m = EloManager::new();
    assert_eq!(m.get_or_insert_default(7), DEFAULT_ELO);
    assert_eq!(m.players().len(), 1);
    m.insert(7, Player::with_elo(1_500_000));
    assert_eq!(m.get_or_insert_default(7), 1_500_000);
    assert_eq!(m.players().len(), 1);
}

#[test]
fn insert_overwrites() {
    let mut m = EloManager::default();
    m.insert(A, Player::with_elo(1_000_000));
    m.insert(A, Player::with_elo(2_500_000));
    assert_eq!(rating(&m, A), 2_500_000);
    assert_eq!(m.players().get(&A), Some(&Player::with_elo(2_500_000)));
    assert_eq!(Player::new().rating_value(), DEFAULT_ELO);
    assert_eq!(Player::default(), Player::new());
}

#[test]
fn expected_score_values() {
    assert_eq!(EloManager::expected_score(2_000_000, 2_000_000), PROB_SCALE / 2);
    assert_eq!(EloManager::expected_score(0, 0), 500_000_000);
    assert_eq!(EloManager::expected_score(2_000_000, 2_100_000), 359_935_000);
    assert_eq!(EloManager::expected_score(2_100_000, 2_000_000), 640_065_000);
    assert_eq!(EloManager::expected_score(0, 400_000), 90_909_091);
    assert_eq!(EloManager::expected_score(0, 1), 499_998_561);
}

#[test]
fn expected_score_bounds_and_symmetry() {
    let pairs = [
        (0i64, 0i64),
        (i64::MIN, i64::MAX),
        (i64::MAX, i64::MIN),
        (1_234_567, 2_345_678),
        (2_000_000, 1_999_999),
    ];
    for (a, b) in pairs {
        let e = EloManager::expected_score(a, b);
        assert!(e > 0 && e < PROB_SCALE);
        assert_eq!(EloManager::expected_score(b, a), PROB_SCALE - e);
    }
}

#[test]
fn expected_score_saturates() {
    let at_r = EloManager::expected_score(0, SATURATION);
    assert_eq!(EloManager::expected_score(1_000_000, 1_000_000 + SATURATION), at_r);
    assert_eq!(EloManager::expected_score(0, 5 * SATURATION), at_r);
    assert_eq!(EloManager::expected_score(i64::MIN, i64::MAX), at_r);
    assert_eq!(EloManager::expected_score(9 * SATURATION, 0), EloManager::expected_score(SATURATION, 0));
    assert!(EloManager::expected_score(0, SATURATION - 1) > at_r);
}

#[test]
fn one_win_between_equals() {
    let mut m = EloManager::new();
    m.insert(A, Player::with_elo(2_000_000));
    m.insert(B, Player::with_elo(2_000_000));
    assert_eq!(m.k(), DEFAULT_K);
    m.process(&Game::new(vec![A], vec![B], Score::Win));
    assert_eq!(rating(&m, A), 2_030_000);
    assert_eq!(rating(&m, B), 1_970_000);
}

#[test]
fn favourite_wins_less() {
    let mut m = EloManager::new();
    m.insert(A, Player::with_elo(2_100_000));
    m.process(&Game::new(vec![A], vec![B], Score::Win));
    assert_eq!(rating(&m, A), 2_121_596);
    assert_eq!(rating(&m, B), 1_978_404);
}

#[test]
fn draw_registers_newcomers() {
    let mut m = EloManager::new();
    m.process(&Game::new(vec![A, B], vec![C, D], Score::Draw));
    assert_eq!(m.players().len(), 4);
    for id in [A, B, C, D] {
        assert_eq!(rating(&m, id), DEFAULT_ELO);
    }
}

#[test]
fn members_move_individually() {
    let mut m = EloManager::with_k(120);
    m.insert(A, Player::with_elo(2_200_000));
    m.insert(B, Player::with_elo(1_800_000));
    m.process(&Game::new(vec![A, B], vec![C, D], Score::Loss));
    assert_eq!(rating(&m, A), 2_140_000);
    assert_eq!(rating(&m, B), 1_740_000);
    assert_eq!(rating(&m, C), 2_060_000);
    assert_eq!(rating(&m, D), 2_060_000);
}

#[test]
fn listed_twice_moves_twice() {
    let mut m = EloManager::new();
    m.process(&Game::new(vec![A, A], vec![B, C], Score::Win));
    assert_eq!(rating(&m, A), 2_060_000);
    assert_eq!(rating(&m, B), 1_970_000);
    assert_eq!(rating(&m, C), 1_970_000);
}

#[test]
fn game_is_zero_sum() {
    let mut m = EloManager::new();
    m.insert(A, Player::with_elo(2_310_000));
    m.insert(B, Player::with_elo(1_720_500));
    m.insert(C, Player::with_elo(1_999_999));
    let ids = [A, B, C, D];
    let before: i64 = ids.iter().map(|&i| rating(&m, i)).sum();
    m.process(&Game::new(vec![A, D], vec![B, C], Score::Loss));
    let after: i64 = ids.iter().map(|&i| rating(&m, i)).sum();
    assert_eq!(before, after);
    assert_ne!(rating(&m, A), 2_310_000);
}

#[test]
fn swapped_game_same_ratings() {
    let setup = || {
        let mut m = EloManager::new();
        m.insert(A, Player::with_elo(2_150_000));
        m.insert(B, Player::with_elo(1_900_000));
        m
    };
    for s in [Score::Win, Score::Loss, Score::Draw] {
        let mut m1 = setup();
        let mut m2 = setup();
        m1.process(&Game::new(vec![A, C], vec![B, D], s));
        m2.process(&Game::new(vec![B, D], vec![A, C], s.inverse()));
        for id in [A, B, C, D] {
            assert_eq!(rating(&m1, id), rating(&m2, id));
        }
    }
}

#[test]
fn game_accessors() {
    let g = Game::new(vec![A, B], vec![C, D], Score::Draw);
    assert_eq!(g.team1(), &vec![A, B]);
    assert_eq!(g.team2(), &vec![C, D]);
    assert_eq!(g.score(), Score::Draw);
}

#[test]
fn score_codes() {
    assert_eq!(Score::try_from('W'), Ok(Score::Win));
    assert_eq!(Score::try_from('1'), Ok(Score::Win));
    assert_eq!(Score::try_from('L'), Ok(Score::Loss));
    assert_eq!(Score::try_from('2'), Ok(Score::Loss));
    assert_eq!(Score::try_from('D'), Ok(Score::Draw));
    assert_eq!(Score::try_from('w'), Err(InvalidScore { found: 'w' }));
    assert_eq!(Score::try_from('3'), Err(InvalidScore { found: '3' }));
    assert_eq!(Score::Win.value(), PROB_SCALE);
    assert_eq!(Score::Loss.value(), 0);
    assert_eq!(Score::Draw.value(), PROB_SCALE / 2);
    assert_eq!(Score::Win.inverse(), Score::Loss);
    assert_eq!(Score::Draw.inverse(), Score::Draw);
}

#[test]
fn mean_elo_reads_only() {
    let mut m = EloManager::new();
    m.insert(A, Player::with_elo(2_030_000));
    m.insert(B, Player::with_elo(1_970_001));
    assert_eq!(m.mean_elo(&[A, C]), 2_015_000);
    assert_eq!(m.mean_elo(&[A, B]), 2_000_000);
    m.insert(D, Player::with_elo(-3));
    assert_eq!(m.mean_elo(&[D, D]), -3);
    assert_eq!(m.players().len(), 3);
}

#[test]
fn score_from_value_round_trip() {
    for s in [Score::Win, Score::Loss, Score::Draw] {
        assert_eq!(Score::from_value(s.value()), Some(s));
    }
    assert_eq!(Score::from_value(1), None);
    assert_eq!(Score::from_value(PROB_SCALE + 1), None);
}

#[test]
fn process_needs_headroom() {
    let mut m = EloManager::new();
    let g = Game::new(vec![A], vec![B], Score::Win);
    assert!(m.can_process(&g));
    m.insert(A, Player::with_elo(i64::MAX - 100));
    assert!(!m.can_process(&g));
    m.insert(A, Player::with_elo(i64::MIN + 120_000));
    assert!(m.can_process(&g));
    m.insert(B, Player::with_elo(i64::MIN + 119_999));
    assert!(!m.can_process(&g));
}
