use elo::{parse_score_line, parse_team_line, RecordError, Score, TeamRecord};

#[test]
fn score_lines() {
    assert_eq!(parse_score_line(b"12,W"), Ok(Some((12, Score::Win))));
    assert_eq!(parse_score_line(b"3,2,extra"), Ok(Some((3, Score::Loss))));
    assert_eq!(parse_score_line(b"0,Draw"), Ok(Some((0, Score::Draw))));
    assert_eq!(parse_score_line(b"# game,result"), Ok(None));
    assert_eq!(parse_score_line(b"7,X"), Err(RecordError::BadScore('X')));
    assert_eq!(parse_score_line(b"7,"), Err(RecordError::MissingField));
    assert_eq!(parse_score_line(b"7"), Err(RecordError::MissingField));
    assert_eq!(parse_score_line(b""), Err(RecordError::MissingField));
    assert_eq!(parse_score_line(b"a7,W"), Err(RecordError::BadNumber));
    assert_eq!(parse_score_line(b",W"), Err(RecordError::BadNumber));
    assert_eq!(
        parse_score_line(b"18446744073709551615,L"),
        Ok(Some((u64::MAX, Score::Loss)))
    );
    assert_eq!(
        parse_score_line(b"18446744073709551616,L"),
        Err(RecordError::BadNumber)
    );
}

#[test]
fn team_lines() {
    assert_eq!(
        parse_team_line(b"4,1,alice"),
        Ok(Some(TeamRecord { game: 4, team: 1, player: b"alice".to_vec() }))
    );
    assert_eq!(
        parse_team_line(b"4,2,bob,ignored"),
        Ok(Some(TeamRecord { game: 4, team: 2, player: b"bob".to_vec() }))
    );
    assert_eq!(
        parse_team_line(b"4,2,"),
        Ok(Some(TeamRecord { game: 4, team: 2, player: Vec::new() }))
    );
    assert_eq!(parse_team_line(b"#4,2,bob"), Ok(None));
    assert_eq!(parse_team_line(b"4,2"), Err(RecordError::MissingField));
    assert_eq!(parse_team_line(b"4"), Err(RecordError::MissingField));
    assert_eq!(parse_team_line(b"4,x,bob"), Err(RecordError::BadNumber));
    assert_eq!(parse_team_line(b"-4,1,bob"), Err(RecordError::BadNumber));
}
