//! Reading one line of a results file or of a team-assignment file.
//!
//! A results line is `game,outcome...`; a team line is `game,team,player...`.
//! Fields are separated by commas; fields after the ones read are ignored,
//! and a line that starts with `#` is a comment.
use vstd::prelude::*;
use crate::score::{score_of_char, Score};

verus! {

/// Why a line could not be read.
#[derive(Debug, Clone, Copy, PartialEq, Eq, Structural)]
pub enum RecordError {
    /// The line has fewer fields than the record needs.
    MissingField,
    /// A numeric field is empty, holds a non-digit, or exceeds `u64`.
    BadNumber,
    /// The outcome field starts with a character that names no outcome.
    BadScore(char),
}

/// A line of the team-assignment file: a player of a team in a game.
#[derive(Debug, Clone, PartialEq, Eq)]
pub struct TeamRecord {
    pub game: u64,
    pub team: u64,
    pub player: Vec<u8>,
}

pub open spec fn is_digit(b: u8) -> bool {
    48 <= b <= 57
}

/// Value of a string of decimal digits.
pub open spec fn decimal_value(s: Seq<u8>) -> int
    decreases s.len(),
{
    if s.len() == 0 {
        0
    } else {
        decimal_value(s.drop_last()) * 10 + (s.last() - 48)
    }
}

/// The number a field holds: one or more digits whose value fits `u64`.
pub open spec fn read_number(s: Seq<u8>) -> Option<u64> {
    if s.len() > 0 && (forall|i: int| 0 <= i < s.len() ==> is_digit(#[trigger] s[i]))
        && decimal_value(s) <= u64::MAX {
        Some(decimal_value(s) as u64)
    } else {
        None
    }
}

/// Position of the first comma at or after `from`, or the line's length.
pub open spec fn first_comma(s: Seq<u8>, from: int) -> int
    decreases s.len() - from,
{
    if from >= s.len() {
        s.len() as int
    } else if s[from] == 44 {
        from
    } else {
        first_comma(s, from + 1)
    }
}

pub open spec fn is_comment(s: Seq<u8>) -> bool {
    s.len() > 0 && s[0] == 35
}

/// What a results line holds: nothing for a comment, else the game id and
/// the outcome named by the first character of the second field.
pub open spec fn score_line(s: Seq<u8>) -> Result<Option<(u64, Score)>, RecordError> {
    let c = first_comma(s, 0);
    if is_comment(s) {
        Ok(None)
    } else if c + 1 >= s.len() {
        Err(RecordError::MissingField)
    } else {
        match read_number(s.subrange(0, c)) {
            None => Err(RecordError::BadNumber),
            Some(id) => match score_of_char(s[c + 1] as char) {
                Some(o) => Ok(Some((id, o))),
                None => Err(RecordError::BadScore(s[c + 1] as char)),
            },
        }
    }
}

/// What a team line holds: nothing for a comment, else the game id, the
/// team number and the player's name (the third field).
pub open spec fn team_line(s: Seq<u8>) -> Result<Option<(u64, u64, Seq<u8>)>, RecordError> {
    let c1 = first_comma(s, 0);
    let c2 = first_comma(s, c1 + 1);
    if is_comment(s) {
        Ok(None)
    } else if c2 >= s.len() {
        Err(RecordError::MissingField)
    } else {
        match (read_number(s.subrange(0, c1)), read_number(s.subrange(c1 + 1, c2))) {
            (Some(game), Some(team)) => Ok(
                Some((game, team, s.subrange(c2 + 1, first_comma(s, c2 + 1)))),
            ),
            _ => Err(RecordError::BadNumber),
        }
    }
}

proof fn lemma_first_comma_range(s: Seq<u8>, from: int)
    requires
        0 <= from,
    ensures
        from <= first_comma(s, from) <= s.len() || (from > s.len() && first_comma(s, from)
            == s.len()),
        first_comma(s, from) < s.len() ==> s[first_comma(s, from)] == 44,
    decreases s.len() - from,
{
    if from < s.len() && s[from] != 44 {
        lemma_first_comma_range(s, from + 1);
    }
}

/// A longer string of digits is worth at least as much as its prefix.
proof fn lemma_decimal_prefix(s: Seq<u8>, k: int)
    requires
        0 <= k <= s.len(),
        forall|i: int| 0 <= i < s.len() ==> is_digit(#[trigger] s[i]),
    ensures
        decimal_value(s.subrange(0, k)) <= decimal_value(s),
        0 <= decimal_value(s),
    decreases s.len(),
{
    if s.len() > 0 {
        let t = s.drop_last();
        assert forall|i: int| 0 <= i < t.len() implies is_digit(#[trigger] t[i]) by {
            assert(t[i] == s[i]);
        }
        if k < s.len() {
            lemma_decimal_prefix(t, k);
            assert(t.subrange(0, k) =~= s.subrange(0, k));
        } else {
            lemma_decimal_prefix(t, 0);
            assert(s.subrange(0, k) =~= s);
        }
        assert(is_digit(s[s.len() - 1]));
    } else {
        assert(s.subrange(0, k) =~= s);
    }
}

/// Position of the first comma at or after `from`, or the line's length.
fn find_comma(s: &[u8], from: usize) -> (r: usize)
    requires
        from <= s@.len(),
    ensures
        r == first_comma(s@, from as int),
{
    let mut i = from;
    while i < s.len() && s[i] != 44
        invariant
            from <= i <= s@.len(),
            first_comma(s@, from as int) == first_comma(s@, i as int),
        decreases s@.len() - i,
    {
        i = i + 1;
    }
    i
}

/// The number held by `s[start..end]`.
fn parse_number(s: &[u8], start: usize, end: usize) -> (r: Option<u64>)
    requires
        start <= end <= s@.len(),
    ensures
        r == read_number(s@.subrange(start as int, end as int)),
{
    let ghost f = s@.subrange(start as int, end as int);
    if start == end {
        return None;
    }
    let mut acc: u64 = 0;
    let mut i = start;
    while i < end
        invariant
            start <= i <= end <= s@.len(),
            f == s@.subrange(start as int, end as int),
            forall|j: int| start <= j < i ==> is_digit(#[trigger] s@[j]),
            acc == decimal_value(s@.subrange(start as int, i as int)),
        decreases end - i,
    {
        let ghost p = s@.subrange(start as int, i as int + 1);
        proof {
            assert(p.drop_last() =~= s@.subrange(start as int, i as int));
            assert(p.last() == s@[i as int]);
        }
        let b = s[i];
        if b < 48 || b > 57 {
            proof {
                assert(!is_digit(f[i - start]));
            }
            return None;
        }
        let d = (b - 48) as u64;
        if acc > (u64::MAX - d) / 10 {
            proof {
                assert(decimal_value(p) > u64::MAX);
                if forall|j: int| 0 <= j < f.len() ==> is_digit(#[trigger] f[j]) {
                    lemma_decimal_prefix(f, i - start + 1);
                    assert(f.subrange(0, i - start + 1) =~= p);
                }
            }
            return None;
        }
        acc = acc * 10 + d;
        i = i + 1;
    }
    proof {
        assert(s@.subrange(start as int, i as int) =~= f);
        assert forall|j: int| 0 <= j < f.len() implies is_digit(#[trigger] f[j]) by {
            assert(f[j] == s@[start + j]);
        }
    }
    Some(acc)
}

/// Reads a line of the results file.
pub fn parse_score_line(line: &[u8]) -> (r: Result<Option<(u64, Score)>, RecordError>)
    ensures
        r == score_line(line@),
{
    let c = find_comma(line, 0);
    proof {
        lemma_first_comma_range(line@, 0);
    }
    if line.len() > 0 && line[0] == 35 {
        return Ok(None);
    }
    if c >= line.len() || line.len() - c < 2 {
        return Err(RecordError::MissingField);
    }
    match parse_number(line, 0, c) {
        None => Err(RecordError::BadNumber),
        Some(id) => {
            let ch = line[c + 1] as char;
            match Score::try_from(ch) {
                Ok(o) => Ok(Some((id, o))),
                Err(_) => Err(RecordError::BadScore(ch)),
            }
        },
    }
}

/// Reads a line of the team-assignment file.
pub fn parse_team_line(line: &[u8]) -> (r: Result<Option<TeamRecord>, RecordError>)
    ensures
        match team_line(line@) {
            Ok(Some((game, team, player))) => r matches Ok(Some(t)) && t.game == game && t.team
                == team && t.player@ == player,
            Ok(None) => r matches Ok(None),
            Err(e) => r == Err::<Option<TeamRecord>, RecordError>(e),
        },
{
    if line.len() > 0 && line[0] == 35 {
        return Ok(None);
    }
    let c1 = find_comma(line, 0);
    proof {
        lemma_first_comma_range(line@, 0);
    }
    if c1 >= line.len() {
        proof {
            assert(first_comma(line@, c1 + 1) == line@.len());
        }
        return Err(RecordError::MissingField);
    }
    let c2 = find_comma(line, c1 + 1);
    proof {
        lemma_first_comma_range(line@, c1 + 1);
    }
    if c2 >= line.len() {
        return Err(RecordError::MissingField);
    }
    let game = parse_number(line, 0, c1);
    let team = parse_number(line, c1 + 1, c2);
    match (game, team) {
        (Some(game), Some(team)) => {
            let c3 = find_comma(line, c2 + 1);
            proof {
                lemma_first_comma_range(line@, c2 + 1);
            }
            let mut player: Vec<u8> = Vec::new();
            let mut i = c2 + 1;
            while i < c3
                invariant
                    c2 + 1 <= i <= c3 <= line@.len(),
                    player@ == line@.subrange(c2 + 1, i as int),
                decreases c3 - i,
            {
                player.push(line[i]);
                i = i + 1;
                proof {
                    assert(player@ =~= line@.subrange(c2 + 1, i as int));
                }
            }
            Ok(Some(TeamRecord { game, team, player }))
        },
        _ => Err(RecordError::BadNumber),
    }
}

} // verus!
