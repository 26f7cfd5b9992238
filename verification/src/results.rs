//! What a decided match does to the players' records: wins, losses and draws, and the
//! placing of each team that the rating update takes.
use vstd::prelude::*;
use vstd::string::*;
use crate::text::{decimal, push_u64};
use crate::votes::MatchResult;

verus! {

/// A player's record in one queue.
#[derive(Clone, Copy, PartialEq, Eq, Structural, Debug)]
pub struct PlayerStats {
    pub wins: u32,
    pub losses: u32,
    pub draws: u32,
}

impl PlayerStats {
    /// No games played.
    pub fn new() -> (r: PlayerStats)
        ensures
            r == (PlayerStats { wins: 0, losses: 0, draws: 0 }),
    {
        PlayerStats { wins: 0, losses: 0, draws: 0 }
    }
}

/// How a match ended for one team.
#[derive(Clone, Copy, PartialEq, Eq, Structural, Debug)]
pub enum TeamOutcome {
    Win,
    Loss,
    Draw,
}

/// How a result ends the match for team `team`: nothing for a cancelled match.
pub open spec fn team_outcome(result: MatchResult, team: int) -> Option<TeamOutcome> {
    match result {
        MatchResult::Team(w) => if w == team { Some(TeamOutcome::Win) } else { Some(TeamOutcome::Loss) },
        MatchResult::Tie => Some(TeamOutcome::Draw),
        MatchResult::Cancel => None,
    }
}

/// A record with one more game of the given outcome.
pub open spec fn bumped(s: PlayerStats, o: TeamOutcome) -> PlayerStats {
    match o {
        TeamOutcome::Win => PlayerStats { wins: (s.wins + 1) as u32, ..s },
        TeamOutcome::Loss => PlayerStats { losses: (s.losses + 1) as u32, ..s },
        TeamOutcome::Draw => PlayerStats { draws: (s.draws + 1) as u32, ..s },
    }
}

/// Whether one more game of any outcome fits in the record's counters.
pub open spec fn can_record(s: PlayerStats) -> bool {
    s.wins < u32::MAX && s.losses < u32::MAX && s.draws < u32::MAX
}

/// The number of games in a record.
pub open spec fn games(s: PlayerStats) -> int {
    s.wins + s.losses + s.draws
}

/// Recording an outcome adds exactly one game.
pub proof fn lemma_one_game_recorded(s: PlayerStats, o: TeamOutcome)
    requires
        can_record(s),
    ensures
        games(bumped(s, o)) == games(s) + 1,
{
}

/// A team result has exactly one winner: the team it names wins, and every other team
/// loses; its placing is 1 for that team and 2 for every other.
pub proof fn lemma_single_winner(w: u32, team: int)
    ensures
        team_outcome(MatchResult::Team(w), team) == Some(TeamOutcome::Win) <==> team == w,
        team != w ==> team_outcome(MatchResult::Team(w), team) == Some(TeamOutcome::Loss),
        placing(MatchResult::Team(w), team) == 1 <==> team == w,
        team != w ==> placing(MatchResult::Team(w), team) == 2,
{
}

/// A tie is a draw for every team, and every team is placed first.
pub proof fn lemma_tie_draws_all(team: int)
    ensures
        team_outcome(MatchResult::Tie, team) == Some(TeamOutcome::Draw),
        placing(MatchResult::Tie, team) == 1,
{
}

/// How the result ends the match for team `team`.
pub fn outcome_for(result: MatchResult, team: usize) -> (r: Option<TeamOutcome>)
    requires
        team <= u32::MAX,
    ensures
        r == team_outcome(result, team as int),
        result matches MatchResult::Team(w) ==> (r == Some(TeamOutcome::Win) <==> w == team)
            && (w != team ==> r == Some(TeamOutcome::Loss)),
        result == MatchResult::Tie ==> r == Some(TeamOutcome::Draw),
        result == MatchResult::Cancel ==> r is None,
{
    match result {
        MatchResult::Team(w) => if w == team as u32 { Some(TeamOutcome::Win) } else { Some(TeamOutcome::Loss) },
        MatchResult::Tie => Some(TeamOutcome::Draw),
        MatchResult::Cancel => None,
    }
}

/// Records one game of the given outcome.
pub fn record_outcome(stats: &mut PlayerStats, o: TeamOutcome)
    requires
        can_record(*old(stats)),
    ensures
        *final(stats) == bumped(*old(stats), o),
{
    match o {
        TeamOutcome::Win => stats.wins = stats.wins + 1,
        TeamOutcome::Loss => stats.losses = stats.losses + 1,
        TeamOutcome::Draw => stats.draws = stats.draws + 1,
    }
}

/// Applies a result to the records of a match's players, team by team: the winning team
/// gets a win, the other teams a loss, every team a draw on a tie; a cancelled match
/// changes nothing.
pub fn apply_match_stats(stats: &mut Vec<Vec<PlayerStats>>, result: MatchResult)
    requires
        old(stats)@.len() <= u32::MAX,
        forall|t: int, p: int| 0 <= t < old(stats)@.len() && 0 <= p < old(stats)@[t]@.len()
            ==> can_record(#[trigger] old(stats)@[t]@[p]),
    ensures
        final(stats)@.len() == old(stats)@.len(),
        forall|t: int| 0 <= t < final(stats)@.len() ==> (#[trigger] final(stats)@[t])@.len() == old(stats)@[t]@.len(),
        forall|t: int, p: int| 0 <= t < final(stats)@.len() && 0 <= p < final(stats)@[t]@.len()
            ==> #[trigger] final(stats)@[t]@[p] == match team_outcome(result, t) {
                Some(o) => bumped(old(stats)@[t]@[p], o),
                None => old(stats)@[t]@[p],
            },
{
    if result == MatchResult::Cancel {
        return;
    }
    let ghost start = stats@;
    let n = stats.len();
    let mut t: usize = 0;
    while t < n
        invariant
            n == stats@.len(),
            n == start.len(),
            n <= u32::MAX,
            t <= n,
            result != MatchResult::Cancel,
            forall|k: int, p: int| 0 <= k < start.len() && 0 <= p < start[k]@.len() ==> can_record(#[trigger] start[k]@[p]),
            forall|k: int| 0 <= k < n ==> (#[trigger] stats@[k])@.len() == start[k]@.len(),
            forall|k: int, p: int| 0 <= k < t && 0 <= p < stats@[k]@.len()
                ==> #[trigger] stats@[k]@[p] == bumped(start[k]@[p], team_outcome(result, k)->0),
            forall|k: int| t <= k < n ==> #[trigger] stats@[k] == start[k],
        decreases n - t,
    {
        let o = outcome_for(result, t).unwrap();
        let m = stats[t].len();
        let mut team: Vec<PlayerStats> = Vec::new();
        let mut p: usize = 0;
        while p < m
            invariant
                n == stats@.len(),
                t < n,
                m == stats@[t as int]@.len(),
                stats@[t as int] == start[t as int],
                m == start[t as int]@.len(),
                p <= m,
                team@.len() == p,
                forall|q: int| 0 <= q < m ==> can_record(#[trigger] start[t as int]@[q]),
                forall|q: int| 0 <= q < p ==> #[trigger] team@[q] == bumped(start[t as int]@[q], o),
            decreases m - p,
        {
            let mut s = stats[t][p];
            record_outcome(&mut s, o);
            team.push(s);
            p = p + 1;
        }
        stats.set(t, team);
        t = t + 1;
    }
}

/// The placing of team `team` for the rating update: 1 for a win or a draw, 2 for a loss.
pub open spec fn placing(result: MatchResult, team: int) -> u32 {
    match team_outcome(result, team) {
        Some(TeamOutcome::Win) => 1u32,
        Some(TeamOutcome::Draw) => 1u32,
        _ => 2u32,
    }
}

/// The placing of each team that the rating update takes: 1 for the winner and 2 for the
/// others, 1 for every team on a tie; nothing for a cancelled match.
pub fn team_placements(result: MatchResult, team_count: usize) -> (r: Option<Vec<u32>>)
    requires
        team_count <= u32::MAX,
    ensures
        result == MatchResult::Cancel ==> r is None,
        result != MatchResult::Cancel ==> (r matches Some(v) && v@.len() == team_count
            && forall|t: int| 0 <= t < team_count ==> #[trigger] v@[t] == placing(result, t)),
        result matches MatchResult::Team(w) ==> (r matches Some(v)
            && forall|t: int| 0 <= t < team_count ==> #[trigger] v@[t] == if t == w { 1u32 } else { 2u32 }),
        result == MatchResult::Tie ==> (r matches Some(v) && forall|t: int| 0 <= t < team_count ==> #[trigger] v@[t] == 1u32),
{
    if result == MatchResult::Cancel {
        return None;
    }
    let mut v: Vec<u32> = Vec::new();
    let mut t: usize = 0;
    while t < team_count
        invariant
            t <= team_count,
            team_count <= u32::MAX,
            v@.len() == t,
            result != MatchResult::Cancel,
            forall|k: int| 0 <= k < t ==> #[trigger] v@[k] == placing(result, k),
        decreases team_count - t,
    {
        let place = match outcome_for(result, t) {
            Some(TeamOutcome::Win) => 1u32,
            Some(TeamOutcome::Draw) => 1u32,
            _ => 2u32,
        };
        v.push(place);
        t = t + 1;
    }
    Some(v)
}

/// A record as the stats reply shows it: `Score: wins-losses-draws`.
pub fn score_text(s: PlayerStats) -> (r: String)
    ensures
        r@ == "Score: "@ + decimal(s.wins as nat) + "-"@ + decimal(s.losses as nat) + "-"@ + decimal(s.draws as nat),
{
    let mut r = String::from_str("Score: ");
    push_u64(&mut r, s.wins as u64);
    r.append("-");
    push_u64(&mut r, s.losses as u64);
    r.append("-");
    push_u64(&mut r, s.draws as u64);
    r
}

} // verus!
