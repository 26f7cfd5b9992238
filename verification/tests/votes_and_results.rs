use queue_bot::results::{apply_match_stats, score_text, team_placements, PlayerStats};
use queue_bot::votes::{
    map_vote_header_text, map_vote_update, required_votes, result_vote_update, tally_maps,
    tally_results, timeout_map_choice, MatchResult,
};

#[test]
fn result_labels() {
    assert_eq!(MatchResult::Team(0).label(), "Team 1");
    assert_eq!(MatchResult::Team(4).label(), "Team 5");
    assert_eq!(MatchResult::Tie.label(), "Tie");
    assert_eq!(MatchResult::Cancel.label(), "Cancel");
}

#[test]
fn more_than_half_of_the_players_decide() {
    assert_eq!(required_votes(2, 5), 6);
    assert_eq!(required_votes(3, 3), 5);
    assert_eq!(required_votes(1, 1), 1);
}

#[test]
fn counting_votes() {
    let votes = vec![MatchResult::Team(1), MatchResult::Tie, MatchResult::Team(1), MatchResult::Team(0)];
    let tally = tally_results(&votes);
    assert_eq!(tally, vec![(MatchResult::Team(1), 2), (MatchResult::Tie, 1), (MatchResult::Team(0), 1)]);
    let maps = tally_maps(&vec!["a".to_string(), "b".to_string(), "a".to_string()]);
    assert_eq!(maps, vec![("a".to_string(), 2), ("b".to_string(), 1)]);
    assert_eq!(map_vote_update(&maps, None, 2).winner, Some("a".to_string()));
    assert_eq!(map_vote_update(&maps, None, 1).winner, Some("b".to_string()));
    assert_eq!(map_vote_update(&maps, None, 3).winner, None);
}

#[test]
fn a_majority_is_reached_once() {
    // Ten players, six votes needed: one option at most can get there.
    let mut votes = vec![MatchResult::Team(0); 6];
    votes.extend(vec![MatchResult::Team(1); 4]);
    let tally = tally_results(&votes);
    let passing: Vec<_> = tally.iter().filter(|(_, c)| *c >= required_votes(2, 5) as usize).collect();
    assert_eq!(passing.len(), 1);
    let update = result_vote_update(&tally, required_votes(2, 5));
    assert_eq!(update.winner, Some(MatchResult::Team(0)));
    assert_eq!(update.content, "Team 1: 6\nTeam 2: 4\n");
}

#[test]
fn map_vote_messages() {
    assert_eq!(map_vote_header_text(None), "# Map Vote");
    assert_eq!(map_vote_header_text(Some(77)), "# Map Vote\nEnds <t:77:R>");
    let tally = vec![("Dust".to_string(), 1), ("Nuke".to_string(), 2)];
    let open = map_vote_update(&tally, Some(77), 3);
    assert_eq!(open.content, "# Map Vote\nEnds <t:77:R>\nDust: 1\nNuke: 2");
    assert_eq!(open.winner, None);
    let done = map_vote_update(&tally, None, 2);
    assert_eq!(done.content, "# Map: Nuke");
    assert_eq!(done.winner, Some("Nuke".to_string()));
}

#[test]
fn map_after_a_timeout() {
    let first = "Mirage".to_string();
    assert_eq!(timeout_map_choice(&vec![], &first), "Mirage");
    let tally = vec![("A".to_string(), 2), ("B".to_string(), 1), ("C".to_string(), 2)];
    assert_eq!(timeout_map_choice(&tally, &first), "C");
}

#[test]
fn results_update_the_records() {
    let s = PlayerStats { wins: 1, losses: 2, draws: 3 };
    let mut stats = vec![vec![s, s], vec![s]];
    apply_match_stats(&mut stats, MatchResult::Team(1));
    assert_eq!(stats[0][0], PlayerStats { wins: 1, losses: 3, draws: 3 });
    assert_eq!(stats[0][1], PlayerStats { wins: 1, losses: 3, draws: 3 });
    assert_eq!(stats[1][0], PlayerStats { wins: 2, losses: 2, draws: 3 });
    apply_match_stats(&mut stats, MatchResult::Tie);
    assert_eq!(stats[1][0], PlayerStats { wins: 2, losses: 2, draws: 4 });
    let before = stats.clone();
    apply_match_stats(&mut stats, MatchResult::Cancel);
    assert_eq!(stats, before);
    assert_eq!(score_text(stats[1][0]), "Score: 2-2-4");
}

#[test]
fn placings_for_the_rating_update() {
    assert_eq!(team_placements(MatchResult::Team(2), 3), Some(vec![2, 2, 1]));
    assert_eq!(team_placements(MatchResult::Tie, 2), Some(vec![1, 1]));
    assert_eq!(team_placements(MatchResult::Cancel, 2), None);
}
