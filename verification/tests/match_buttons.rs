use std::collections::HashMap;
use queue_bot::buttons::MatchButton;
use queue_bot::commands::team_members;
use queue_bot::matches::{archive_match, ButtonEffect, MatchData};
use queue_bot::votes::{required_votes, MatchResult};

fn new_match() -> MatchData {
    MatchData {
        result_votes: HashMap::new(),
        map_votes: HashMap::new(),
        channels: vec![10, 11, 12],
        members: vec![vec![1, 2], vec![3, 4]],
        host: None,
        map_vote_end_time: Some(500),
        match_end_time: None,
        resolved: false,
        name: "#1".to_string(),
        queue: 99,
    }
}

#[test]
fn outsiders_cannot_press() {
    let mut m = new_match();
    assert!(matches!(m.handle_button(9, &MatchButton::Tie, "", 3), ButtonEffect::NotInMatch));
    assert!(m.result_votes.is_empty());
}

#[test]
fn the_first_volunteer_hosts() {
    let mut m = new_match();
    match m.handle_button(2, &MatchButton::VolunteerHost, "# Queue#1", 3) {
        ButtonEffect::HostTaken { content } => assert_eq!(content, "# Queue#1\n## Host: <@2>"),
        _ => panic!("expected a host"),
    }
    assert_eq!(m.host, Some(2));
    assert!(matches!(m.handle_button(3, &MatchButton::VolunteerHost, "x", 3), ButtonEffect::AlreadyHosted));
    assert_eq!(m.host, Some(2));
}

#[test]
fn map_votes_decide_the_map() {
    let mut m = new_match();
    let required = required_votes(2, 2);
    assert_eq!(required, 3);
    match m.handle_button(1, &MatchButton::MapVote("Dust".to_string()), "", required) {
        ButtonEffect::MapVote { update, .. } => {
            assert_eq!(update.content, "# Map Vote\nEnds <t:500:R>\nDust: 1");
            assert_eq!(update.winner, None);
        },
        _ => panic!(),
    }
    m.handle_button(2, &MatchButton::MapVote("Dust".to_string()), "", required);
    match m.handle_button(3, &MatchButton::MapVote("Dust".to_string()), "", required) {
        ButtonEffect::MapVote { update, .. } => {
            assert_eq!(update.content, "# Map: Dust");
            assert_eq!(update.winner, Some("Dust".to_string()));
        },
        _ => panic!(),
    }
}

#[test]
fn result_votes_decide_the_match_once() {
    let mut m = new_match();
    let required = required_votes(2, 2);
    assert!(matches!(m.handle_button(1, &MatchButton::TeamVote("x".to_string()), "", required), ButtonEffect::InvalidTeam));
    assert!(matches!(m.handle_button(1, &MatchButton::TeamVote("4294967295".to_string()), "", required), ButtonEffect::InvalidTeam));
    for u in [1u64, 2] {
        match m.handle_button(u, &MatchButton::TeamVote("1".to_string()), "", required) {
            ButtonEffect::ResultVote { update, .. } => assert_eq!(update.winner, None),
            _ => panic!(),
        }
    }
    // A player changes their mind: still two votes for team 2.
    m.handle_button(2, &MatchButton::Cancel, "", required);
    match m.handle_button(2, &MatchButton::TeamVote("1".to_string()), "", required) {
        ButtonEffect::ResultVote { update, .. } => {
            assert_eq!(update.content, "Team 2: 2\n");
            assert_eq!(update.winner, None);
        },
        _ => panic!(),
    }
    match m.handle_button(4, &MatchButton::TeamVote("1".to_string()), "", required) {
        ButtonEffect::ResultVote { update, .. } => assert_eq!(update.winner, Some(MatchResult::Team(1))),
        _ => panic!(),
    }
    assert!(m.resolved);
    assert!(matches!(m.handle_button(3, &MatchButton::Tie, "", required), ButtonEffect::AlreadyResolved));
    assert!(matches!(m.handle_button(3, &MatchButton::Other, "", required), ButtonEffect::NoVote));
}

#[test]
fn a_map_vote_that_times_out() {
    let mut m = new_match();
    assert_eq!(m.timeout_map(&"Dust".to_string()), "Dust");
    assert!(m.map_vote_tally().is_empty());
    m.map_votes.insert(1, "Nuke".to_string());
    m.map_votes.insert(2, "Nuke".to_string());
    m.map_votes.insert(3, "Mirage".to_string());
    assert_eq!(m.timeout_map(&"Dust".to_string()), "Nuke");
    let mut tally = m.map_vote_tally();
    tally.sort();
    assert_eq!(tally, vec![("Mirage".to_string(), 1), ("Nuke".to_string(), 2)]);
}

#[test]
fn a_new_match_has_no_votes() {
    let m = MatchData::new(vec![10], vec![vec![1], vec![2]], Some(1), None, "#4".to_string(), 8);
    assert!(m.result_votes.is_empty() && m.map_votes.is_empty());
    assert!(!m.resolved);
    assert_eq!(m.match_end_time, None);
    assert_eq!(m.members, vec![vec![1], vec![2]]);
    assert_eq!(m.name, "#4");
    assert_eq!(m.queue, 8);
}

#[test]
fn archiving_a_finished_match() {
    let mut current = HashMap::new();
    current.insert(7u128, new_match());
    current.insert(8u128, new_match());
    let mut finished = HashMap::new();
    let players = archive_match(&mut current, &mut finished, 7, 1234);
    assert_eq!(players, vec![1, 2, 3, 4]);
    assert!(!current.contains_key(&7));
    assert!(current.contains_key(&8));
    assert_eq!(finished.len(), 1);
    assert_eq!(finished[&7].match_end_time, Some(1234));
    assert_eq!(finished[&7].members, vec![vec![1, 2], vec![3, 4]]);
    assert_eq!(finished[&7].channels, vec![10, 11, 12]);
}

#[test]
fn archiving_an_unknown_match_changes_nothing() {
    let mut current = HashMap::new();
    current.insert(8u128, new_match());
    let mut finished = HashMap::new();
    let players = archive_match(&mut current, &mut finished, 7, 1234);
    assert!(players.is_empty());
    assert_eq!(current.len(), 1);
    assert!(finished.is_empty());
}

#[test]
fn team_members_in_team_order() {
    assert_eq!(team_members(&vec![vec![5], vec![], vec![3, 1]]), vec![5, 3, 1]);
    assert!(team_members(&vec![]).is_empty());
}
