use std::collections::HashSet;
use queue_bot::bans::BanList;
use queue_bot::match_start::{
    begin_match, category_counts, choose_host, choose_single_map, choose_vote_maps, maps_from_draws, match_channel_name, match_name,
    members_message, most_held_value, plays_in, recent_hosts, team_channel_name,
};
use queue_bot::matchmaking::{eligible_pool, enough_players, GreedyState};
use queue_bot::players::{Players, QueueState};
use queue_bot::queueing::{check_queue_entry, enqueue};
use queue_bot::time::Timestamp;

fn queue_players(p: &mut Players, q: &mut HashSet<u64>, users: &[u64]) {
    for u in users {
        assert!(check_queue_entry(p, q, *u).is_ok());
        enqueue(p, q, *u, Timestamp { secs: 0, nanos: 0 });
    }
}

#[test]
fn enough_players_for_a_match() {
    assert!(enough_players(10, 2, 5));
    assert!(!enough_players(9, 2, 5));
    assert!(enough_players(0, 0, 5));
}

#[test]
fn banned_players_are_not_matched() {
    let q: HashSet<u64> = HashSet::from([1, 2, 3]);
    let mut bans = BanList::new();
    bans.ban_player(2, None, None, None, Some(true), Timestamp { secs: 0, nanos: 0 });
    assert_eq!(eligible_pool(&q, &bans), HashSet::from([1, 3]));
}

#[test]
fn greedy_search_places_whole_parties() {
    let mut p = Players::new();
    let mut q: HashSet<u64> = HashSet::new();
    let party = match p.party_invite(1, 2) { Ok(i) => i.party, Err(_) => panic!() };
    let _ = p.join_party(2, party);
    queue_players(&mut p, &mut q, &[1, 2, 3, 4]);
    let mut g = GreedyState::new(q.clone(), 2, 2);
    let mut steps = 0;
    while !g.is_done() {
        let cands = g.candidates(&p);
        assert!(!cands.is_empty());
        for c in cands.iter() {
            if c.added.contains(&1) || c.added.contains(&2) {
                let mut added = c.added.clone();
                added.sort();
                assert_eq!(added, vec![1, 2]);
            }
        }
        let c = cands.into_iter().next().unwrap();
        let preview = g.teams_with(&c);
        g.apply(&p, c);
        assert_eq!(preview, g.teams);
        steps += 1;
    }
    assert!(steps <= 3);
    assert_eq!(g.placed, 4);
    let mut all: Vec<u64> = g.teams.iter().flatten().copied().collect();
    all.sort();
    assert_eq!(all, vec![1, 2, 3, 4]);
    assert!(g.pool.is_empty());
    let together = g.teams.iter().any(|t| t.contains(&1) && t.contains(&2));
    assert!(together);
}

#[test]
fn a_party_with_a_member_outside_the_pool_waits() {
    let mut p = Players::new();
    let mut q: HashSet<u64> = HashSet::new();
    let party = match p.party_invite(1, 2) { Ok(i) => i.party, Err(_) => panic!() };
    let _ = p.join_party(2, party);
    queue_players(&mut p, &mut q, &[1, 3]);
    let g = GreedyState::new(q, 1, 2);
    let cands = g.candidates(&p);
    assert_eq!(cands.len(), 1);
    assert_eq!(cands[0].added, vec![3]);
}

#[test]
fn starting_a_match() {
    let mut p = Players::new();
    let mut q: HashSet<u64> = HashSet::new();
    queue_players(&mut p, &mut q, &[1, 2, 3]);
    let mut idx = 4u32;
    let teams = vec![vec![1u64], vec![2u64]];
    assert_eq!(begin_match(&mut p, &mut q, &teams, &mut idx), 5);
    assert_eq!(idx, 5);
    assert_eq!(q, HashSet::from([3]));
    assert_eq!(p.global[&1].queue_state, QueueState::InGame);
    assert_eq!(p.global[&1].queue_enter_time, None);
    assert_eq!(p.global[&3].queue_state, QueueState::Idle);
    assert!(plays_in(&teams, 2));
    assert!(!plays_in(&teams, 3));
}

#[test]
fn match_names_and_message() {
    assert_eq!(match_channel_name(12), "match-12");
    assert_eq!(team_channel_name(0, 12), "Team 1 - #12");
    assert_eq!(match_name(12), "#12");
    let msg = members_message(3, &vec![("Region".to_string(), 55)], &vec![vec![1, 2], vec![3]], Some(2));
    assert_eq!(msg, "# Queue#3\nRegion: <@&55>\n## Team 1\n<@1>\n<@2>\n## Team 2\n<@3>\n## Host: <@2>\n");
    assert_eq!(members_message(1, &vec![], &vec![vec![]], None), "# Queue#1\n## Team 1\n");
}

#[test]
fn maps_drawn_come_from_the_pool() {
    let pool = vec!["a".to_string(), "b".to_string(), "c".to_string()];
    for _ in 0..20 {
        let mut drawn = choose_vote_maps(pool.clone(), 2);
        assert_eq!(drawn.len(), 2);
        drawn.sort();
        drawn.dedup();
        assert_eq!(drawn.len(), 2);
        assert!(drawn.iter().all(|m| pool.contains(m)));
        assert!(pool.contains(&choose_single_map(pool.clone())));
    }
    assert_eq!(choose_vote_maps(pool.clone(), 3).len(), 3);
    assert!(choose_vote_maps(pool, 0).is_empty());
}

#[test]
fn hosts_of_recent_games() {
    let teams = vec![vec![1u64, 2], vec![3]];
    let games = vec![(Some(90u64), Some(2u64)), (Some(10), Some(3)), (None, Some(1)), (Some(95), None), (Some(99), Some(7)), (Some(99), Some(2))];
    let hosts = recent_hosts(&games, &teams, 100, 20);
    assert_eq!(hosts, vec![2, 2]);
    assert_eq!(choose_host(&hosts), Some(2));
    assert_eq!(choose_host(&vec![]), None);
    assert_eq!(choose_host(&vec![5, 6, 6]), Some(6));
}

#[test]
fn the_category_most_players_hold() {
    let counts = category_counts(3, &vec![vec![0, 2], vec![2], vec![1]]);
    assert_eq!(counts, vec![1, 1, 2]);
    assert_eq!(most_held_value(&counts), 2);
    assert_eq!(most_held_value(&vec![2, 2, 1]), 1);
    assert_eq!(most_held_value(&vec![]), 0);
}

#[test]
fn category_values_held_twice_count_twice() {
    assert_eq!(category_counts(2, &vec![vec![1, 1], vec![0]]), vec![1, 2]);
    assert_eq!(category_counts(0, &vec![vec![], vec![]]), Vec::<u64>::new());
}

#[test]
fn drawn_indices_pick_the_maps() {
    let pool = vec!["a".to_string(), "b".to_string(), "c".to_string(), "d".to_string()];
    assert_eq!(maps_from_draws(pool.clone(), &vec![1, 1, 0]), vec!["b".to_string(), "c".to_string(), "a".to_string()]);
    assert_eq!(maps_from_draws(pool.clone(), &vec![3]), vec!["d".to_string()]);
    assert!(maps_from_draws(pool, &vec![]).is_empty());
}

#[test]
fn without_parties_every_team_fills_up() {
    let mut p = Players::new();
    let mut q: HashSet<u64> = HashSet::new();
    queue_players(&mut p, &mut q, &[1, 2, 3, 4, 5, 6, 7]);
    let mut g = GreedyState::new(q, 3, 2);
    while !g.is_done() {
        let c = g.candidates(&p).into_iter().next().unwrap();
        assert_eq!(c.added.len(), 1);
        g.apply(&p, c);
    }
    assert!(g.teams.iter().all(|t| t.len() == 2));
    assert_eq!(g.pool.len(), 1);
}
