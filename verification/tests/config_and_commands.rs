use std::collections::{HashMap, HashSet};
use queue_bot::commands::{
    host_announcement, leaver_check_message, leaver_list_text, no_ping_text, non_voters, record_leaver, release_players,
    volunteer_host, vote_reminder, MatchmakingGuard,
};
use queue_bot::config::{
    contains_name, current_setting_reply, flag_setting, get_queue_uuid, invalid_category_text, map_change_reply,
    maps_list_text, number_setting, parse_register_buttons, roles_list_text, split, toggle_id, QueueSelectError,
    RoleConfiguration,
};
use queue_bot::match_start::begin_match;
use queue_bot::players::{Players, QueueState};
use queue_bot::queueing::{check_queue_entry, enqueue};
use queue_bot::text::MentionKind;
use queue_bot::time::Timestamp;

#[test]
fn choosing_the_queue() {
    assert_eq!(get_queue_uuid(&vec![], None), Err(QueueSelectError::NoQueues));
    assert_eq!(get_queue_uuid(&vec![], Some(0)), Err(QueueSelectError::NoQueues));
    assert_eq!(get_queue_uuid(&vec![7], None), Ok(7));
    assert_eq!(get_queue_uuid(&vec![7, 8], None), Err(QueueSelectError::Ambiguous));
    assert_eq!(get_queue_uuid(&vec![7, 8], Some(1)), Ok(8));
    assert_eq!(get_queue_uuid(&vec![7, 8], Some(2)), Err(QueueSelectError::InvalidIndex));
    assert_eq!(QueueSelectError::NoQueues.message(), "No queues available.");
    assert_eq!(QueueSelectError::InvalidIndex.message(), "Invalid queue idx.");
    assert_eq!(QueueSelectError::Ambiguous.message(), "Multiple queues available: you must specify which queue you want to use");
}

#[test]
fn settings_replies() {
    let mut size = 5u32;
    assert_eq!(number_setting("Team size", None, &mut size), "Team size is currently 5");
    assert_eq!(number_setting("Team size", Some(3), &mut size), "Team size set to 3");
    assert_eq!(size, 3);
    let mut log = true;
    assert_eq!(flag_setting("Should log match chats?", Some(false), &mut log), "Should log match chats? set to false");
    assert!(!log);
    assert_eq!(flag_setting("Should log match chats?", None, &mut log), "Should log match chats? is currently false");
    assert_eq!(current_setting_reply("Audit channel is ", MentionKind::Channel, None), "Audit channel is not set");
    assert_eq!(current_setting_reply("Register role is ", MentionKind::Role, Some(4)), "Register role is <@&4>");
}

#[test]
fn channel_and_role_sets() {
    let mut set: HashSet<u64> = HashSet::new();
    assert_eq!(toggle_id(&mut set, false, Some(10), "queue channel", "Queue channels are ", MentionKind::Channel), "10 added as queue channel");
    assert_eq!(toggle_id(&mut set, false, None, "queue channel", "Queue channels are ", MentionKind::Channel), "Queue channels are <#10>");
    assert_eq!(toggle_id(&mut set, true, Some(11), "queue channel", "Queue channels are ", MentionKind::Channel), "11 wasn't a queue channel");
    assert_eq!(toggle_id(&mut set, true, Some(10), "queue channel", "Queue channels are ", MentionKind::Channel), "10 removed as queue channel");
    assert!(set.is_empty());
}

#[test]
fn maps_and_categories_texts() {
    assert_eq!(map_change_reply(false, true, "Dust"), "Dust added as map");
    assert_eq!(map_change_reply(true, true, "Dust"), "Dust removed as map");
    assert_eq!(map_change_reply(true, false, "Dust"), "Dust wasn't a map");
    assert_eq!(maps_list_text(&vec!["a".to_string(), "b".to_string()]), "Maps are a, b");
    let cats = vec!["rank".to_string(), "region".to_string()];
    assert!(contains_name(&cats, "region"));
    assert!(!contains_name(&cats, "role"));
    assert_eq!(invalid_category_text("role", &cats), "Invalid category role. Categories are rank, region");
    let roles = vec![
        RoleConfiguration { name: "Tank".to_string(), description: "front".to_string() },
        RoleConfiguration { name: "Support".to_string(), description: "".to_string() },
    ];
    assert_eq!(roles_list_text(&roles), "Roles:\n* Tank: front\n* Support: ");
}

#[test]
fn splitting_like_str_split() {
    for (s, sep) in [("a,b", ','), ("", ','), (",", ','), ("a::b", ':'), ("abc", ',')] {
        let expected: Vec<String> = s.split(sep).map(|x| x.to_string()).collect();
        assert_eq!(split(s, sep), expected);
    }
}

#[test]
fn register_message_description() {
    let buttons = parse_register_buttons("Bronze:1000,Gold:2000").unwrap();
    assert_eq!(buttons.len(), 2);
    assert_eq!(buttons[0].label, "Bronze");
    assert_eq!(buttons[0].rating, "1000");
    assert_eq!(buttons[1].label, "Gold");
    assert!(parse_register_buttons("Bronze").is_none());
    assert!(parse_register_buttons("a:1:2").is_none());
    assert!(parse_register_buttons("a:1,").is_none());
}

#[test]
fn leavers() {
    let mut counts: HashMap<u64, u32> = HashMap::new();
    record_leaver(&mut counts, 3);
    record_leaver(&mut counts, 3);
    assert_eq!(counts[&3], 2);
    assert_eq!(leaver_list_text(&counts), "# Player Leave Counts\n<@3> left 2 times");
    assert_eq!(leaver_list_text(&HashMap::new()), "# Player Leave Counts\n");
    assert_eq!(leaver_check_message(3, 900), "# Did you leave <@3>?\nEnds <t:900:R>, otherwise user will be reported");
}

#[test]
fn votes_reminder_and_hosts() {
    let teams = vec![vec![1u64, 2], vec![3, 4]];
    let missing = non_voters(&teams, &HashSet::from([2, 3]));
    assert_eq!(missing, vec![1, 4]);
    assert_eq!(vote_reminder(&missing), "# Remember to vote\n<@1>, <@4>");
    let mut host = None;
    assert!(!volunteer_host(&mut host, 5));
    assert!(volunteer_host(&mut host, 6));
    assert_eq!(host, Some(5));
    assert_eq!(host_announcement("# Queue#1", 5), "# Queue#1\n## Host: <@5>");
    assert_eq!(no_ping_text(9, "hi"), "<@9>: hi");
}

#[test]
fn players_leave_the_game_when_it_ends() {
    let mut p = Players::new();
    let mut q: HashSet<u64> = HashSet::new();
    for u in [1u64, 2] {
        assert!(check_queue_entry(&mut p, &q, u).is_ok());
        enqueue(&mut p, &mut q, u, Timestamp { secs: 0, nanos: 0 });
    }
    let teams = vec![vec![1u64], vec![2u64]];
    let mut idx = 0u32;
    begin_match(&mut p, &mut q, &teams, &mut idx);
    release_players(&mut p, &teams);
    assert_eq!(p.global[&1].queue_state, QueueState::Idle);
    assert_eq!(p.global[&2].queue_state, QueueState::Idle);
    assert!(check_queue_entry(&mut p, &q, 1).is_ok());
}

#[test]
fn one_matchmaking_run_at_a_time() {
    let mut g = MatchmakingGuard { running: false };
    assert!(g.try_start());
    assert!(!g.try_start());
    g.pause();
    assert!(g.resume());
    g.pause();
    assert!(g.try_start());
    assert!(!g.resume());
    g.finish();
    assert!(!g.running);
}

#[test]
fn a_match_keeps_parties_and_clears_queue_times() {
    let mut p = Players::new();
    let mut q: HashSet<u64> = HashSet::new();
    let party = match p.party_invite(1, 2) { Ok(i) => i.party, Err(_) => panic!() };
    let _ = p.join_party(2, party);
    for u in [1u64, 2, 3] {
        assert!(check_queue_entry(&mut p, &q, u).is_ok());
        enqueue(&mut p, &mut q, u, Timestamp { secs: 5, nanos: 0 });
    }
    let teams = vec![vec![1u64, 2]];
    let mut idx = 0u32;
    begin_match(&mut p, &mut q, &teams, &mut idx);
    release_players(&mut p, &teams);
    for u in [1u64, 2] {
        assert_eq!(p.global[&u].party, Some(party));
        assert_eq!(p.global[&u].queue_state, QueueState::Idle);
        assert_eq!(p.global[&u].queue_enter_time, None);
    }
    assert_eq!(p.global[&3].queue_enter_time, Some(Timestamp { secs: 5, nanos: 0 }));
    assert_eq!(q, HashSet::from([3]));
}
