use std::collections::HashSet;
use queue_bot::bans::{BanData, BanList};
use queue_bot::players::{GlobalPlayerData, Players, QueueState};
use queue_bot::queueing::{
    admit_to_queue, afk_check_message, queue_party, check_queue_entry, enqueue, list_queued_text, player_categories, player_leave_queue,
    queue_message_text, queue_of_message, queued_players_text, remove_from_queue, status_text, QueueRefusal,
};
use queue_bot::time::Timestamp;

#[test]
fn entering_a_queue() {
    let mut p = Players::new();
    let mut q: HashSet<u64> = HashSet::new();
    assert!(check_queue_entry(&mut p, &q, 1).is_ok());
    assert_eq!(p.global[&1].queue_state, QueueState::Idle);
    let now = Timestamp { secs: 100, nanos: 5 };
    assert_eq!(enqueue(&mut p, &mut q, 1, now), None);
    assert!(q.contains(&1));
    assert_eq!(p.global[&1].queue_enter_time, Some(now));
    assert!(matches!(check_queue_entry(&mut p, &q, 1), Err(QueueRefusal::AlreadyQueued)));
    p.global.insert(2, GlobalPlayerData { queue_enter_time: None, party: None, queue_state: QueueState::InGame });
    assert!(matches!(check_queue_entry(&mut p, &q, 2), Err(QueueRefusal::InGame)));
}

#[test]
fn pending_invitations_block_the_queue() {
    let mut p = Players::new();
    let q: HashSet<u64> = HashSet::new();
    assert!(p.party_invite(1, 2).is_ok());
    let r = check_queue_entry(&mut p, &q, 1);
    assert!(matches!(r, Err(QueueRefusal::PartyHasPendingInvites)));
    assert_eq!(QueueRefusal::PartyHasPendingInvites.message(), "Cannot queue while your party has pending invites!");
    assert_eq!(QueueRefusal::InGame.message(), "Cannot queue while in game!");
    assert_eq!(QueueRefusal::AlreadyQueued.message(), "You're already in this queue!");
    assert_eq!(QueueRefusal::Banned("x".to_string()).message(), "x");
}

#[test]
fn leaving_a_queue_alone_and_with_a_party() {
    let mut p = Players::new();
    let mut q: HashSet<u64> = HashSet::new();
    let party = match p.party_invite(1, 2) { Ok(i) => i.party, Err(_) => panic!() };
    let _ = p.join_party(2, party);
    for u in [1u64, 2, 3] {
        assert!(check_queue_entry(&mut p, &q, u).is_ok());
        enqueue(&mut p, &mut q, u, Timestamp { secs: 1, nanos: 0 });
    }
    let r = player_leave_queue(&mut p, &mut q, 2, true);
    assert_eq!(r.message, "Party left queue");
    assert!(r.removed_any);
    assert_eq!(q, HashSet::from([3]));
    assert_eq!(p.global[&1].queue_enter_time, None);
    let r = player_leave_queue(&mut p, &mut q, 3, true);
    assert_eq!(r.message, "You are no longer queueing!");
    let r = player_leave_queue(&mut p, &mut q, 3, false);
    assert_eq!(r.message, "You weren't queued!");
    assert!(!r.removed_any);
    assert!(!remove_from_queue(&mut p, &mut q, 42));
    assert!(p.global.contains_key(&42));
}

#[test]
fn categories_of_a_member() {
    let cats = vec![("rank".to_string(), vec![10u64, 11, 12]), ("region".to_string(), vec![20, 21])];
    let r = player_categories(&cats, &vec![12, 20, 10, 99]);
    assert_eq!(r, vec![("rank".to_string(), vec![0usize, 2]), ("region".to_string(), vec![0usize])]);
}

#[test]
fn queue_texts() {
    assert_eq!(
        queue_message_text(&vec![1, 2], 3, 2, 5),
        "## Matchmaking Queue\n### 32 people are playing right now\nThere are 2 queued players: <@1>, <@2>"
    );
    assert_eq!(list_queued_text(&vec![]), "There are 0 queued players: ");
    assert_eq!(queued_players_text(&vec![8]), "Queued players: <@8>");
    assert_eq!(status_text(true, QueueState::InGame), "You are in queue.");
    assert_eq!(status_text(false, QueueState::Idle), "You are not in queue");
    assert_eq!(status_text(false, QueueState::Queued), "You are queued in a different queue.");
    assert_eq!(status_text(false, QueueState::InGame), "You are in a game.");
    assert_eq!(afk_check_message(3, 50), "# Are you still wanting to queue <@3>?\nEnds <t:50:R>, otherwise you will be kicked from queue");
}

#[test]
fn the_last_queue_of_a_message_wins() {
    let msgs = vec![vec![(1u64, 2u64)], vec![(3, 4)], vec![(1, 2), (5, 6)]];
    assert_eq!(queue_of_message(&msgs, 1, 2), Some(2));
    assert_eq!(queue_of_message(&msgs, 3, 4), Some(1));
    assert_eq!(queue_of_message(&msgs, 9, 9), None);
}

#[test]
fn bans_decide_admission() {
    let mut p = Players::new();
    let mut q: HashSet<u64> = HashSet::new();
    let mut bans = BanList::new();
    bans.bans.insert(1, BanData { end_time: None, reason: Some("spam".to_string()), shadow_ban: false });
    bans.bans.insert(2, BanData { end_time: None, reason: None, shadow_ban: false });
    bans.bans.insert(3, BanData { end_time: None, reason: None, shadow_ban: true });
    let now = Timestamp { secs: 7, nanos: 0 };
    for u in [1u64, 2, 3, 4] {
        p.entry(u);
    }
    match admit_to_queue(&mut p, &mut q, &bans, 1, now) {
        Err(QueueRefusal::Banned(m)) => assert_eq!(m, "Cannot queue because you're banned for spam"),
        _ => panic!("a visible ban refuses"),
    }
    match admit_to_queue(&mut p, &mut q, &bans, 2, now) {
        Err(QueueRefusal::Banned(m)) => assert_eq!(m, "Cannot queue because you're banned"),
        _ => panic!("a visible ban refuses"),
    }
    assert!(q.is_empty());
    assert_eq!(p.global[&1].queue_enter_time, None);
    assert!(matches!(admit_to_queue(&mut p, &mut q, &bans, 3, now), Ok(None)));
    assert!(matches!(admit_to_queue(&mut p, &mut q, &bans, 4, now), Ok(None)));
    assert_eq!(q, HashSet::from([3, 4]));
    assert_eq!(p.global[&3].queue_enter_time, Some(now));
}

#[test]
fn a_party_enters_the_queue_whole_or_not_at_all() {
    let mut p = Players::new();
    let mut q: HashSet<u64> = HashSet::new();
    let party = match p.party_invite(1, 2) { Ok(i) => i.party, Err(_) => panic!() };
    let _ = p.join_party(2, party);
    let members = p.party_members(party).unwrap();
    let mut bans = BanList::new();
    let now = Timestamp { secs: 3, nanos: 0 };
    assert!(queue_party(&mut p, &mut q, &bans, &members, now).is_ok());
    assert_eq!(q, HashSet::from([1, 2]));
    assert_eq!(p.global[&2].queue_enter_time, Some(now));
    let mut q2: HashSet<u64> = HashSet::new();
    bans.bans.insert(2, BanData { end_time: None, reason: None, shadow_ban: false });
    match queue_party(&mut p, &mut q2, &bans, &vec![1, 2], now) {
        Err(e) => {
            assert_eq!(e.member, 2);
            assert_eq!(e.message(1), "<@2>: Cannot queue because you're banned");
            assert_eq!(e.message(2), "Cannot queue because you're banned");
        }
        Ok(()) => panic!("a banned member refuses the party"),
    }
    assert!(q2.is_empty());
    match queue_party(&mut p, &mut q, &BanList::new(), &vec![1, 2], now) {
        Err(e) => assert!(e.member == 1 && matches!(e.refusal, QueueRefusal::AlreadyQueued)),
        Ok(()) => panic!(),
    }
}
