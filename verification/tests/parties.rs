use queue_bot::players::{
    invite_message, mention_then, party_list_text, GlobalPlayerData, InviteError, JoinOutcome, Players, QueueState,
};

fn sorted(mut v: Vec<u64>) -> Vec<u64> {
    v.sort();
    v
}

fn agrees(p: &Players) -> bool {
    for (g, group) in p.groups.iter() {
        if group.players.is_empty() {
            return false;
        }
        for u in group.players.iter() {
            if p.global.get(u).map(|d| d.party) != Some(Some(*g)) {
                return false;
            }
        }
    }
    for (u, d) in p.global.iter() {
        if let Some(g) = d.party {
            if !p.groups.get(&g).map(|gr| gr.players.contains(u)).unwrap_or(false) {
                return false;
            }
        }
    }
    true
}

#[test]
fn invite_join_and_leave_keep_parties_consistent() {
    let mut p = Players::new();
    let inv = match p.party_invite(1, 2) {
        Ok(inv) => inv,
        Err(_) => panic!("invite refused"),
    };
    assert_eq!(inv.members, vec![1]);
    assert!(p.groups[&inv.party].pending_invites.contains(&2));
    assert!(agrees(&p));
    match p.join_party(2, inv.party) {
        JoinOutcome::Joined { members, left } => {
            assert_eq!(sorted(members), vec![1, 2]);
            assert!(left.is_none());
        },
        JoinOutcome::NoSuchParty => panic!("party missing"),
    }
    assert!(p.groups[&inv.party].pending_invites.is_empty());
    assert!(agrees(&p));
    let (left, rest) = p.party_leave(1).unwrap();
    assert_eq!(left, inv.party);
    assert_eq!(rest, vec![2]);
    assert!(agrees(&p));
    let (_, rest) = p.party_leave(2).unwrap();
    assert!(rest.is_empty());
    assert!(p.groups.is_empty());
    assert!(p.party_leave(2).is_none());
    assert!(agrees(&p));
}

#[test]
fn joining_another_party_leaves_the_first() {
    let mut p = Players::new();
    let a = match p.party_invite(1, 3) { Ok(i) => i.party, Err(_) => panic!() };
    let b = match p.party_invite(2, 3) { Ok(i) => i.party, Err(_) => panic!() };
    assert!(matches!(p.join_party(3, a), JoinOutcome::Joined { left: None, .. }));
    match p.join_party(3, b) {
        JoinOutcome::Joined { members, left } => {
            assert_eq!(sorted(members), vec![2, 3]);
            let (old, rest) = left.unwrap();
            assert_eq!(old, a);
            assert_eq!(rest, vec![1]);
        },
        JoinOutcome::NoSuchParty => panic!(),
    }
    assert!(agrees(&p));
    assert!(matches!(p.join_party(3, 12345), JoinOutcome::NoSuchParty));
}

#[test]
fn invitations_are_refused_while_queued_or_playing() {
    let mut p = Players::new();
    p.global.insert(1, GlobalPlayerData { queue_enter_time: None, party: None, queue_state: QueueState::InGame });
    p.global.insert(2, GlobalPlayerData { queue_enter_time: None, party: None, queue_state: QueueState::Queued });
    assert!(matches!(p.party_invite(1, 5), Err(InviteError::InGame)));
    assert!(matches!(p.party_invite(2, 5), Err(InviteError::Queued)));
    assert_eq!(InviteError::InGame.message(), "Cannot invite players to party while in game");
    assert_eq!(InviteError::Queued.message(), "Cannot invite players to party while in queue");
}

#[test]
fn rejecting_and_listing() {
    let mut p = Players::new();
    let party = match p.party_invite(1, 2) { Ok(i) => i.party, Err(_) => panic!() };
    let (members, pending) = p.party_list(1).unwrap();
    assert_eq!(members, vec![1]);
    assert_eq!(pending, vec![2]);
    assert_eq!(party_list_text(&members, &pending), "Party members: <@1>\nPending members: <@2>");
    assert_eq!(p.reject_invite(2, party), Some(vec![1]));
    let (members, pending) = p.party_list(1).unwrap();
    assert_eq!(party_list_text(&members, &pending), "Party members: <@1>");
    assert!(p.party_list(2).is_none());
    assert_eq!(p.reject_invite(2, 777), None);
}

#[test]
fn party_messages() {
    assert_eq!(invite_message(1, &vec![1, 3]), "<@1> invited you to their group.\nCurrent members: <@1>, <@3>");
    assert_eq!(mention_then(4, " left your group"), "<@4> left your group");
    assert_eq!(mention_then(4, " joined your party!"), "<@4> joined your party!");
}

#[test]
fn consistency_of_loaded_parties() {
    let mut p = Players::new();
    assert!(p.is_consistent());
    assert!(p.party_invite(1, 2).is_ok());
    assert!(p.is_consistent());
    let g = p.global[&1].party.unwrap();
    let mut broken = Players::new();
    broken.global.insert(1, GlobalPlayerData { queue_enter_time: None, party: Some(g), queue_state: QueueState::Idle });
    assert!(!broken.is_consistent());
    p.global.insert(1, GlobalPlayerData { queue_enter_time: None, party: None, queue_state: QueueState::Idle });
    assert!(!p.is_consistent());
    assert!(agrees(&Players::new()));
}

#[test]
fn founding_a_party_with_a_given_id() {
    let mut p = Players::new();
    let inv = match p.party_invite_with_id(1, 2, 77) { Ok(i) => i, Err(_) => panic!() };
    assert_eq!(inv.party, 77);
    assert_eq!(inv.members, vec![1]);
    assert!(p.groups[&77].pending_invites.contains(&2));
    let again = match p.party_invite_with_id(1, 5, 99) { Ok(i) => i, Err(_) => panic!() };
    assert_eq!(again.party, 77);
    assert!(!p.groups.contains_key(&99));
    assert!(p.is_consistent());
}

#[test]
fn inviting_under_a_taken_party_id() {
    let mut p = Players::new();
    assert!(p.party_invite_with_id(1, 2, 77).is_ok());
    let inv = match p.party_invite_with_id(3, 4, 77) { Ok(i) => i, Err(_) => panic!() };
    assert_eq!(inv.party, 77);
    assert_eq!(inv.members, vec![1]);
    assert_eq!(p.global[&3].party, Some(77));
    assert!(p.groups[&77].pending_invites.contains(&2));
    assert!(p.groups[&77].pending_invites.contains(&4));
    assert!(!p.groups[&77].players.contains(&3));
    assert_eq!(p.groups.len(), 1);
    assert!(!p.is_consistent());
}

#[test]
fn founding_a_second_party() {
    let mut p = Players::new();
    assert!(p.party_invite_with_id(1, 2, 77).is_ok());
    let second = match p.party_invite_with_id(3, 4, 99) { Ok(i) => i, Err(_) => panic!() };
    assert_eq!(second.party, 99);
    assert_eq!(second.members, vec![3]);
    assert_eq!(p.groups.len(), 2);
    assert!(p.is_consistent());
}
