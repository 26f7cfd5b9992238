//! Entering and leaving a queue, and the texts that describe a queue.
use std::collections::HashSet;
use vstd::prelude::*;
use vstd::string::*;
use crate::bans::{ban_refusal, BanList};
use crate::ids::{ChannelId, GroupUuid, MessageId, RoleId, UserId};
use crate::players::{GlobalPlayerData, Players, QueueState};
use crate::text::{decimal, joined_mentions, push_mentions, push_u64, push_user_mention, user_mention, MentionKind};
use crate::time::Timestamp;

verus! {

broadcast use {vstd::std_specs::hash::group_hash_axioms, vstd::seq_lib::group_seq_properties};

/// Why a player may not enter a queue.
#[derive(Clone, Debug)]
pub enum QueueRefusal {
    InGame,
    AlreadyQueued,
    PartyHasPendingInvites,
    /// A visible ban, with the message that reports it.
    Banned(String),
}

impl QueueRefusal {
    /// The message that reports the refusal.
    pub fn message(&self) -> (s: String)
        ensures
            s@ == match self {
                QueueRefusal::InGame => "Cannot queue while in game!"@,
                QueueRefusal::AlreadyQueued => "You're already in this queue!"@,
                QueueRefusal::PartyHasPendingInvites => "Cannot queue while your party has pending invites!"@,
                QueueRefusal::Banned(m) => m@,
            },
    {
        match self {
            QueueRefusal::InGame => String::from_str("Cannot queue while in game!"),
            QueueRefusal::AlreadyQueued => String::from_str("You're already in this queue!"),
            QueueRefusal::PartyHasPendingInvites => String::from_str("Cannot queue while your party has pending invites!"),
            QueueRefusal::Banned(m) => m.clone(),
        }
    }
}

/// Whether the party of a player's record has invitations that are not answered yet.
pub open spec fn party_has_pending_invites(p: Players, user: UserId) -> bool {
    match p.record(user).party {
        Some(g) => p.groups@[g].pending_invites@.len() > 0,
        None => false,
    }
}

/// The checks made before a player enters a queue, in order: not in a game, not in this
/// queue already, no pending invitations in the player's party. The player's record is
/// created when there is none.
pub fn check_queue_entry(players: &mut Players, queued: &HashSet<UserId>, user: UserId) -> (r: Result<(), QueueRefusal>)
    requires
        old(players).wf(),
    ensures
        final(players).wf(),
        final(players).global@ == old(players).global@.insert(user, old(players).record(user)),
        final(players).groups == old(players).groups,
        match r {
            Ok(()) => old(players).record(user).queue_state != QueueState::InGame && !queued@.contains(user)
                && !party_has_pending_invites(*old(players), user),
            Err(QueueRefusal::InGame) => old(players).record(user).queue_state == QueueState::InGame,
            Err(QueueRefusal::AlreadyQueued) => old(players).record(user).queue_state != QueueState::InGame
                && queued@.contains(user),
            Err(QueueRefusal::PartyHasPendingInvites) => old(players).record(user).queue_state != QueueState::InGame
                && !queued@.contains(user) && party_has_pending_invites(*old(players), user),
            Err(QueueRefusal::Banned(_)) => false,
        },
{
    let data = players.entry(user);
    if data.queue_state == QueueState::InGame {
        return Err(QueueRefusal::InGame);
    }
    if queued.contains(&user) {
        return Err(QueueRefusal::AlreadyQueued);
    }
    match data.party {
        Some(g) => {
            proof {
                assert(players.names_party(user, g));
            }
            let group = players.groups.get(&g).unwrap();
            if group.pending_invites.len() > 0 {
                return Err(QueueRefusal::PartyHasPendingInvites);
            }
        },
        None => {},
    }
    Ok(())
}

/// Puts a player in a queue: records when the player entered and adds the player to the
/// queue. Returns the player's party.
pub fn enqueue(players: &mut Players, queued: &mut HashSet<UserId>, user: UserId, now: Timestamp) -> (party: Option<GroupUuid>)
    requires
        old(players).wf(),
        old(players).global@.contains_key(user),
    ensures
        final(players).wf(),
        final(players).groups == old(players).groups,
        final(players).global@ == old(players).global@.insert(user, GlobalPlayerData {
            queue_enter_time: Some(now),
            party: old(players).global@[user].party,
            queue_state: old(players).global@[user].queue_state,
        }),
        final(queued)@ == old(queued)@.insert(user),
        party == old(players).global@[user].party,
{
    let data = *players.global.get(&user).unwrap();
    players.set_queue_status(user, data.queue_state, Some(now));
    queued.insert(user);
    data.party
}

/// The last step of entering a queue, once the entry checks have passed: a player under a
/// visible ban is refused with the ban's message and nothing changes; otherwise the player
/// enters the queue at `now` (see [`enqueue`]) and the player's party is returned.
pub fn admit_to_queue(players: &mut Players, queued: &mut HashSet<UserId>, bans: &BanList, user: UserId, now: Timestamp) -> (r: Result<Option<GroupUuid>, QueueRefusal>)
    requires
        old(players).wf(),
        old(players).global@.contains_key(user),
    ensures
        final(players).wf(),
        final(players).groups == old(players).groups,
        bans@.contains_key(user) && !bans@[user].shadow_ban ==> {
            &&& r matches Err(QueueRefusal::Banned(m)) && m@ == ban_refusal(bans@[user])
            &&& final(players).global == old(players).global
            &&& final(queued)@ == old(queued)@
        },
        !(bans@.contains_key(user) && !bans@[user].shadow_ban) ==> {
            &&& r == Ok::<Option<GroupUuid>, QueueRefusal>(old(players).global@[user].party)
            &&& final(players).global@ == old(players).global@.insert(user, GlobalPlayerData {
                queue_enter_time: Some(now),
                party: old(players).global@[user].party,
                queue_state: old(players).global@[user].queue_state,
            })
            &&& final(queued)@ == old(queued)@.insert(user)
        },
{
    match bans.queue_refusal(user) {
        Some(m) => Err(QueueRefusal::Banned(m)),
        None => Ok(enqueue(players, queued, user, now)),
    }
}

/// Whether `r` is the refusal a player meets on entering a queue: the entry checks of
/// [`check_queue_entry`] in their order, then a visible ban.
pub open spec fn refusal_is(p: Players, queued: Set<UserId>, bans: BanList, u: UserId, r: QueueRefusal) -> bool {
    match r {
        QueueRefusal::InGame => p.record(u).queue_state == QueueState::InGame,
        QueueRefusal::AlreadyQueued => p.record(u).queue_state != QueueState::InGame && queued.contains(u),
        QueueRefusal::PartyHasPendingInvites => p.record(u).queue_state != QueueState::InGame
            && !queued.contains(u) && party_has_pending_invites(p, u),
        QueueRefusal::Banned(m) => p.record(u).queue_state != QueueState::InGame && !queued.contains(u)
            && !party_has_pending_invites(p, u) && bans@.contains_key(u) && !bans@[u].shadow_ban
            && m@ == ban_refusal(bans@[u]),
    }
}

/// Whether a player may enter a queue: no entry check and no visible ban refuses them.
pub open spec fn may_enter(p: Players, queued: Set<UserId>, bans: BanList, u: UserId) -> bool {
    &&& p.record(u).queue_state != QueueState::InGame
    &&& !queued.contains(u)
    &&& !party_has_pending_invites(p, u)
    &&& !(bans@.contains_key(u) && !bans@[u].shadow_ban)
}

/// A party that cannot enter a queue: the first member refused, and why.
pub struct PartyRefusal {
    pub member: UserId,
    pub refusal: QueueRefusal,
}

impl PartyRefusal {
    /// The message for the player who queued the party: the refusal's own message when it
    /// is about that player, otherwise the refused member's mention before it.
    pub fn message(&self, author: UserId) -> (s: String)
        ensures
            s@ == if self.member == author { refusal_text(self.refusal) } else {
                user_mention(self.member) + ": "@ + refusal_text(self.refusal)
            },
    {
        let m = self.refusal.message();
        if self.member == author {
            m
        } else {
            let mut s = String::new();
            push_user_mention(&mut s, self.member);
            s.append(": ");
            s.append(m.as_str());
            s
        }
    }
}

/// The message of a refusal, as [`QueueRefusal::message`] gives it.
pub open spec fn refusal_text(r: QueueRefusal) -> Seq<char> {
    match r {
        QueueRefusal::InGame => "Cannot queue while in game!"@,
        QueueRefusal::AlreadyQueued => "You're already in this queue!"@,
        QueueRefusal::PartyHasPendingInvites => "Cannot queue while your party has pending invites!"@,
        QueueRefusal::Banned(m) => m@,
    }
}

/// Puts a whole party in a queue, or none of it: every member is checked as a player
/// alone would be (see [`check_queue_entry`] and [`admit_to_queue`]); the first member
/// refused is named and nothing enters the queue; otherwise every member enters it at
/// `now`. Records are created for the members checked.
pub fn queue_party(players: &mut Players, queued: &mut HashSet<UserId>, bans: &BanList, members: &Vec<UserId>, now: Timestamp) -> (r: Result<(), PartyRefusal>)
    requires
        old(players).wf(),
    ensures
        final(players).wf(),
        final(players).groups == old(players).groups,
        final(players).global@.dom().subset_of(old(players).global@.dom().union(members@.to_set())),
        (r is Ok) <==> forall|i: int| 0 <= i < members@.len() ==> may_enter(*old(players), old(queued)@, *bans, #[trigger] members@[i]),
        r is Ok ==> {
            &&& final(queued)@ == old(queued)@.union(members@.to_set())
            &&& final(players).global@.dom() == old(players).global@.dom().union(members@.to_set())
            &&& forall|u: UserId| #[trigger] final(players).global@.contains_key(u) ==> final(players).global@[u] ==
                if members@.contains(u) { GlobalPlayerData { queue_enter_time: Some(now), ..old(players).record(u) } }
                else { old(players).global@[u] }
        },
        r matches Err(e) ==> {
            &&& final(queued)@ == old(queued)@
            &&& forall|u: UserId| #[trigger] final(players).global@.contains_key(u) ==> final(players).global@[u] == old(players).record(u)
            &&& exists|k: int| 0 <= k < members@.len() && members@[k] == e.member
                && (forall|j: int| 0 <= j < k ==> may_enter(*old(players), old(queued)@, *bans, #[trigger] members@[j]))
                && refusal_is(*old(players), old(queued)@, *bans, e.member, e.refusal)
        },
{
    let ghost p0 = *players;
    let ghost q0 = queued@;
    let n = members.len();
    let mut i: usize = 0;
    while i < n
        invariant
            n == members@.len(),
            i <= n,
            players.wf(),
            players.groups == p0.groups,
            p0 == *old(players),
            q0 == old(queued)@,
            p0.wf(),
            queued@ == q0,
            forall|u: UserId| #[trigger] players.global@.contains_key(u) ==> players.global@[u] == p0.record(u),
            players.global@.dom() == p0.global@.dom().union(members@.take(i as int).to_set()),
            forall|j: int| 0 <= j < i ==> may_enter(p0, q0, *bans, #[trigger] members@[j]),
        decreases n - i,
    {
        let u = members[i];
        let ghost before = *players;
        proof {
            assert(before.record(u) == p0.record(u));
            assert(party_has_pending_invites(before, u) == party_has_pending_invites(p0, u));
            assert(members@.take(i + 1) =~= members@.take(i as int).push(u));
        }
        match check_queue_entry(players, queued, u) {
            Err(refusal) => {
                proof {
                    assert(members@[i as int] == u);
                    assert(!may_enter(p0, q0, *bans, u));
                    assert(players.groups == before.groups);
                    assert(players.global@.dom() =~= p0.global@.dom().union(members@.take(i + 1).to_set()));
                    assert forall|x: UserId| #[trigger] members@.take(i + 1).to_set().contains(x) implies members@.to_set().contains(x) by {
                        let j = choose|j: int| 0 <= j < i + 1 && #[trigger] members@.take(i + 1)[j] == x;
                        assert(members@[j] == x);
                    }
                }
                return Err(PartyRefusal { member: u, refusal });
            },
            Ok(()) => {},
        }
        proof {
            assert(players.global@.dom() =~= p0.global@.dom().union(members@.take(i + 1).to_set()));
        }
        match bans.queue_refusal(u) {
            Some(m) => {
                proof {
                    assert(members@[i as int] == u);
                    assert forall|x: UserId| #[trigger] members@.take(i + 1).to_set().contains(x) implies members@.to_set().contains(x) by {
                        let j = choose|j: int| 0 <= j < i + 1 && #[trigger] members@.take(i + 1)[j] == x;
                        assert(members@[j] == x);
                    }
                }
                return Err(PartyRefusal { member: u, refusal: QueueRefusal::Banned(m) });
            },
            None => {},
        }
        i = i + 1;
    }
    assert(members@.take(n as int) =~= members@);
    let ghost p1 = *players;
    let mut k: usize = 0;
    while k < n
        invariant
            n == members@.len(),
            k <= n,
            players.wf(),
            players.groups == p0.groups,
            p1.global@.dom() == p0.global@.dom().union(members@.to_set()),
            forall|u: UserId| #[trigger] p1.global@.contains_key(u) ==> p1.global@[u] == p0.record(u),
            players.global@.dom() == p1.global@.dom(),
            forall|u: UserId| #[trigger] players.global@.contains_key(u) ==> players.global@[u] ==
                if members@.take(k as int).contains(u) { GlobalPlayerData { queue_enter_time: Some(now), ..p0.record(u) } }
                else { p1.global@[u] },
            queued@ == q0.union(members@.take(k as int).to_set()),
        decreases n - k,
    {
        let u = members[k];
        proof {
            assert(members@.to_set().contains(u));
            assert(members@.take(k + 1) =~= members@.take(k as int).push(u));
            assert forall|x: UserId| #[trigger] members@.take(k + 1).contains(x)
                <==> (members@.take(k as int).contains(x) || x == u) by {}
        }
        let ghost before = *players;
        enqueue(players, queued, u, now);
        proof {
            assert(p1.global@.contains_key(u));
            assert(before.global@.contains_key(u));
            if members@.take(k as int).contains(u) {
                assert(before.global@[u] == GlobalPlayerData { queue_enter_time: Some(now), ..p0.record(u) });
            } else {
                assert(before.global@[u] == p1.global@[u]);
            }
            assert(before.global@[u].party == p0.record(u).party);
            assert(before.global@[u].queue_state == p0.record(u).queue_state);
            assert(queued@ =~= q0.union(members@.take(k + 1).to_set()));
        }
        k = k + 1;
    }
    proof {
        assert(members@.take(n as int) =~= members@);
        assert forall|u: UserId| #[trigger] players.global@.contains_key(u) implies players.global@[u] ==
            (if members@.contains(u) { GlobalPlayerData { queue_enter_time: Some(now), ..p0.record(u) } }
            else { p0.global@[u] }) by {
            if !members@.contains(u) {
                assert(!members@.to_set().contains(u));
                assert(p0.global@.contains_key(u));
            }
        }
    }
    Ok(())
}

/// The indices of a category's roles that a member holds, in order.
pub open spec fn held_role_indices(category_roles: Seq<RoleId>, member_roles: Seq<RoleId>) -> Seq<usize>
    decreases category_roles.len(),
{
    if category_roles.len() == 0 {
        Seq::empty()
    } else {
        let prev = held_role_indices(category_roles.drop_last(), member_roles);
        if member_roles.contains(category_roles.last()) {
            prev.push((category_roles.len() - 1) as usize)
        } else {
            prev
        }
    }
}

/// The indices a member holds in a category are exactly those of the category's roles that
/// are among the member's roles, each below the number of the category's roles, in
/// increasing order.
pub proof fn lemma_held_role_indices(category_roles: Seq<RoleId>, member_roles: Seq<RoleId>)
    requires
        category_roles.len() <= usize::MAX,
    ensures
        forall|k: int| #![trigger category_roles[k]] 0 <= k < category_roles.len()
            ==> (member_roles.contains(category_roles[k]) <==> held_role_indices(category_roles, member_roles).contains(k as usize)),
        forall|j: int| 0 <= j < held_role_indices(category_roles, member_roles).len()
            ==> #[trigger] held_role_indices(category_roles, member_roles)[j] < category_roles.len(),
        forall|a: int, b: int| 0 <= a < b < held_role_indices(category_roles, member_roles).len()
            ==> #[trigger] held_role_indices(category_roles, member_roles)[a] < #[trigger] held_role_indices(category_roles, member_roles)[b],
    decreases category_roles.len(),
{
    if category_roles.len() > 0 {
        let prefix = category_roles.drop_last();
        let last = (category_roles.len() - 1) as usize;
        lemma_held_role_indices(prefix, member_roles);
        let prev = held_role_indices(prefix, member_roles);
        let held = held_role_indices(category_roles, member_roles);
        assert forall|k: int| #![trigger category_roles[k]] 0 <= k < category_roles.len()
            implies (member_roles.contains(category_roles[k]) <==> held.contains(k as usize)) by {
            if k < category_roles.len() - 1 {
                assert(prefix[k] == category_roles[k]);
                if held.contains(k as usize) && !prev.contains(k as usize) {
                    let j = choose|j: int| 0 <= j < held.len() && held[j] == k as usize;
                    assert(j == prev.len());
                }
                if prev.contains(k as usize) {
                    let j = choose|j: int| 0 <= j < prev.len() && prev[j] == k as usize;
                    assert(held[j] == k as usize);
                }
            } else {
                if member_roles.contains(category_roles[k]) {
                    assert(held[prev.len() as int] == last);
                } else {
                    if held.contains(k as usize) {
                        let j = choose|j: int| 0 <= j < held.len() && held[j] == k as usize;
                        assert(prev[j] < prefix.len());
                    }
                }
            }
        }
    }
}

/// For each game category, the indices of its roles that the member holds.
pub fn player_categories(game_categories: &Vec<(String, Vec<RoleId>)>, member_roles: &Vec<RoleId>) -> (r: Vec<(String, Vec<usize>)>)
    ensures
        r@.len() == game_categories@.len(),
        forall|i: int| 0 <= i < r@.len() ==> (#[trigger] r@[i]).0@ == game_categories@[i].0@
            && r@[i].1@ == held_role_indices(game_categories@[i].1@, member_roles@),
        forall|i: int, k: int| #![trigger r@[i], game_categories@[i].1@[k]]
            0 <= i < r@.len() && 0 <= k < game_categories@[i].1@.len()
            ==> (member_roles@.contains(game_categories@[i].1@[k]) <==> r@[i].1@.contains(k as usize)),
        forall|i: int, j: int| 0 <= i < r@.len() && 0 <= j < r@[i].1@.len()
            ==> #[trigger] r@[i].1@[j] < game_categories@[i].1@.len(),
{
    let mut r: Vec<(String, Vec<usize>)> = Vec::new();
    let n = game_categories.len();
    let mut i: usize = 0;
    while i < n
        invariant
            n == game_categories@.len(),
            i <= n,
            r@.len() == i,
            forall|j: int| 0 <= j < i ==> (#[trigger] r@[j]).0@ == game_categories@[j].0@
                && r@[j].1@ == held_role_indices(game_categories@[j].1@, member_roles@),
            forall|j: int, k: int| #![trigger r@[j], game_categories@[j].1@[k]]
                0 <= j < i && 0 <= k < game_categories@[j].1@.len()
                ==> (member_roles@.contains(game_categories@[j].1@[k]) <==> r@[j].1@.contains(k as usize)),
            forall|j: int, x: int| 0 <= j < i && 0 <= x < r@[j].1@.len()
                ==> #[trigger] r@[j].1@[x] < game_categories@[j].1@.len(),
        decreases n - i,
    {
        let roles = &game_categories[i].1;
        let mut held: Vec<usize> = Vec::new();
        let m = roles.len();
        let mut k: usize = 0;
        while k < m
            invariant
                m == roles@.len(),
                k <= m,
                held@ == held_role_indices(roles@.take(k as int), member_roles@),
            decreases m - k,
        {
            let mut has = false;
            let mut x: usize = 0;
            while x < member_roles.len()
                invariant
                    x <= member_roles@.len(),
                    k < m,
                    m == roles@.len(),
                    has == member_roles@.take(x as int).contains(roles@[k as int]),
                decreases member_roles@.len() - x,
            {
                assert(member_roles@.take(x + 1) =~= member_roles@.take(x as int).push(member_roles@[x as int]));
                if member_roles[x] == roles[k] {
                    has = true;
                }
                x = x + 1;
            }
            assert(member_roles@.take(x as int) =~= member_roles@);
            assert(roles@.take(k + 1).drop_last() =~= roles@.take(k as int));
            if has {
                held.push(k);
            }
            k = k + 1;
        }
        assert(roles@.take(m as int) =~= roles@);
        proof {
            lemma_held_role_indices(roles@, member_roles@);
        }
        r.push((game_categories[i].0.clone(), held));
        i = i + 1;
    }
    r
}

/// What leaving a queue reports.
pub struct LeaveReply {
    pub message: String,
    /// Whether some player was taken out of the queue.
    pub removed_any: bool,
}

/// Takes one player out of a queue: the entry time is cleared (the record created if
/// there is none) and the player removed. Says whether the player was queued.
pub fn remove_from_queue(players: &mut Players, queued: &mut HashSet<UserId>, user: UserId) -> (removed: bool)
    requires
        old(players).wf(),
    ensures
        final(players).wf(),
        final(players).groups == old(players).groups,
        final(players).global@ == old(players).global@.insert(user, GlobalPlayerData {
            queue_enter_time: None,
            party: old(players).record(user).party,
            queue_state: old(players).record(user).queue_state,
        }),
        final(queued)@ == old(queued)@.remove(user),
        removed == old(queued)@.contains(user),
{
    let data = players.entry(user);
    players.set_queue_status(user, data.queue_state, None);
    queued.remove(&user)
}

/// A player leaves a queue. When `queue_group` is set and the player is in a party, every
/// member of the party leaves, with the reply `Party left queue`; otherwise the player
/// alone leaves, with a reply that says whether the player was queued.
pub fn player_leave_queue(players: &mut Players, queued: &mut HashSet<UserId>, user: UserId, queue_group: bool) -> (r: LeaveReply)
    requires
        old(players).wf(),
    ensures
        final(players).wf(),
        final(players).groups == old(players).groups,
        final(players).global@.dom() == old(players).global@.dom().insert(user),
        ({
            let party = old(players).record(user).party;
            if queue_group && party is Some && old(players).groups@.contains_key(party->0) {
                let members = old(players).groups@[party->0].players@;
                &&& forall|u: UserId| #[trigger] final(players).global@.contains_key(u) ==> final(players).global@[u] ==
                    if members.contains(u) { GlobalPlayerData { queue_enter_time: None, ..old(players).record(u) } }
                    else { old(players).global@[u] }
                &&& final(queued)@ == old(queued)@.difference(old(players).groups@[party->0].players@)
                &&& r.message@ == "Party left queue"@
                &&& r.removed_any == exists|m: UserId| old(players).groups@[party->0].players@.contains(m) && #[trigger] old(queued)@.contains(m)
            } else {
                &&& final(players).global@ == old(players).global@.insert(user,
                    GlobalPlayerData { queue_enter_time: None, ..old(players).record(user) })
                &&& final(queued)@ == old(queued)@.remove(user)
                &&& r.removed_any == old(queued)@.contains(user)
                &&& r.message@ == if r.removed_any { "You are no longer queueing!"@ } else { "You weren't queued!"@ }
            }
        }),
{
    let ghost q0 = queued@;
    if queue_group {
        let data = players.entry(user);
        let ghost g1 = players.global@;
        match data.party {
            Some(g) => {
                match players.party_members(g) {
                    Some(members) => {
                        let ghost group = players.groups@[g].players@;
                        proof {
                            assert forall|m: UserId| #[trigger] group.contains(m) implies g1.contains_key(m) by {
                                assert(players.lists_member(m, g));
                                assert(players.names_party(m, g));
                            }
                        }
                        let mut removed_any = false;
                        let n = members.len();
                        let mut i: usize = 0;
                        while i < n
                            invariant
                                players.wf(),
                                players.groups == old(players).groups,
                                n == members@.len(),
                                i <= n,
                                members@.to_set() == group,
                                members@.no_duplicates(),
                                group == old(players).groups@[g].players@,
                                forall|m: UserId| #[trigger] group.contains(m) ==> g1.contains_key(m),
                                players.global@.dom() == g1.dom(),
                                forall|u: UserId| #[trigger] players.global@.contains_key(u) ==> players.global@[u] ==
                                    if members@.take(i as int).contains(u) { GlobalPlayerData { queue_enter_time: None, ..g1[u] } }
                                    else { g1[u] },
                                queued@ == q0.difference(members@.take(i as int).to_set()),
                                removed_any == exists|m: UserId| members@.take(i as int).contains(m) && #[trigger] q0.contains(m),
                            decreases n - i,
                        {
                            let m = members[i];
                            let ghost before = queued@;
                            proof {
                                assert(members@.to_set().contains(m));
                                assert(!members@.take(i as int).contains(m)) by {
                                    if members@.take(i as int).contains(m) {
                                        let j = choose|j: int| 0 <= j < i && members@[j] == m;
                                        assert(members@[j] == members@[i as int]);
                                    }
                                }
                            }
                            let was = remove_from_queue(players, queued, m);
                            proof {
                                assert(members@.take(i + 1) =~= members@.take(i as int).push(m));
                                assert forall|u: UserId| #[trigger] members@.take(i + 1).contains(u)
                                    <==> (members@.take(i as int).contains(u) || u == m) by {}
                                assert(queued@ =~= q0.difference(members@.take(i + 1).to_set()));
                                if q0.contains(m) {
                                    assert(members@.take(i + 1).contains(m));
                                }
                            }
                            if was {
                                removed_any = true;
                            }
                            proof {
                                if was {
                                    assert(members@.take(i + 1).contains(m) && q0.contains(m));
                                }
                                if exists|x: UserId| members@.take(i + 1).contains(x) && #[trigger] q0.contains(x) {
                                    let x = choose|x: UserId| members@.take(i + 1).contains(x) && #[trigger] q0.contains(x);
                                    if x == m {
                                        assert(before.contains(m) || members@.take(i as int).contains(m));
                                    } else {
                                        assert(members@.take(i as int).contains(x));
                                    }
                                }
                            }
                            i = i + 1;
                        }
                        assert(members@.take(n as int) =~= members@);
                        assert(queued@ =~= q0.difference(group));
                        proof {
                            assert(old(players).lists_member(user, g));
                            assert(players.global@.dom() =~= old(players).global@.dom().insert(user));
                            assert forall|u: UserId| #[trigger] players.global@.contains_key(u) implies players.global@[u] ==
                                (if group.contains(u) { GlobalPlayerData { queue_enter_time: None, ..old(players).record(u) } }
                                else { old(players).global@[u] }) by {
                                assert(members@.to_set().contains(u) == group.contains(u));
                                if u == user {
                                    assert(group.contains(u));
                                }
                            }
                        }
                        return LeaveReply { message: String::from_str("Party left queue"), removed_any };
                    },
                    None => {},
                }
            },
            None => {},
        }
    }
    let removed = remove_from_queue(players, queued, user);
    let message = if removed {
        String::from_str("You are no longer queueing!")
    } else {
        String::from_str("You weren't queued!")
    };
    LeaveReply { message, removed_any: removed }
}

/// The reply to a player who asks for their queue status.
pub fn status_text(in_this_queue: bool, state: QueueState) -> (s: &'static str)
    ensures
        s@ == if in_this_queue { "You are in queue."@ } else {
            match state {
                QueueState::Idle => "You are not in queue"@,
                QueueState::Queued => "You are queued in a different queue."@,
                QueueState::InGame => "You are in a game."@,
            }
        },
{
    if in_this_queue {
        "You are in queue."
    } else {
        match state {
            QueueState::Idle => "You are not in queue",
            QueueState::Queued => "You are queued in a different queue.",
            QueueState::InGame => "You are in a game.",
        }
    }
}

/// The number of players in running games: a full match per game.
pub open spec fn in_game_count(games: nat, team_count: u32, team_size: u32) -> int {
    games * (team_count * team_size)
}

/// The text of a queue's message: how many play, and who is queued.
pub fn queue_message_text(queued: &Vec<UserId>, games: usize, team_count: u32, team_size: u32) -> (s: String)
    requires
        team_count * team_size <= u32::MAX,
        queued@.len() + in_game_count(games as nat, team_count, team_size) <= u64::MAX,
    ensures
        s@ == "## Matchmaking Queue\n### "@
            + decimal((queued@.len() + in_game_count(games as nat, team_count, team_size)) as nat)
            + " people are playing right now\nThere are "@ + decimal(queued@.len())
            + " queued players: "@ + joined_mentions(MentionKind::User, queued@, ", "@),
{
    let per_game: u64 = (team_count * team_size) as u64;
    assert(games as int * per_game <= u64::MAX) by (nonlinear_arith)
        requires
            queued@.len() + games as int * per_game <= u64::MAX;
    let playing: u64 = queued.len() as u64 + games as u64 * per_game;
    let mut s = String::from_str("## Matchmaking Queue\n### ");
    push_u64(&mut s, playing);
    s.append(" people are playing right now\nThere are ");
    push_u64(&mut s, queued.len() as u64);
    s.append(" queued players: ");
    push_mentions(&mut s, MentionKind::User, queued, ", ");
    s
}

/// The reply that lists a queue: `There are N queued players: ...`.
pub fn list_queued_text(queued: &Vec<UserId>) -> (s: String)
    ensures
        s@ == "There are "@ + decimal(queued@.len()) + " queued players: "@
            + joined_mentions(MentionKind::User, queued@, ", "@),
{
    let mut s = String::from_str("There are ");
    push_u64(&mut s, queued.len() as u64);
    s.append(" queued players: ");
    push_mentions(&mut s, MentionKind::User, queued, ", ");
    s
}

/// The reply to a player who just queued: `Queued players: ...`.
pub fn queued_players_text(queued: &Vec<UserId>) -> (s: String)
    ensures
        s@ == "Queued players: "@ + joined_mentions(MentionKind::User, queued@, ", "@),
{
    let mut s = String::from_str("Queued players: ");
    push_mentions(&mut s, MentionKind::User, queued, ", ");
    s
}

/// Whether a list of messages holds the given one.
pub open spec fn has_message(messages: Seq<(ChannelId, MessageId)>, channel: ChannelId, message: MessageId) -> bool {
    messages.contains((channel, message))
}

/// The queue that a queue message belongs to: the last queue (in the server's order) whose
/// messages include it, or `None`.
pub fn queue_of_message(queue_messages: &Vec<Vec<(ChannelId, MessageId)>>, channel: ChannelId, message: MessageId) -> (r: Option<usize>)
    ensures
        match r {
            Some(i) => i < queue_messages@.len() && has_message(queue_messages@[i as int]@, channel, message)
                && forall|j: int| i < j < queue_messages@.len() ==> !has_message(#[trigger] queue_messages@[j]@, channel, message),
            None => forall|j: int| 0 <= j < queue_messages@.len() ==> !has_message(#[trigger] queue_messages@[j]@, channel, message),
        },
{
    let mut r: Option<usize> = None;
    let n = queue_messages.len();
    let mut i: usize = 0;
    while i < n
        invariant
            n == queue_messages@.len(),
            i <= n,
            match r {
                Some(k) => k < i && has_message(queue_messages@[k as int]@, channel, message)
                    && forall|j: int| k < j < i ==> !has_message(#[trigger] queue_messages@[j]@, channel, message),
                None => forall|j: int| 0 <= j < i ==> !has_message(#[trigger] queue_messages@[j]@, channel, message),
            },
        decreases n - i,
    {
        let list = &queue_messages[i];
        let mut found = false;
        let mut k: usize = 0;
        while k < list.len()
            invariant
                k <= list@.len(),
                found == list@.take(k as int).contains((channel, message)),
            decreases list@.len() - k,
        {
            assert(list@.take(k + 1) =~= list@.take(k as int).push(list@[k as int]));
            let (c, m) = list[k];
            if c == channel && m == message {
                found = true;
            }
            k = k + 1;
        }
        assert(list@.take(k as int) =~= list@);
        if found {
            r = Some(i);
        }
        i = i + 1;
    }
    r
}

/// The direct message that asks a queued player whether they still want to queue, and
/// until when they may answer.
pub fn afk_check_message(user: UserId, deadline: u64) -> (s: String)
    ensures
        s@ == "# Are you still wanting to queue "@ + user_mention(user) + "?\nEnds <t:"@ + decimal(deadline as nat)
            + ":R>, otherwise you will be kicked from queue"@,
{
    let mut s = String::from_str("# Are you still wanting to queue ");
    push_user_mention(&mut s, user);
    s.append("?\nEnds <t:");
    push_u64(&mut s, deadline);
    s.append(":R>, otherwise you will be kicked from queue");
    s
}

/// A player who enters a queue and then leaves it leaves the queue as it was, without
/// that player: the queue after [`enqueue`] and then [`remove_from_queue`].
pub proof fn lemma_enqueue_then_leave(queued: Set<UserId>, user: UserId)
    ensures
        queued.insert(user).remove(user) == queued.remove(user),
{
    assert(queued.insert(user).remove(user) =~= queued.remove(user));
}

} // verus!
