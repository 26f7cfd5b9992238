//! Players across all queues: their queue state and their parties.
//!
//! A player's record names the party the player belongs to, and each party lists its
//! members. The two agree (see [`Players::wf`]): a player's record names a party exactly
//! when that party exists and lists the player, and no party is empty. Every operation
//! keeps this, but for one: an invitation by a player without a party whose newly drawn
//! party id belongs to a party already. The inviter's record then names that party, whose
//! members stay as they were.
use std::collections::HashMap;
use std::collections::HashSet;
use vstd::prelude::*;
use vstd::string::*;
use crate::ids::{new_uuid, GroupUuid, UserId};
use crate::keys::{keys_of, members_of};
use crate::text::{joined_mentions, push_mentions, push_user_mention, user_mention, MentionKind};
use crate::time::Timestamp;

verus! {

broadcast use {vstd::std_specs::hash::group_hash_axioms, vstd::set_lib::group_set_properties};

/// Where a player stands with respect to queues.
#[derive(Clone, Copy, PartialEq, Eq, Structural, Debug)]
pub enum QueueState {
    Idle,
    Queued,
    InGame,
}

/// What the bot knows of a player, whatever the queue.
#[derive(Clone, Copy, PartialEq, Eq, Structural, Debug)]
pub struct GlobalPlayerData {
    /// When the player last entered a queue, while queued.
    pub queue_enter_time: Option<Timestamp>,
    /// The party of the player, if any.
    pub party: Option<GroupUuid>,
    pub queue_state: QueueState,
}

/// The record of a player the bot has not seen before.
pub open spec fn default_player() -> GlobalPlayerData {
    GlobalPlayerData { queue_enter_time: None, party: None, queue_state: QueueState::Idle }
}

impl GlobalPlayerData {
    /// The record of a player the bot has not seen before.
    pub fn new() -> (r: GlobalPlayerData)
        ensures
            r == default_player(),
    {
        GlobalPlayerData { queue_enter_time: None, party: None, queue_state: QueueState::Idle }
    }
}

/// A party: its members and the players invited who have not answered yet.
pub struct QueueGroup {
    pub players: HashSet<UserId>,
    pub pending_invites: HashSet<UserId>,
}

/// Why a player may not invite others to a party.
#[derive(Clone, Copy, PartialEq, Eq, Structural, Debug)]
pub enum InviteError {
    /// The player is in a queue.
    Queued,
    /// The player is in a game.
    InGame,
}

impl InviteError {
    /// The reply for the refused invitation.
    pub fn message(&self) -> (s: String)
        ensures
            s@ == match *self {
                InviteError::Queued => "Cannot invite players to party while in queue"@,
                InviteError::InGame => "Cannot invite players to party while in game"@,
            },
    {
        match self {
            InviteError::Queued => String::from_str("Cannot invite players to party while in queue"),
            InviteError::InGame => String::from_str("Cannot invite players to party while in game"),
        }
    }
}

/// A successful invitation: the inviter's party and its members.
pub struct Invitation {
    pub party: GroupUuid,
    pub members: Vec<UserId>,
}

/// What happens when a player accepts an invitation.
pub enum JoinOutcome {
    /// The party no longer exists; nothing changed.
    NoSuchParty,
    /// The player joined: the party's members, and the party the player left (with the
    /// members that remain in it), if the player was in another one.
    Joined { members: Vec<UserId>, left: Option<(GroupUuid, Vec<UserId>)> },
}

/// The parties after `user` leaves the party `party`: the party loses the player and is
/// dropped once empty; every other party stays as it was.
pub open spec fn after_leaving(before: Map<GroupUuid, QueueGroup>, after: Map<GroupUuid, QueueGroup>, user: UserId, party: GroupUuid) -> bool {
    let left = before[party].players@.remove(user);
    if left.is_empty() {
        after == before.remove(party)
    } else {
        &&& after.dom() == before.dom()
        &&& forall|g: GroupUuid| g != party && #[trigger] after.contains_key(g) ==> after[g] == before[g]
        &&& after[party].players@ == left
        &&& after[party].pending_invites@ == before[party].pending_invites@
    }
}

/// `after` is `before` once `author` has invited `invitee` into the party `party`, whose
/// members are `members`: the author's record names the party, the invitee is among the
/// party's pending invitations, and nothing else has changed. When no party has the id
/// `party` yet, it is founded with the author alone; when one has it, its members stay as
/// they were.
pub open spec fn invited(before: Players, after: Players, author: UserId, invitee: UserId, party: GroupUuid, members: Seq<UserId>) -> bool {
    &&& after.global@ == before.global@.insert(author, GlobalPlayerData { party: Some(party), ..before.record(author) })
    &&& after.groups@ == before.groups@.insert(party, after.groups@[party])
    &&& before.record(author).party matches Some(p) ==> p == party
    &&& after.groups@[party].players@ == (if before.groups@.contains_key(party) {
        before.groups@[party].players@ } else { set![author] })
    &&& after.groups@[party].pending_invites@ == (if before.groups@.contains_key(party) {
        before.groups@[party].pending_invites@ } else { Set::empty() }).insert(invitee)
    &&& members.to_set() == after.groups@[party].players@
    &&& members.no_duplicates()
}

/// `after` is `before` once `user` has joined the party `party`, whose members are now
/// `members`: the user's record names the party, the party lists the user and no longer
/// invites them, and the party the user was in before (`left`, with the members that
/// remain in it) loses the user; nothing else has changed.
pub open spec fn joined(before: Players, after: Players, user: UserId, party: GroupUuid, members: Seq<UserId>, left: Option<(GroupUuid, Seq<UserId>)>) -> bool {
    let with_user = before.groups@.insert(party, after.groups@[party]);
    &&& after.global@ == before.global@.insert(user, GlobalPlayerData { party: Some(party), ..before.record(user) })
    &&& after.groups@.contains_key(party)
    &&& after.groups@[party].pending_invites@ == before.groups@[party].pending_invites@.remove(user)
    &&& after.groups@[party].players@ == before.groups@[party].players@.insert(user)
    &&& members.to_set() == before.groups@[party].players@.insert(user)
    &&& match left {
        Some((o, rest)) => before.record(user).party == Some(o) && o != party
            && rest.to_set() == before.groups@[o].players@.remove(user)
            && after_leaving(with_user, after.groups@, user, o),
        None => (before.record(user).party is None || before.record(user).party == Some(party))
            && after.groups@ == with_user,
    }
}

/// All players the bot knows and all parties.
pub struct Players {
    pub global: HashMap<UserId, GlobalPlayerData>,
    pub groups: HashMap<GroupUuid, QueueGroup>,
}

impl Players {
    /// Whether the record of `user` names the party `g`.
    pub open spec fn names_party(self, user: UserId, g: GroupUuid) -> bool {
        self.global@.contains_key(user) && self.global@[user].party == Some(g)
    }

    /// Whether the party `g` exists and lists `user` as a member.
    pub open spec fn lists_member(self, user: UserId, g: GroupUuid) -> bool {
        self.groups@.contains_key(g) && self.groups@[g].players@.contains(user)
    }

    /// The records and the parties agree, and no party is empty.
    pub open spec fn wf(self) -> bool {
        &&& forall|g: GroupUuid| #[trigger] self.groups@.contains_key(g) ==> !self.groups@[g].players@.is_empty()
        &&& forall|u: UserId, g: GroupUuid| #![trigger self.names_party(u, g)] #![trigger self.lists_member(u, g)] self.names_party(u, g) <==> self.lists_member(u, g)
    }

    /// The record of `user`, as it is once looked up: a new record when there was none.
    pub open spec fn record(self, user: UserId) -> GlobalPlayerData {
        if self.global@.contains_key(user) { self.global@[user] } else { default_player() }
    }

    /// Whether `author` has no party while a party has the id `fresh` already, so that an
    /// invitation by `author` would not found a new party under that id.
    pub open spec fn party_id_taken(self, author: UserId, fresh: GroupUuid) -> bool {
        &&& self.record(author).party is None
        &&& self.groups@.contains_key(fresh)
    }

    /// No players and no parties.
    pub fn new() -> (r: Players)
        ensures
            r.wf(),
            r.global@ == Map::<UserId, GlobalPlayerData>::empty(),
            r.groups@.dom() == Set::<GroupUuid>::empty(),
    {
        let r = Players { global: HashMap::new(), groups: HashMap::new() };
        assert forall|u: UserId, g: GroupUuid| #![trigger r.names_party(u, g)] #![trigger r.lists_member(u, g)] r.names_party(u, g) <==> r.lists_member(u, g) by {}
        r
    }

    /// Whether the records and the parties agree and no party is empty: a check of
    /// [`Players::wf`] for players read from elsewhere.
    pub fn is_consistent(&self) -> (r: bool)
        ensures
            r == self.wf(),
    {
        let gkeys = keys_of(&self.groups);
        let mut gi: usize = 0;
        while gi < gkeys.len()
            invariant
                gi <= gkeys@.len(),
                gkeys@.to_set() == self.groups@.dom(),
                forall|j: int| 0 <= j < gi ==> !self.groups@[#[trigger] gkeys@[j]].players@.is_empty(),
                forall|u: UserId, j: int| 0 <= j < gi && #[trigger] self.lists_member(u, gkeys@[j])
                    ==> self.names_party(u, gkeys@[j]),
            decreases gkeys@.len() - gi,
        {
            let g = gkeys[gi];
            proof {
                assert(gkeys@.to_set().contains(g));
            }
            let group = self.groups.get(&g).unwrap();
            let members = members_of(&group.players);
            if members.len() == 0 {
                assert(!self.wf()) by {
                    assert(members@ =~= Seq::<UserId>::empty());
                    assert(self.groups@[g].players@ =~= Set::<UserId>::empty());
                    assert(self.groups@.contains_key(g));
                }
                return false;
            }
            let mut k: usize = 0;
            while k < members.len()
                invariant
                    k <= members@.len(),
                    members@.to_set() == self.groups@[g].players@,
                    self.groups@.contains_key(g),
                    forall|i: int| 0 <= i < k ==> self.names_party(#[trigger] members@[i], g),
                decreases members@.len() - k,
            {
                let u = members[k];
                let named = match self.global.get(&u) {
                    Some(d) => d.party == Some(g),
                    None => false,
                };
                if !named {
                    assert(!self.wf()) by {
                        assert(members@.to_set().contains(u));
                        assert(self.lists_member(u, g));
                        assert(!self.names_party(u, g));
                    }
                    return false;
                }
                k = k + 1;
            }
            proof {
                assert forall|u: UserId| #[trigger] self.lists_member(u, g) implies self.names_party(u, g) by {
                    assert(members@.to_set().contains(u));
                    let i = choose|i: int| 0 <= i < members@.len() && members@[i] == u;
                    assert(self.names_party(members@[i], g));
                }
                assert(self.groups@[g].players@.contains(members@[0]));
            }
            gi = gi + 1;
        }
        let ukeys = keys_of(&self.global);
        let mut ui: usize = 0;
        while ui < ukeys.len()
            invariant
                ui <= ukeys@.len(),
                ukeys@.to_set() == self.global@.dom(),
                forall|u: UserId, g: GroupUuid| #[trigger] self.names_party(u, g) && ukeys@.take(ui as int).contains(u)
                    ==> self.lists_member(u, g),
            decreases ukeys@.len() - ui,
        {
            let u = ukeys[ui];
            proof {
                assert(ukeys@.to_set().contains(u));
            }
            let d = *self.global.get(&u).unwrap();
            match d.party {
                Some(g) => {
                    let listed = match self.groups.get(&g) {
                        Some(group) => group.players.contains(&u),
                        None => false,
                    };
                    if !listed {
                        assert(!self.wf()) by {
                            assert(self.names_party(u, g));
                            assert(!self.lists_member(u, g));
                        }
                        return false;
                    }
                },
                None => {},
            }
            proof {
                assert(ukeys@.take(ui + 1) =~= ukeys@.take(ui as int).push(u));
            }
            ui = ui + 1;
        }
        proof {
            assert(ukeys@.take(ui as int) =~= ukeys@);
            assert forall|g: GroupUuid| #[trigger] self.groups@.contains_key(g) implies !self.groups@[g].players@.is_empty() by {
                assert(gkeys@.to_set().contains(g));
                let j = choose|j: int| 0 <= j < gkeys@.len() && gkeys@[j] == g;
                assert(!self.groups@[gkeys@[j]].players@.is_empty());
            }
            assert forall|u: UserId, g: GroupUuid| #![trigger self.names_party(u, g)] #![trigger self.lists_member(u, g)]
                self.names_party(u, g) <==> self.lists_member(u, g) by {
                if self.lists_member(u, g) {
                    assert(gkeys@.to_set().contains(g));
                    let j = choose|j: int| 0 <= j < gkeys@.len() && gkeys@[j] == g;
                    assert(self.lists_member(u, gkeys@[j]));
                }
                if self.names_party(u, g) {
                    assert(ukeys@.to_set().contains(u));
                    assert(ukeys@.contains(u));
                }
            }
        }
        true
    }

    /// The record of `user`, created first if there is none.
    pub fn entry(&mut self, user: UserId) -> (r: GlobalPlayerData)
        requires
            old(self).wf(),
        ensures
            final(self).wf(),
            r == old(self).record(user),
            final(self).global@ == old(self).global@.insert(user, r),
            final(self).groups == old(self).groups,
    {
        let r = match self.global.get(&user) {
            Some(d) => *d,
            None => GlobalPlayerData::new(),
        };
        let ghost before = *self;
        self.global.insert(user, r);
        proof {
            assert forall|u: UserId, g: GroupUuid| #![trigger self.names_party(u, g)] #![trigger self.lists_member(u, g)] self.names_party(u, g) <==> self.lists_member(u, g) by {
                assert(before.names_party(u, g) <==> before.lists_member(u, g));
                if u == user && !before.global@.contains_key(user) {
                    assert(!before.names_party(u, g));
                }
            }
        }
        r
    }

    /// Replaces the queue state and the queue entry time of a known player; the party stays.
    pub fn set_queue_status(&mut self, user: UserId, state: QueueState, enter_time: Option<Timestamp>)
        requires
            old(self).wf(),
            old(self).global@.contains_key(user),
        ensures
            final(self).wf(),
            final(self).global@ == old(self).global@.insert(user, GlobalPlayerData {
                queue_enter_time: enter_time,
                party: old(self).global@[user].party,
                queue_state: state,
            }),
            final(self).groups == old(self).groups,
    {
        let old_data = *self.global.get(&user).unwrap();
        let ghost before = *self;
        self.global.insert(user, GlobalPlayerData { queue_enter_time: enter_time, party: old_data.party, queue_state: state });
        proof {
            assert forall|u: UserId, g: GroupUuid| #![trigger self.names_party(u, g)] #![trigger self.lists_member(u, g)] self.names_party(u, g) <==> self.lists_member(u, g) by {
                assert(before.names_party(u, g) <==> before.lists_member(u, g));
            }
        }
    }

    /// Removes `user` from the party `party`, and the party itself once it is empty;
    /// returns the members that remain.
    pub fn leave_party(&mut self, user: UserId, party: GroupUuid) -> (remaining: Vec<UserId>)
        requires
            old(self).groups@.contains_key(party),
        ensures
            final(self).global == old(self).global,
            remaining@.no_duplicates(),
            remaining@.to_set() == old(self).groups@[party].players@.remove(user),
            after_leaving(old(self).groups@, final(self).groups@, user, party),
    {
        let mut group = self.groups.remove(&party).unwrap();
        group.players.remove(&user);
        let remaining = members_of(&group.players);
        if remaining.len() == 0 {
            assert(group.players@ =~= Set::empty()) by {
                if exists|x: UserId| group.players@.contains(x) {
                    let x = choose|x: UserId| group.players@.contains(x);
                    assert(remaining@.to_set().contains(x));
                }
            }
        } else {
            assert(remaining@.to_set().contains(remaining@[0]));
            self.groups.insert(party, group);
        }
        remaining
    }

    /// Invites `invitee` into the party of `author`, founding a party with a fresh random id
    /// when `author` has none. Refused while `author` is queued or in a game.
    pub fn party_invite(&mut self, author: UserId, invitee: UserId) -> (r: Result<Invitation, InviteError>)
        requires
            old(self).wf(),
        ensures
            final(self).wf() || (r matches Ok(inv) && old(self).party_id_taken(author, inv.party)),
            r is Err ==> final(self).global@ == old(self).global@.insert(author, old(self).record(author))
                && final(self).groups == old(self).groups,
            old(self).record(author).queue_state == QueueState::Queued ==> r == Err::<Invitation, InviteError>(InviteError::Queued),
            old(self).record(author).queue_state == QueueState::InGame ==> r == Err::<Invitation, InviteError>(InviteError::InGame),
            old(self).record(author).queue_state == QueueState::Idle ==> (r matches Ok(inv)
                && invited(*old(self), *final(self), author, invitee, inv.party, inv.members@)),
    {
        let fresh = new_uuid();
        self.party_invite_with_id(author, invitee, fresh)
    }

    /// Invites `invitee` into the party of `author`; when `author` has no party, the
    /// author's record takes the id `fresh`, and a party with that id is founded unless one
    /// exists already.
    pub fn party_invite_with_id(&mut self, author: UserId, invitee: UserId, fresh: GroupUuid) -> (r: Result<Invitation, InviteError>)
        requires
            old(self).wf(),
        ensures
            !old(self).party_id_taken(author, fresh) || r is Err ==> final(self).wf(),
            r is Err ==> final(self).global@ == old(self).global@.insert(author, old(self).record(author))
                && final(self).groups == old(self).groups,
            old(self).record(author).queue_state == QueueState::Queued ==> r == Err::<Invitation, InviteError>(InviteError::Queued),
            old(self).record(author).queue_state == QueueState::InGame ==> r == Err::<Invitation, InviteError>(InviteError::InGame),
            old(self).record(author).queue_state == QueueState::Idle ==> (r matches Ok(inv)
                && inv.party == (match old(self).record(author).party { Some(p) => p, None => fresh })
                && invited(*old(self), *final(self), author, invitee, inv.party, inv.members@)),
    {
        let ghost start = *self;
        let data = self.entry(author);
        match data.queue_state {
            QueueState::Queued => { return Err(InviteError::Queued); },
            QueueState::InGame => { return Err(InviteError::InGame); },
            QueueState::Idle => {},
        }
        let party = match data.party {
            Some(p) => {
                proof {
                    assert(self.names_party(author, p));
                }
                p
            },
            None => {
                let ghost before = *self;
                self.global.insert(author, GlobalPlayerData {
                    queue_enter_time: data.queue_enter_time,
                    party: Some(fresh),
                    queue_state: data.queue_state,
                });
                if !self.groups.contains_key(&fresh) {
                    let mut players: HashSet<UserId> = HashSet::new();
                    players.insert(author);
                    let group = QueueGroup { players, pending_invites: HashSet::new() };
                    self.groups.insert(fresh, group);
                    proof {
                        assert forall|u: UserId, g: GroupUuid| #![trigger self.names_party(u, g)] #![trigger self.lists_member(u, g)] self.names_party(u, g) <==> self.lists_member(u, g) by {
                            assert(before.names_party(u, g) <==> before.lists_member(u, g));
                            if g == fresh {
                                assert(!before.lists_member(u, g));
                            }
                            if u == author {
                                assert(!before.names_party(u, g));
                            }
                        }
                        assert(self.groups@[fresh].players@.contains(author));
                    }
                }
                fresh
            },
        };
        let ghost before = *self;
        let mut group = self.groups.remove(&party).unwrap();
        group.pending_invites.insert(invitee);
        let members = members_of(&group.players);
        self.groups.insert(party, group);
        proof {
            if before.wf() {
                assert forall|u: UserId, g: GroupUuid| #![trigger self.names_party(u, g)] #![trigger self.lists_member(u, g)] self.names_party(u, g) <==> self.lists_member(u, g) by {
                    assert(before.names_party(u, g) <==> before.lists_member(u, g));
                }
            }
            assert(self.global@ =~= start.global@.insert(author, GlobalPlayerData { party: Some(party), ..start.record(author) }));
            assert(self.groups@ =~= start.groups@.insert(party, self.groups@[party]));
            if data.party is Some {
                assert(start.names_party(author, party));
            }
            assert(invited(start, *self, author, invitee, party, members@));
        }
        Ok(Invitation { party, members })
    }

    /// `user` accepts an invitation to `party`: leaves the invitation list, joins the party,
    /// and leaves the party the player was in before. Nothing changes when the party is gone.
    pub fn join_party(&mut self, user: UserId, party: GroupUuid) -> (r: JoinOutcome)
        requires
            old(self).wf(),
        ensures
            final(self).wf(),
            !old(self).groups@.contains_key(party) ==> r is NoSuchParty && final(self).global == old(self).global
                && final(self).groups == old(self).groups,
            old(self).groups@.contains_key(party) ==> match r {
                JoinOutcome::Joined { members, left } => joined(*old(self), *final(self), user, party, members@,
                    match left { Some((o, rest)) => Some((o, rest@)), None => None }),
                JoinOutcome::NoSuchParty => false,
            },
    {
        if !self.groups.contains_key(&party) {
            return JoinOutcome::NoSuchParty;
        }
        let ghost start = *self;
        let data = self.entry(user);
        let mut group = self.groups.remove(&party).unwrap();
        group.pending_invites.remove(&user);
        group.players.insert(user);
        let members = members_of(&group.players);
        self.groups.insert(party, group);
        self.global.insert(user, GlobalPlayerData {
            queue_enter_time: data.queue_enter_time,
            party: Some(party),
            queue_state: data.queue_state,
        });
        let ghost mid = *self;
        let left = match data.party {
            Some(o) => {
                if o != party {
                    proof {
                        assert(start.names_party(user, o));
                        assert(start.lists_member(user, o));
                    }
                    let rest = self.leave_party(user, o);
                    Some((o, rest))
                } else {
                    None
                }
            },
            None => None,
        };
        proof {
            assert forall|g: GroupUuid| #[trigger] self.groups@.contains_key(g) implies !self.groups@[g].players@.is_empty() by {
                if g == party {
                    assert(self.groups@[g].players@.contains(user));
                } else {
                    assert(start.groups@.contains_key(g));
                }
            }
            assert forall|u: UserId, g: GroupUuid| #![trigger self.names_party(u, g)] #![trigger self.lists_member(u, g)] self.names_party(u, g) <==> self.lists_member(u, g) by {
                assert(start.names_party(u, g) <==> start.lists_member(u, g));
                if u == user {
                    if data.party == Some(g) && g != party {
                        assert(!self.lists_member(u, g));
                    }
                }
            }
            let joined = start.groups@.insert(party, self.groups@[party]);
            if left is Some {
                assert(self.groups@.contains_key(party));
                assert(self.groups@[party] == mid.groups@[party]);
                assert(mid.groups@ =~= joined);
            } else {
                assert(self.groups@ =~= joined);
            }
            assert(self.global@ =~= start.global@.insert(user, GlobalPlayerData { party: Some(party), ..start.record(user) }));
        }
        JoinOutcome::Joined { members, left }
    }

    /// `user` declines an invitation to `party`: the invitation is dropped. Returns the
    /// party's members, or `None` when the party is gone.
    pub fn reject_invite(&mut self, user: UserId, party: GroupUuid) -> (r: Option<Vec<UserId>>)
        requires
            old(self).wf(),
        ensures
            final(self).wf(),
            final(self).global == old(self).global,
            !old(self).groups@.contains_key(party) ==> r is None && final(self).groups == old(self).groups,
            old(self).groups@.contains_key(party) ==> {
                &&& r matches Some(m) && m@.to_set() == old(self).groups@[party].players@
                &&& final(self).groups@ == old(self).groups@.insert(party, final(self).groups@[party])
                &&& final(self).groups@[party].players@ == old(self).groups@[party].players@
                &&& final(self).groups@[party].pending_invites@ == old(self).groups@[party].pending_invites@.remove(user)
            },
    {
        if !self.groups.contains_key(&party) {
            return None;
        }
        let ghost start = *self;
        let mut group = self.groups.remove(&party).unwrap();
        group.pending_invites.remove(&user);
        let members = members_of(&group.players);
        self.groups.insert(party, group);
        proof {
            assert forall|g: GroupUuid| #[trigger] self.groups@.contains_key(g) implies !self.groups@[g].players@.is_empty() by {
                assert(start.groups@.contains_key(g));
            }
            assert forall|u: UserId, g: GroupUuid| #![trigger self.names_party(u, g)] #![trigger self.lists_member(u, g)] self.names_party(u, g) <==> self.lists_member(u, g) by {
                assert(start.names_party(u, g) <==> start.lists_member(u, g));
            }
        }
        Some(members)
    }

    /// `user` leaves their party. Returns the party left and the members that remain in it,
    /// or `None` when the player was in no party.
    pub fn party_leave(&mut self, user: UserId) -> (r: Option<(GroupUuid, Vec<UserId>)>)
        requires
            old(self).wf(),
        ensures
            final(self).wf(),
            final(self).record(user).party is None,
            final(self).global@ == old(self).global@.insert(user, GlobalPlayerData { party: None, ..old(self).record(user) }),
            match r {
                Some((p, rest)) => old(self).record(user).party == Some(p)
                    && rest@.to_set() == old(self).groups@[p].players@.remove(user)
                    && after_leaving(old(self).groups@, final(self).groups@, user, p),
                None => old(self).record(user).party is None && final(self).groups == old(self).groups,
            },
    {
        let data = self.entry(user);
        let ghost start = *self;
        self.global.insert(user, GlobalPlayerData {
            queue_enter_time: data.queue_enter_time,
            party: None,
            queue_state: data.queue_state,
        });
        match data.party {
            Some(p) => {
                proof {
                    assert(start.names_party(user, p));
                    assert(start.lists_member(user, p));
                }
                let rest = self.leave_party(user, p);
                proof {
                    assert forall|g: GroupUuid| #[trigger] self.groups@.contains_key(g) implies !self.groups@[g].players@.is_empty() by {
                        assert(start.groups@.contains_key(g));
                    }
                    assert forall|u: UserId, g: GroupUuid| #![trigger self.names_party(u, g)] #![trigger self.lists_member(u, g)] self.names_party(u, g) <==> self.lists_member(u, g) by {
                        assert(start.names_party(u, g) <==> start.lists_member(u, g));
                    }
                }
                Some((p, rest))
            },
            None => {
                proof {
                    assert forall|u: UserId, g: GroupUuid| #![trigger self.names_party(u, g)] #![trigger self.lists_member(u, g)] self.names_party(u, g) <==> self.lists_member(u, g) by {
                        assert(start.names_party(u, g) <==> start.lists_member(u, g));
                    }
                }
                None
            },
        }
    }

    /// The members and the pending invitations of `user`'s party, or `None` when the
    /// player is in no party.
    pub fn party_list(&mut self, user: UserId) -> (r: Option<(Vec<UserId>, Vec<UserId>)>)
        requires
            old(self).wf(),
        ensures
            final(self).wf(),
            final(self).groups == old(self).groups,
            final(self).global@ == old(self).global@.insert(user, old(self).record(user)),
            match old(self).record(user).party {
                Some(p) => r matches Some((m, pending)) && m@.to_set() == old(self).groups@[p].players@
                    && pending@.to_set() == old(self).groups@[p].pending_invites@,
                None => r is None,
            },
    {
        let data = self.entry(user);
        match data.party {
            Some(p) => {
                proof {
                    assert(self.names_party(user, p));
                }
                let group = self.groups.get(&p).unwrap();
                Some((members_of(&group.players), members_of(&group.pending_invites)))
            },
            None => None,
        }
    }

    /// The members of a party, or `None` when the party does not exist.
    pub fn party_members(&self, party: GroupUuid) -> (r: Option<Vec<UserId>>)
        ensures
            match r {
                Some(m) => self.groups@.contains_key(party) && m@.to_set() == self.groups@[party].players@
                    && m@.no_duplicates(),
                None => !self.groups@.contains_key(party),
            },
    {
        match self.groups.get(&party) {
            Some(group) => Some(members_of(&group.players)),
            None => None,
        }
    }
}

/// A party's membership agrees with the players' records: a player that names no party,
/// or another party, is listed by no party but that one.
pub proof fn lemma_party_membership_agrees(p: Players, user: UserId, g: GroupUuid)
    requires
        p.wf(),
    ensures
        p.lists_member(user, g) <==> p.record(user).party == Some(g),
{
    assert(p.names_party(user, g) <==> p.lists_member(user, g));
}

/// A player belongs to at most one party: two parties that both list a player are the same.
pub proof fn lemma_one_party_per_player(p: Players, user: UserId, g1: GroupUuid, g2: GroupUuid)
    requires
        p.wf(),
        p.lists_member(user, g1),
        p.lists_member(user, g2),
    ensures
        g1 == g2,
{
    assert(p.names_party(user, g1));
    assert(p.names_party(user, g2));
}

/// The text that lists a party: `Party members: ...`, then `\nPending members: ...` when
/// there are pending invitations.
pub fn party_list_text(members: &Vec<UserId>, pending: &Vec<UserId>) -> (s: String)
    ensures
        s@ == "Party members: "@ + joined_mentions(MentionKind::User, members@, ", "@)
            + if pending@.len() > 0 { "\nPending members: "@ + joined_mentions(MentionKind::User, pending@, ", "@) } else { Seq::empty() },
{
    let mut s = String::from_str("Party members: ");
    push_mentions(&mut s, MentionKind::User, members, ", ");
    if pending.len() > 0 {
        s.append("\nPending members: ");
        push_mentions(&mut s, MentionKind::User, pending, ", ");
    }
    s
}

/// The direct message to an invited player: who invites, and the party's members.
pub fn invite_message(author: UserId, members: &Vec<UserId>) -> (s: String)
    ensures
        s@ == user_mention(author) + " invited you to their group.\nCurrent members: "@
            + joined_mentions(MentionKind::User, members@, ", "@),
{
    let mut s = String::new();
    push_user_mention(&mut s, author);
    s.append(" invited you to their group.\nCurrent members: ");
    push_mentions(&mut s, MentionKind::User, members, ", ");
    s
}

/// A mention of `user` followed by a fixed text.
pub fn mention_then(user: UserId, rest: &str) -> (s: String)
    ensures
        s@ == user_mention(user) + rest@,
{
    let mut s = String::new();
    push_user_mention(&mut s, user);
    s.append(rest);
    s
}

/// A player who accepts an invitation ends up in the inviter's party, beside the inviter,
/// and is no longer among the party's pending invitations.
pub proof fn lemma_invite_then_join(
    p0: Players,
    p1: Players,
    p2: Players,
    author: UserId,
    invitee: UserId,
    party: GroupUuid,
    invited_members: Seq<UserId>,
    joined_members: Seq<UserId>,
    left: Option<(GroupUuid, Seq<UserId>)>,
)
    requires
        p0.wf(),
        !p0.party_id_taken(author, party),
        invited(p0, p1, author, invitee, party, invited_members),
        joined(p1, p2, invitee, party, joined_members, left),
    ensures
        p2.record(author).party == Some(party),
        p2.record(invitee).party == Some(party),
        p2.lists_member(author, party),
        p2.lists_member(invitee, party),
        !p2.groups@[party].pending_invites@.contains(invitee),
{
    match p0.record(author).party {
        Some(p) => {
            assert(p0.names_party(author, p));
            assert(p0.lists_member(author, p));
        },
        None => {},
    }
    assert(p1.groups@[party].players@.contains(author));
    assert(p2.groups@[party].players@.contains(author));
}

} // verus!
