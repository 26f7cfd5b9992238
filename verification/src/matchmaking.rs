//! Forming a match: who may be matched and the greedy choice of teams.
//!
//! Teams are filled one addition at a time: a player alone, or a player's whole party
//! when every member waits in the pool. Which addition is best depends on a cost that is
//! not computed here; [`GreedyState`] offers every addition allowed and applies the one
//! chosen, and keeps the players placed distinct and out of the pool.
use std::collections::HashSet;
use vstd::prelude::*;
use crate::bans::{BanData, BanList};
use crate::ids::UserId;
use crate::keys::members_of;
use crate::players::{GlobalPlayerData, Players};

verus! {

broadcast use {
    vstd::std_specs::hash::group_hash_axioms,
    vstd::seq_lib::group_seq_properties,
    vstd::set_lib::group_set_properties,
    vstd::multiset::group_multiset_axioms,
};

/// Whether a queue holds enough players for a match (the count taken as a `u32`).
pub open spec fn spec_enough_players(queued: usize, team_count: u32, team_size: u32) -> bool {
    !((queued as u32) < team_count * team_size)
}

/// Whether a queue holds enough players for a match.
pub fn enough_players(queued: usize, team_count: u32, team_size: u32) -> (r: bool)
    requires
        team_count * team_size <= u32::MAX,
    ensures
        r == spec_enough_players(queued, team_count, team_size),
        queued <= u32::MAX ==> (r <==> queued >= team_count * team_size),
{
    !((queued as u32) < team_count * team_size)
}

/// A queue has enough players exactly when it holds at least as many as the teams of a
/// match take together; so a queue with more players than that has enough too.
pub proof fn lemma_enough_players_at_least(queued: usize, more: usize, team_count: u32, team_size: u32)
    requires
        team_count * team_size <= u32::MAX,
        queued <= more <= u32::MAX,
    ensures
        spec_enough_players(queued, team_count, team_size) <==> queued >= team_count * team_size,
        spec_enough_players(queued, team_count, team_size) ==> spec_enough_players(more, team_count, team_size),
{
}

/// The players of a queue who may be matched: those without a ban, shadow bans included.
pub fn eligible_pool(queued: &HashSet<UserId>, bans: &BanList) -> (pool: HashSet<UserId>)
    ensures
        pool@ == queued@.filter(|u: UserId| !bans@.contains_key(u)),
{
    let members = members_of(queued);
    let mut pool: HashSet<UserId> = HashSet::new();
    let n = members.len();
    let mut i: usize = 0;
    while i < n
        invariant
            n == members@.len(),
            i <= n,
            members@.to_set() == queued@,
            pool@ == members@.take(i as int).to_set().filter(|u: UserId| !bans@.contains_key(u)),
        decreases n - i,
    {
        let u = members[i];
        if !bans.is_banned(u) {
            pool.insert(u);
        }
        assert(members@.take(i + 1) =~= members@.take(i as int).push(u));
        assert(pool@ =~= members@.take(i + 1).to_set().filter(|u: UserId| !bans@.contains_key(u)));
        i = i + 1;
    }
    assert(members@.take(n as int) =~= members@);
    assert(pool@ =~= queued@.filter(|u: UserId| !bans@.contains_key(u)));
    pool
}

/// The players that come with `p` when `p` is added to a team: `p` alone without a party,
/// the whole party when every member is in the pool, and nothing (`None`) otherwise.
pub open spec fn addition_for(players: Players, pool: Set<UserId>, p: UserId) -> Option<Set<UserId>> {
    match players.record(p).party {
        Some(g) => if players.groups@[g].players@.subset_of(pool) { Some(players.groups@[g].players@) } else { None },
        None => Some(set![p]),
    }
}

/// Whether `m` is a member of the party of `u`.
pub open spec fn same_party(players: Players, u: UserId, m: UserId) -> bool {
    match players.record(u).party {
        Some(g) => players.groups@[g].players@.contains(m),
        None => false,
    }
}

/// One possible addition: the players added and the team that takes them.
pub struct Candidate {
    pub team: usize,
    pub added: Vec<UserId>,
}

/// The members of teams, as sequences.
pub open spec fn teams_view(teams: Seq<Vec<UserId>>) -> Seq<Seq<UserId>> {
    teams.map_values(|v: Vec<UserId>| v@)
}

/// The number of players in teams.
pub open spec fn placed_count(teams: Seq<Seq<UserId>>) -> int
    decreases teams.len(),
{
    if teams.len() == 0 {
        0
    } else {
        placed_count(teams.drop_last()) + teams.last().len()
    }
}

proof fn lemma_placed_count_update(teams: Seq<Seq<UserId>>, t: int, v: Seq<UserId>)
    requires
        0 <= t < teams.len(),
    ensures
        placed_count(teams.update(t, v)) == placed_count(teams) - teams[t].len() + v.len(),
    decreases teams.len(),
{
    if t == teams.len() - 1 {
        assert(teams.update(t, v).drop_last() =~= teams.drop_last());
    } else {
        assert(teams.update(t, v).drop_last() =~= teams.drop_last().update(t, v));
        lemma_placed_count_update(teams.drop_last(), t, v);
    }
}

proof fn lemma_placed_count_empty(teams: Seq<Seq<UserId>>)
    requires
        forall|t: int| 0 <= t < teams.len() ==> (#[trigger] teams[t]).len() == 0,
    ensures
        placed_count(teams) == 0,
    decreases teams.len(),
{
    if teams.len() > 0 {
        lemma_placed_count_empty(teams.drop_last());
    }
}

/// The greedy search for teams: the teams so far, the players left to place, and how many
/// players are placed.
pub struct GreedyState {
    pub teams: Vec<Vec<UserId>>,
    pub pool: HashSet<UserId>,
    pub placed: u32,
    pub team_size: u32,
    pub total: u32,
    /// The pool the search started from.
    pub start_pool: Ghost<Set<UserId>>,
}

impl GreedyState {
    /// No player appears twice in the teams, no placed player is still in the pool, every
    /// placed or waiting player comes from the starting pool, and `placed` counts the
    /// players in the teams.
    pub open spec fn wf(self) -> bool {
        &&& forall|t1: int, i1: int, t2: int, i2: int|
            0 <= t1 < self.teams@.len() && 0 <= i1 < self.teams@[t1]@.len()
            && 0 <= t2 < self.teams@.len() && 0 <= i2 < self.teams@[t2]@.len()
            && (t1 != t2 || i1 != i2)
            ==> #[trigger] self.teams@[t1]@[i1] != #[trigger] self.teams@[t2]@[i2]
        &&& forall|t: int, i: int| 0 <= t < self.teams@.len() && 0 <= i < self.teams@[t]@.len()
            ==> !self.pool@.contains(#[trigger] self.teams@[t]@[i]) && self.start_pool@.contains(self.teams@[t]@[i])
        &&& self.pool@.subset_of(self.start_pool@)
        &&& self.placed == placed_count(teams_view(self.teams@))
        &&& self.teams@.len() * self.team_size == self.total
    }

    /// No team holds more than `team_size` players.
    pub open spec fn fits(self) -> bool {
        forall|t: int| 0 <= t < self.teams@.len() ==> (#[trigger] self.teams@[t])@.len() <= self.team_size
    }

    /// Every party with a player in a team is there whole: the other members of a placed
    /// player's party play in the same team.
    pub open spec fn parties_together(self, players: Players) -> bool {
        forall|t: int, i: int, m: UserId| 0 <= t < self.teams@.len() && 0 <= i < self.teams@[t]@.len()
            && #[trigger] same_party(players, self.teams@[t]@[i], m)
            ==> self.teams@[t]@.contains(m)
    }

    /// Whether `c` is an addition allowed now: the team has room, and the players added
    /// are those that come with some player of the pool, each once.
    pub open spec fn is_candidate(self, players: Players, c: Candidate) -> bool {
        &&& c.team < self.teams@.len()
        &&& self.teams@[c.team as int]@.len() < self.team_size
        &&& c.added@.no_duplicates()
        &&& exists|p: UserId| #[trigger] self.pool@.contains(p) && addition_for(players, self.pool@, p) == Some(c.added@.to_set())
    }

    /// The search at its start: `team_count` empty teams and the whole pool.
    pub fn new(pool: HashSet<UserId>, team_count: u32, team_size: u32) -> (r: GreedyState)
        requires
            team_count * team_size <= u32::MAX,
        ensures
            r.wf(),
            r.fits(),
            forall|players: Players| #[trigger] r.parties_together(players),
            r.teams@.len() == team_count,
            forall|t: int| 0 <= t < team_count ==> (#[trigger] r.teams@[t])@.len() == 0,
            r.pool@ == pool@,
            r.start_pool@ == pool@,
            r.placed == 0,
            r.team_size == team_size,
            r.total == team_count * team_size,
    {
        let mut teams: Vec<Vec<UserId>> = Vec::new();
        let mut t: u32 = 0;
        while t < team_count
            invariant
                t <= team_count,
                teams@.len() == t,
                forall|k: int| 0 <= k < t ==> (#[trigger] teams@[k])@.len() == 0,
            decreases team_count - t,
        {
            teams.push(Vec::new());
            t = t + 1;
        }
        proof {
            lemma_placed_count_empty(teams_view(teams@));
        }
        let ghost start = pool@;
        let r = GreedyState { teams, pool, placed: 0, team_size, total: team_count * team_size, start_pool: Ghost(start) };
        assert forall|players: Players| #[trigger] r.parties_together(players) by {}
        r
    }

    /// Whether enough players are placed.
    pub fn is_done(&self) -> (r: bool)
        ensures
            r == (self.placed >= self.total),
    {
        self.placed >= self.total
    }

    /// Every addition allowed now, in the order of the pool: for each player of the pool
    /// whose addition is allowed, one candidate per team with room.
    pub fn candidates(&self, players: &Players) -> (r: Vec<Candidate>)
        requires
            players.wf(),
            self.wf(),
            forall|u: UserId| #[trigger] self.pool@.contains(u) ==> players.global@.contains_key(u),
        ensures
            forall|k: int| 0 <= k < r@.len() ==> self.is_candidate(*players, #[trigger] r@[k]),
            forall|p: UserId, t: int| #[trigger] self.pool@.contains(p) && 0 <= t < self.teams@.len()
                && (#[trigger] self.teams@[t])@.len() < self.team_size && addition_for(*players, self.pool@, p) is Some
                ==> exists|k: int| 0 <= k < r@.len() && (#[trigger] r@[k]).team == t
                    && r@[k].added@.to_set() == addition_for(*players, self.pool@, p)->0,
    {
        let order = members_of(&self.pool);
        let mut r: Vec<Candidate> = Vec::new();
        let n = order.len();
        let mut i: usize = 0;
        while i < n
            invariant
                n == order@.len(),
                i <= n,
                order@.to_set() == self.pool@,
                players.wf(),
                self.wf(),
                forall|u: UserId| #[trigger] self.pool@.contains(u) ==> players.global@.contains_key(u),
                forall|k: int| 0 <= k < r@.len() ==> self.is_candidate(*players, #[trigger] r@[k]),
                forall|j: int, t: int| 0 <= j < i && 0 <= t < self.teams@.len()
                    && (#[trigger] self.teams@[t])@.len() < self.team_size
                    && addition_for(*players, self.pool@, #[trigger] order@[j]) is Some
                    ==> exists|k: int| 0 <= k < r@.len() && (#[trigger] r@[k]).team == t
                        && r@[k].added@.to_set() == addition_for(*players, self.pool@, order@[j])->0,
            decreases n - i,
        {
            let p = order[i];
            proof {
                assert(order@.to_set().contains(p));
            }
            let data: GlobalPlayerData = *players.global.get(&p).unwrap();
            let added: Option<Vec<UserId>> = match data.party {
                Some(g) => {
                    proof {
                        assert(players.names_party(p, g));
                    }
                    let members = players.party_members(g).unwrap();
                    let mut all_in = true;
                    let mut k: usize = 0;
                    while k < members.len()
                        invariant
                            k <= members@.len(),
                            all_in == forall|j: int| 0 <= j < k ==> self.pool@.contains(#[trigger] members@[j]),
                        decreases members@.len() - k,
                    {
                        if !self.pool.contains(&members[k]) {
                            all_in = false;
                        }
                        k = k + 1;
                    }
                    proof {
                        if all_in {
                            assert forall|x: UserId| #[trigger] members@.to_set().contains(x) implies self.pool@.contains(x) by {
                                let j = choose|j: int| 0 <= j < members@.len() && members@[j] == x;
                            }
                        } else {
                            let j = choose|j: int| 0 <= j < members@.len() && !self.pool@.contains(#[trigger] members@[j]);
                            assert(members@.to_set().contains(members@[j]));
                        }
                    }
                    if all_in { Some(members) } else { None }
                },
                None => {
                    let mut v: Vec<UserId> = Vec::new();
                    v.push(p);
                    proof {
                        assert(v@.to_set() =~= set![p]);
                    }
                    Some(v)
                },
            };
            proof {
                assert(data == players.record(p));
                match &added {
                    Some(v) => {
                        assert(addition_for(*players, self.pool@, p) == Some(v@.to_set()));
                        assert(v@.no_duplicates());
                    },
                    None => {
                        assert(addition_for(*players, self.pool@, p) is None);
                    },
                }
            }
            match added {
                Some(v) => {
                    let ghost r0 = r@;
                    let tc = self.teams.len();
                    let mut t: usize = 0;
                    while t < tc
                        invariant
                            tc == self.teams@.len(),
                            t <= tc,
                            self.pool@.contains(p),
                            v@.no_duplicates(),
                            addition_for(*players, self.pool@, p) == Some(v@.to_set()),
                            r@.len() >= r0.len(),
                            forall|k: int| 0 <= k < r0.len() ==> r@[k] == r0[k],
                            forall|k: int| 0 <= k < r@.len() ==> self.is_candidate(*players, #[trigger] r@[k]),
                            forall|t2: int| 0 <= t2 < t && (#[trigger] self.teams@[t2])@.len() < self.team_size
                                ==> exists|k: int| 0 <= k < r@.len() && (#[trigger] r@[k]).team == t2
                                    && r@[k].added@.to_set() == v@.to_set(),
                        decreases tc - t,
                    {
                        let ghost r_before = r@;
                        if (self.teams[t].len() as u64) < (self.team_size as u64) {
                            let c = Candidate { team: t, added: v.clone() };
                            proof {
                                assert(c.added@ == v@);
                                assert(self.is_candidate(*players, c));
                            }
                            r.push(c);
                            proof {
                                assert(r@[r@.len() - 1].team == t);
                            }
                        }
                        proof {
                            assert forall|t2: int| 0 <= t2 < t + 1 && (#[trigger] self.teams@[t2])@.len() < self.team_size
                                implies exists|k: int| 0 <= k < r@.len() && (#[trigger] r@[k]).team == t2
                                    && r@[k].added@.to_set() == v@.to_set() by {
                                if t2 < t {
                                    let k = choose|k: int| 0 <= k < r_before.len() && (#[trigger] r_before[k]).team == t2
                                        && r_before[k].added@.to_set() == v@.to_set();
                                    assert(r@[k] == r_before[k]);
                                } else {
                                    assert(r@[r@.len() - 1].team == t2);
                                }
                            }
                        }
                        t = t + 1;
                    }
                    proof {
                        assert forall|j: int, t2: int| 0 <= j < i && 0 <= t2 < self.teams@.len()
                            && (#[trigger] self.teams@[t2])@.len() < self.team_size
                            && addition_for(*players, self.pool@, #[trigger] order@[j]) is Some
                            implies exists|k: int| 0 <= k < r@.len() && (#[trigger] r@[k]).team == t2
                                && r@[k].added@.to_set() == addition_for(*players, self.pool@, order@[j])->0 by {
                            let k = choose|k: int| 0 <= k < r0.len() && (#[trigger] r0[k]).team == t2
                                && r0[k].added@.to_set() == addition_for(*players, self.pool@, order@[j])->0;
                            assert(r@[k] == r0[k]);
                        }
                    }
                },
                None => {},
            }
            i = i + 1;
        }
        proof {
            assert forall|p: UserId, t: int| #[trigger] self.pool@.contains(p) && 0 <= t < self.teams@.len()
                && (#[trigger] self.teams@[t])@.len() < self.team_size && addition_for(*players, self.pool@, p) is Some
                implies exists|k: int| 0 <= k < r@.len() && (#[trigger] r@[k]).team == t
                    && r@[k].added@.to_set() == addition_for(*players, self.pool@, p)->0 by {
                assert(order@.to_set().contains(p));
                let j = choose|j: int| 0 <= j < n && order@[j] == p;
                assert(addition_for(*players, self.pool@, order@[j]) is Some);
            }
        }
        r
    }

    /// The teams as they would be after the addition `c`.
    pub fn teams_with(&self, c: &Candidate) -> (r: Vec<Vec<UserId>>)
        requires
            c.team < self.teams@.len(),
        ensures
            r@.len() == self.teams@.len(),
            forall|t: int| 0 <= t < r@.len() && t != c.team ==> (#[trigger] r@[t])@ == self.teams@[t]@,
            r@[c.team as int]@ == self.teams@[c.team as int]@ + c.added@,
    {
        let mut r: Vec<Vec<UserId>> = Vec::new();
        let n = self.teams.len();
        let mut t: usize = 0;
        while t < n
            invariant
                n == self.teams@.len(),
                c.team < n,
                t <= n,
                r@.len() == t,
                forall|k: int| 0 <= k < t && k != c.team ==> (#[trigger] r@[k])@ == self.teams@[k]@,
                c.team < t ==> r@[c.team as int]@ == self.teams@[c.team as int]@ + c.added@,
            decreases n - t,
        {
            let mut team = self.teams[t].clone();
            if t == c.team {
                let mut k: usize = 0;
                let ghost base = team@;
                while k < c.added.len()
                    invariant
                        k <= c.added@.len(),
                        team@ == base + c.added@.take(k as int),
                    decreases c.added@.len() - k,
                {
                    team.push(c.added[k]);
                    assert(c.added@.take(k + 1) =~= c.added@.take(k as int).push(c.added@[k as int]));
                    k = k + 1;
                }
                assert(c.added@.take(k as int) =~= c.added@);
            }
            r.push(team);
            t = t + 1;
        }
        r
    }

    /// Applies the addition `c`: its players join the team and leave the pool.
    pub fn apply(&mut self, players: &Players, c: Candidate)
        requires
            old(self).wf(),
            old(self).is_candidate(*players, c),
            old(self).placed + c.added@.len() <= u32::MAX,
        ensures
            final(self).wf(),
            players.wf() && old(self).parties_together(*players) ==> final(self).parties_together(*players),
            old(self).fits() && old(self).teams@[c.team as int]@.len() + c.added@.len() <= old(self).team_size
                ==> final(self).fits(),
            final(self).team_size == old(self).team_size,
            final(self).total == old(self).total,
            final(self).start_pool == old(self).start_pool,
            final(self).placed == old(self).placed + c.added@.len(),
            final(self).pool@ == old(self).pool@.difference(c.added@.to_set()),
            final(self).teams@.len() == old(self).teams@.len(),
            forall|t: int| 0 <= t < final(self).teams@.len() && t != c.team ==> (#[trigger] final(self).teams@[t])@ == old(self).teams@[t]@,
            final(self).teams@[c.team as int]@ == old(self).teams@[c.team as int]@ + c.added@,
    {
        let ghost before = *self;
        proof {
            let p = choose|p: UserId| #[trigger] before.pool@.contains(p) && addition_for(*players, before.pool@, p) == Some(c.added@.to_set());
            assert(c.added@.to_set().subset_of(before.pool@));
        }
        let new_teams = self.teams_with(&c);
        let mut k: usize = 0;
        while k < c.added.len()
            invariant
                k <= c.added@.len(),
                self.pool@ == before.pool@.difference(c.added@.take(k as int).to_set()),
                self.placed == before.placed,
                self.teams == before.teams,
                self.start_pool == before.start_pool,
                self.team_size == before.team_size,
                self.total == before.total,
            decreases c.added@.len() - k,
        {
            self.pool.remove(&c.added[k]);
            assert(c.added@.take(k + 1) =~= c.added@.take(k as int).push(c.added@[k as int]));
            assert(self.pool@ =~= before.pool@.difference(c.added@.take(k + 1).to_set()));
            k = k + 1;
        }
        assert(c.added@.take(k as int) =~= c.added@);
        let count = c.added.len();
        assert(count as u32 == count);
        self.placed = self.placed + count as u32;
        self.teams = new_teams;
        proof {
            let added = c.added@;
            let ct = c.team as int;
            assert(teams_view(self.teams@) =~= teams_view(before.teams@).update(ct, self.teams@[ct]@));
            lemma_placed_count_update(teams_view(before.teams@), ct, self.teams@[ct]@);
            assert forall|t: int, i: int| 0 <= t < self.teams@.len() && 0 <= i < self.teams@[t]@.len()
                implies #[trigger] self.teams@[t]@[i] == (if t == ct && i >= before.teams@[ct]@.len() {
                    added[i - before.teams@[ct]@.len()] } else { before.teams@[t]@[i] }) by {}
            assert forall|t: int, i: int| 0 <= t < self.teams@.len() && 0 <= i < self.teams@[t]@.len()
                implies !self.pool@.contains(#[trigger] self.teams@[t]@[i]) && self.start_pool@.contains(self.teams@[t]@[i]) by {
                if t == ct && i >= before.teams@[ct]@.len() {
                    let x = added[i - before.teams@[ct]@.len()];
                    assert(added.to_set().contains(x));
                }
            }
            assert forall|t1: int, i1: int, t2: int, i2: int|
                0 <= t1 < self.teams@.len() && 0 <= i1 < self.teams@[t1]@.len()
                && 0 <= t2 < self.teams@.len() && 0 <= i2 < self.teams@[t2]@.len()
                && (t1 != t2 || i1 != i2)
                implies #[trigger] self.teams@[t1]@[i1] != #[trigger] self.teams@[t2]@[i2] by {
                let b = before.teams@[ct]@.len();
                let new1 = t1 == ct && i1 >= b;
                let new2 = t2 == ct && i2 >= b;
                if new1 && new2 {
                    assert(added[i1 - b] != added[i2 - b]);
                } else if new1 {
                    assert(added.to_set().contains(added[i1 - b]));
                    assert(before.pool@.contains(added[i1 - b]));
                    assert(!before.pool@.contains(before.teams@[t2]@[i2]));
                } else if new2 {
                    assert(added.to_set().contains(added[i2 - b]));
                    assert(before.pool@.contains(added[i2 - b]));
                    assert(!before.pool@.contains(before.teams@[t1]@[i1]));
                } else {
                    assert(before.teams@[t1]@[i1] != before.teams@[t2]@[i2]);
                }
            }
            if players.wf() && before.parties_together(*players) {
                let p = choose|p: UserId| #[trigger] before.pool@.contains(p) && addition_for(*players, before.pool@, p) == Some(c.added@.to_set());
                assert forall|t: int, i: int, m: UserId| 0 <= t < self.teams@.len() && 0 <= i < self.teams@[t]@.len()
                    && #[trigger] same_party(*players, self.teams@[t]@[i], m)
                    implies self.teams@[t]@.contains(m) by {
                    let b = before.teams@[ct]@.len();
                    if t == ct && i >= b {
                        let u = added[i - b];
                        assert(self.teams@[t]@[i] == u);
                        assert(added.to_set().contains(u));
                        match players.record(p).party {
                            Some(g0) => {
                                assert(players.names_party(p, g0));
                                assert(players.lists_member(p, g0));
                                assert(players.groups@[g0].players@.contains(u));
                                assert(players.lists_member(u, g0));
                                assert(players.names_party(u, g0));
                                assert(added.to_set().contains(m));
                                let k = choose|k: int| 0 <= k < added.len() && added[k] == m;
                                assert(self.teams@[t]@[b + k] == m);
                            },
                            None => {
                                assert(added.to_set() =~= set![p]);
                                assert(added.to_set().contains(u));
                                assert(u == p);
                            },
                        }
                    } else {
                        assert(before.teams@[t]@[i] == self.teams@[t]@[i]);
                        assert(same_party(*players, before.teams@[t]@[i], m));
                        assert(before.teams@[t]@.contains(m));
                        let k = choose|k: int| 0 <= k < before.teams@[t]@.len() && before.teams@[t]@[k] == m;
                        assert(self.teams@[t]@[k] == m);
                    }
                }
            }
        }
    }
}

/// No player with a ban, shadow bans included, is ever placed in a team: every placed
/// player comes from the queue and has no ban, when the search starts from the pool that
/// [`eligible_pool`] gives.
pub proof fn lemma_no_banned_player_placed(state: GreedyState, queued: Set<UserId>, bans: Map<UserId, BanData>)
    requires
        state.wf(),
        state.start_pool@ == queued.filter(|u: UserId| !bans.contains_key(u)),
    ensures
        forall|t: int, i: int| 0 <= t < state.teams@.len() && 0 <= i < state.teams@[t]@.len()
            ==> queued.contains(#[trigger] state.teams@[t]@[i]) && !bans.contains_key(state.teams@[t]@[i]),
{
    assert forall|t: int, i: int| 0 <= t < state.teams@.len() && 0 <= i < state.teams@[t]@.len()
        implies queued.contains(#[trigger] state.teams@[t]@[i]) && !bans.contains_key(state.teams@[t]@[i]) by {
        assert(state.start_pool@.contains(state.teams@[t]@[i]));
    }
}

proof fn lemma_placed_count_bound(teams: Seq<Seq<UserId>>, size: u32)
    requires
        forall|t: int| 0 <= t < teams.len() ==> (#[trigger] teams[t]).len() <= size,
    ensures
        placed_count(teams) <= teams.len() * size,
        (exists|t: int| 0 <= t < teams.len() && (#[trigger] teams[t]).len() < size) ==> placed_count(teams) < teams.len() * size,
    decreases teams.len(),
{
    if teams.len() > 0 {
        let prev = teams.drop_last();
        lemma_placed_count_bound(prev, size);
        assert(prev.len() * size + size == teams.len() * size) by (nonlinear_arith)
            requires
                prev.len() + 1 == teams.len();
        if exists|t: int| 0 <= t < teams.len() && (#[trigger] teams[t]).len() < size {
            let t = choose|t: int| 0 <= t < teams.len() && (#[trigger] teams[t]).len() < size;
            if t < teams.len() - 1 {
                assert(prev[t].len() < size);
            }
        }
    }
}

/// Without parties every addition is one player, and a team with room takes them without
/// growing past `team_size`.
pub proof fn lemma_single_additions_fit(state: GreedyState, players: Players, c: Candidate)
    requires
        state.is_candidate(players, c),
        forall|u: UserId| #[trigger] state.pool@.contains(u) ==> players.record(u).party is None,
    ensures
        c.added@.len() == 1,
        state.teams@[c.team as int]@.len() + c.added@.len() <= state.team_size,
{
    let p = choose|p: UserId| #[trigger] state.pool@.contains(p) && addition_for(players, state.pool@, p) == Some(c.added@.to_set());
    assert(c.added@.to_set() =~= set![p]);
    c.added@.unique_seq_to_set();
    assert(set![p].len() == 1);
}

/// A search that is done and never let a team grow past `team_size` ends with every
/// team holding exactly `team_size` players.
pub proof fn lemma_done_teams_full(state: GreedyState)
    requires
        state.wf(),
        state.fits(),
        state.placed >= state.total,
    ensures
        forall|t: int| 0 <= t < state.teams@.len() ==> (#[trigger] state.teams@[t])@.len() == state.team_size,
{
    let tv = teams_view(state.teams@);
    assert forall|t: int| 0 <= t < tv.len() implies (#[trigger] tv[t]).len() <= state.team_size by {
        assert(tv[t] == state.teams@[t]@);
    }
    lemma_placed_count_bound(tv, state.team_size);
    assert forall|t: int| 0 <= t < state.teams@.len() implies (#[trigger] state.teams@[t])@.len() == state.team_size by {
        assert(tv[t] == state.teams@[t]@);
    }
}

} // verus!
