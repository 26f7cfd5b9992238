//! A running match and what its buttons do: votes on the map and on the result, and the
//! offer to host.
use std::collections::HashMap;
use vstd::prelude::*;
use vstd::string::*;
use crate::buttons::{lemma_team_button_round_trip, match_button_spec, parse_u32, parse_unsigned, MatchButton};
use crate::commands::{flat_members, host_announcement, team_members, volunteer_host};
use crate::ids::{ChannelId, MatchUuid, QueueUuid, UserId};
use crate::keys::keys_of;
use crate::match_start::{in_teams, plays_in};
use crate::text::{decimal, user_mention};
use crate::votes::{
    is_last_maximum, is_tally, labelable, last_passing, map_vote_header, map_vote_lines, map_vote_update, names_view,
    result_vote_lines, result_vote_update, tally_maps, tally_results, tally_view, MapVoteUpdate, MatchResult,
    ResultVoteUpdate, timeout_map_choice,
};

verus! {

broadcast use {vstd::std_specs::hash::group_hash_axioms, vstd::seq_lib::group_seq_properties};

/// A match: its votes, channels, teams, host and times.
pub struct MatchData {
    pub result_votes: HashMap<UserId, MatchResult>,
    pub map_votes: HashMap<UserId, String>,
    pub channels: Vec<ChannelId>,
    pub members: Vec<Vec<UserId>>,
    pub host: Option<UserId>,
    pub map_vote_end_time: Option<u64>,
    pub match_end_time: Option<u64>,
    pub resolved: bool,
    pub name: String,
    pub queue: QueueUuid,
}

/// What pressing a button of a match channel does.
pub enum ButtonEffect {
    /// The player is not in the match; nothing changes.
    NotInMatch,
    /// The lobby has a host already; nothing changes.
    AlreadyHosted,
    /// The player hosts the lobby; the match message becomes `content`.
    HostTaken { content: String },
    /// The player's map vote is counted; the vote message becomes `update.content`.
    MapVote { tally: Vec<(String, usize)>, update: MapVoteUpdate },
    /// The player's result vote is counted; once a result has enough votes the match is
    /// decided (and marked so).
    ResultVote { tally: Vec<(MatchResult, usize)>, update: ResultVoteUpdate },
    /// The player's result vote is counted, but the match was decided before.
    AlreadyResolved,
    /// A team vote whose team number does not read as a number; nothing changes.
    InvalidTeam,
    /// Any other button; nothing changes.
    NoVote,
}

/// The result votes listed in the order `order` of the voters.
pub open spec fn listed_results(votes: Map<UserId, MatchResult>, order: Seq<UserId>) -> Seq<MatchResult> {
    order.map_values(|u: UserId| votes[u])
}

/// The map votes listed in the order `order` of the voters.
pub open spec fn listed_maps(votes: Map<UserId, String>, order: Seq<UserId>) -> Seq<Seq<char>> {
    order.map_values(|u: UserId| votes[u]@)
}

/// Whether `order` lists each key of a map once.
pub open spec fn lists_keys<V>(m: Map<UserId, V>, order: Seq<UserId>) -> bool {
    order.no_duplicates() && order.to_set() == m.dom()
}

/// The result of a team vote button whose payload reads as `n`: a win of team `n`; numbers
/// that cannot be shown counted from one are refused.
pub open spec fn team_vote(payload: Seq<char>) -> Option<MatchResult> {
    match parse_unsigned(payload, u32::MAX as nat) {
        Some(n) => if n < u32::MAX { Some(MatchResult::Team(n as u32)) } else { None },
        None => None,
    }
}

/// Every team button the bot creates is accepted as a vote for its team: the button of
/// team `t` (its id is `team_` and the number, as `team_button_id` writes it) is recognised as a team vote whose payload reads as a win of team `t`.
pub proof fn lemma_team_button_votes_for_team(t: u32)
    requires
        t < u32::MAX,
    ensures
        match_button_spec("team_"@ + decimal(t as nat)) == (Some(decimal(t as nat)), 2int),
        team_vote(decimal(t as nat)) == Some(MatchResult::Team(t)),
{
    lemma_team_button_round_trip(t);
}

impl MatchData {
    /// Every result vote can be shown, and only players of the match have voted.
    pub open spec fn wf(self) -> bool {
        &&& forall|u: UserId| #[trigger] self.result_votes@.contains_key(u) ==> labelable(self.result_votes@[u])
            && in_teams(self.members@, u)
        &&& forall|u: UserId| #[trigger] self.map_votes@.contains_key(u) ==> in_teams(self.members@, u)
    }

    /// A match that has just started: no votes yet, not decided and not ended.
    pub fn new(
        channels: Vec<ChannelId>,
        members: Vec<Vec<UserId>>,
        host: Option<UserId>,
        map_vote_end_time: Option<u64>,
        name: String,
        queue: QueueUuid,
    ) -> (m: MatchData)
        ensures
            m.wf(),
            m.result_votes@ == Map::<UserId, MatchResult>::empty(),
            m.map_votes@ == Map::<UserId, String>::empty(),
            m.channels == channels,
            m.members == members,
            m.host == host,
            m.map_vote_end_time == map_vote_end_time,
            m.match_end_time is None,
            !m.resolved,
            m.name == name,
            m.queue == queue,
    {
        MatchData {
            result_votes: HashMap::new(),
            map_votes: HashMap::new(),
            channels,
            members,
            host,
            map_vote_end_time,
            match_end_time: None,
            resolved: false,
            name,
            queue,
        }
    }

    /// The votes of a match, listed.
    fn result_vote_list(&self) -> (r: Vec<MatchResult>)
        ensures
            exists|order: Seq<UserId>| lists_keys(self.result_votes@, order) && r@ == listed_results(self.result_votes@, order),
    {
        let keys = keys_of(&self.result_votes);
        let mut r: Vec<MatchResult> = Vec::new();
        let mut i: usize = 0;
        while i < keys.len()
            invariant
                i <= keys@.len(),
                keys@.to_set() == self.result_votes@.dom(),
                r@ == listed_results(self.result_votes@, keys@.take(i as int)),
            decreases keys@.len() - i,
        {
            proof {
                assert(keys@.to_set().contains(keys@[i as int]));
            }
            let v = *self.result_votes.get(&keys[i]).unwrap();
            r.push(v);
            assert(listed_results(self.result_votes@, keys@.take(i + 1)) =~= r@);
            i = i + 1;
        }
        assert(keys@.take(i as int) =~= keys@);
        r
    }

    /// The map votes of a match, listed.
    fn map_vote_list(&self) -> (r: Vec<String>)
        ensures
            exists|order: Seq<UserId>| lists_keys(self.map_votes@, order) && names_view(r@) == listed_maps(self.map_votes@, order),
    {
        let keys = keys_of(&self.map_votes);
        let mut r: Vec<String> = Vec::new();
        let mut i: usize = 0;
        while i < keys.len()
            invariant
                i <= keys@.len(),
                keys@.to_set() == self.map_votes@.dom(),
                names_view(r@) == listed_maps(self.map_votes@, keys@.take(i as int)),
            decreases keys@.len() - i,
        {
            proof {
                assert(keys@.to_set().contains(keys@[i as int]));
            }
            let v = self.map_votes.get(&keys[i]).unwrap().clone();
            assert(v@ == self.map_votes@[keys@[i as int]]@);
            let ghost before = r@;
            r.push(v);
            assert(names_view(r@) =~= names_view(before).push(self.map_votes@[keys@[i as int]]@));
            assert(listed_maps(self.map_votes@, keys@.take(i + 1)) =~= names_view(r@));
            i = i + 1;
        }
        assert(keys@.take(i as int) =~= keys@);
        r
    }

    /// The count of the map votes: each map voted for once, with its number of votes.
    pub fn map_vote_tally(&self) -> (tally: Vec<(String, usize)>)
        ensures
            exists|order: Seq<UserId>| lists_keys(self.map_votes@, order)
                && is_tally(listed_maps(self.map_votes@, order), tally_view(tally@)),
    {
        let votes = self.map_vote_list();
        tally_maps(&votes)
    }

    /// The map played when the map vote times out: the map with the most votes (the last
    /// such in the count), or `first_map` (the first map offered) when nobody voted.
    pub fn timeout_map(&self, first_map: &String) -> (r: String)
        ensures
            exists|order: Seq<UserId>, tally: Seq<(Seq<char>, usize)>| {
                &&& lists_keys(self.map_votes@, order)
                &&& is_tally(listed_maps(self.map_votes@, order), tally)
                &&& tally.len() == 0 ==> r@ == first_map@
                &&& tally.len() > 0 ==> exists|i: int| is_last_maximum(tally, i) && r@ == tally[i].0
            },
    {
        let tally = self.map_vote_tally();
        let r = timeout_map_choice(&tally, first_map);
        proof {
            let order = choose|order: Seq<UserId>| lists_keys(self.map_votes@, order)
                && is_tally(listed_maps(self.map_votes@, order), tally_view(tally@));
            let tv = tally_view(tally@);
            if tally@.len() > 0 {
                let i = choose|i: int| is_last_maximum(tally@, i) && r@ == tally@[i].0@;
                assert(is_last_maximum(tv, i));
            }
            assert(lists_keys(self.map_votes@, order) && is_tally(listed_maps(self.map_votes@, order), tv));
        }
        r
    }

    /// Handles a button of the match channel pressed by `user`, in the order the bot
    /// checks: only players of the match may press; the host offer is taken once; a map,
    /// team, tie or cancel button records the player's vote (replacing an earlier one), and
    /// the votes are counted against `required`.
    pub fn handle_button(&mut self, user: UserId, button: &MatchButton, message: &str, required: u32) -> (r: ButtonEffect)
        requires
            old(self).wf(),
        ensures
            final(self).wf(),
            final(self).members == old(self).members,
            final(self).channels == old(self).channels,
            final(self).map_vote_end_time == old(self).map_vote_end_time,
            final(self).match_end_time == old(self).match_end_time,
            final(self).name == old(self).name,
            final(self).queue == old(self).queue,
            old(self).resolved ==> final(self).resolved,
            !in_teams(old(self).members@, user) ==> r is NotInMatch && final(self).result_votes == old(self).result_votes
                && final(self).map_votes == old(self).map_votes && final(self).host == old(self).host
                && final(self).resolved == old(self).resolved,
            in_teams(old(self).members@, user) ==> match *button {
                MatchButton::VolunteerHost => final(self).result_votes == old(self).result_votes
                    && final(self).map_votes == old(self).map_votes && final(self).resolved == old(self).resolved
                    && match r {
                        ButtonEffect::AlreadyHosted => old(self).host is Some && final(self).host == old(self).host,
                        ButtonEffect::HostTaken { content } => old(self).host is None && final(self).host == Some(user)
                            && content@ == message@ + "\n## Host: "@ + user_mention(user),
                        _ => false,
                    },
                MatchButton::MapVote(m) => final(self).map_votes@ == old(self).map_votes@.insert(user, m)
                    && final(self).result_votes == old(self).result_votes && final(self).host == old(self).host
                    && final(self).resolved == old(self).resolved
                    && match r {
                        ButtonEffect::MapVote { tally, update } => {
                            &&& exists|order: Seq<UserId>| lists_keys(final(self).map_votes@, order)
                                && is_tally(listed_maps(final(self).map_votes@, order), tally_view(tally@))
                            &&& match last_passing(tally_view(tally@), required) {
                                Some(i) => update.winner matches Some(w) && w@ == tally@[i].0@ && update.content@ == "# Map: "@ + w@,
                                None => update.winner is None && update.content@ == map_vote_header(old(self).map_vote_end_time)
                                    + map_vote_lines(tally_view(tally@)),
                            }
                        },
                        _ => false,
                    },
                MatchButton::TeamVote(t) => final(self).map_votes == old(self).map_votes && final(self).host == old(self).host
                    && match team_vote(t@) {
                        None => r is InvalidTeam && final(self).result_votes == old(self).result_votes
                            && final(self).resolved == old(self).resolved,
                        Some(v) => final(self).result_votes@ == old(self).result_votes@.insert(user, v)
                            && result_vote_effect(*old(self), *final(self), r, required),
                    },
                MatchButton::Tie => final(self).result_votes@ == old(self).result_votes@.insert(user, MatchResult::Tie)
                    && final(self).map_votes == old(self).map_votes && final(self).host == old(self).host
                    && result_vote_effect(*old(self), *final(self), r, required),
                MatchButton::Cancel => final(self).result_votes@ == old(self).result_votes@.insert(user, MatchResult::Cancel)
                    && final(self).map_votes == old(self).map_votes && final(self).host == old(self).host
                    && result_vote_effect(*old(self), *final(self), r, required),
                MatchButton::Other => r is NoVote && final(self).result_votes == old(self).result_votes
                    && final(self).map_votes == old(self).map_votes && final(self).host == old(self).host
                    && final(self).resolved == old(self).resolved,
            },
    {
        if !plays_in(&self.members, user) {
            return ButtonEffect::NotInMatch;
        }
        let vote: MatchResult = match button {
            MatchButton::VolunteerHost => {
                if volunteer_host(&mut self.host, user) {
                    return ButtonEffect::AlreadyHosted;
                }
                return ButtonEffect::HostTaken { content: host_announcement(message, user) };
            },
            MatchButton::MapVote(m) => {
                self.map_votes.insert(user, m.clone());
                let votes = self.map_vote_list();
                let tally = tally_maps(&votes);
                let update = map_vote_update(&tally, self.map_vote_end_time, required);
                return ButtonEffect::MapVote { tally, update };
            },
            MatchButton::TeamVote(t) => {
                match parse_u32(t.as_str()) {
                    Some(n) => {
                        if n == u32::MAX {
                            return ButtonEffect::InvalidTeam;
                        }
                        MatchResult::Team(n)
                    },
                    None => { return ButtonEffect::InvalidTeam; },
                }
            },
            MatchButton::Tie => MatchResult::Tie,
            MatchButton::Cancel => MatchResult::Cancel,
            MatchButton::Other => { return ButtonEffect::NoVote; },
        };
        self.result_votes.insert(user, vote);
        if self.resolved {
            return ButtonEffect::AlreadyResolved;
        }
        let votes = self.result_vote_list();
        proof {
            let order = choose|order: Seq<UserId>| lists_keys(self.result_votes@, order)
                && votes@ == listed_results(self.result_votes@, order);
            assert forall|i: int| 0 <= i < votes@.len() implies labelable(#[trigger] votes@[i]) by {
                assert(order.to_set().contains(order[i]));
            }
        }
        let tally = tally_results(&votes);
        proof {
            assert forall|i: int| 0 <= i < tally@.len() implies labelable(#[trigger] tally@[i].0) by {
                assert(tally@[i] == tally@[i]);
                let w = choose|w: int| 0 <= w < votes@.len() && votes@[w] == tally@[i].0;
                assert(labelable(votes@[w]));
            }
        }
        let update = result_vote_update(&tally, required);
        if update.winner.is_some() {
            self.resolved = true;
        }
        ButtonEffect::ResultVote { tally, update }
    }
}

/// Moves the match `id` from the current matches to the finished ones, stamped with the
/// time `now` at which it ended, and returns its players, team after team: each of them has
/// the match added to their game history. When no current match has the id, nothing
/// changes and no player is returned.
pub fn archive_match(current: &mut HashMap<MatchUuid, MatchData>, finished: &mut HashMap<MatchUuid, MatchData>, id: MatchUuid, now: u64) -> (players: Vec<UserId>)
    ensures
        final(current)@ == old(current)@.remove(id),
        old(current)@.contains_key(id) ==> final(finished)@ == old(finished)@.insert(id, MatchData { match_end_time: Some(now), ..old(current)@[id] })
            && players@ == flat_members(old(current)@[id].members@),
        !old(current)@.contains_key(id) ==> final(finished)@ == old(finished)@ && players@.len() == 0,
{
    match current.remove(&id) {
        Some(mut m) => {
            m.match_end_time = Some(now);
            let players = team_members(&m.members);
            finished.insert(id, m);
            players
        },
        None => Vec::new(),
    }
}

/// What a recorded result vote does: nothing more once the match is decided; otherwise the
/// votes are counted, the message lists the counts, and a result with enough votes decides
/// the match.
pub open spec fn result_vote_effect(before: MatchData, after: MatchData, r: ButtonEffect, required: u32) -> bool {
    if before.resolved {
        r is AlreadyResolved && after.resolved
    } else {
        match r {
            ButtonEffect::ResultVote { tally, update } => {
                &&& exists|order: Seq<UserId>| lists_keys(after.result_votes@, order)
                    && is_tally(listed_results(after.result_votes@, order), tally@)
                &&& update.content@ == result_vote_lines(tally@)
                &&& match last_passing(tally@, required) {
                    Some(i) => update.winner == Some(tally@[i].0) && after.resolved,
                    None => update.winner is None && !after.resolved,
                }
            },
            _ => false,
        }
    }
}

proof fn lemma_in_teams_flat(teams: Seq<Vec<UserId>>, u: UserId)
    requires
        in_teams(teams, u),
    ensures
        flat_members(teams).contains(u),
    decreases teams.len(),
{
    let (t, i) = choose|t: int, i: int| 0 <= t < teams.len() && 0 <= i < teams[t]@.len() && #[trigger] teams[t]@[i] == u;
    let prev = flat_members(teams.drop_last());
    if t == teams.len() - 1 {
        assert((prev + teams.last()@)[prev.len() + i] == u);
    } else {
        assert(teams.drop_last()[t]@[i] == u);
        lemma_in_teams_flat(teams.drop_last(), u);
        let k = choose|k: int| 0 <= k < prev.len() && prev[k] == u;
        assert((prev + teams.last()@)[k] == u);
    }
}

/// Each player of a match votes at most once on the result and once on the map, so
/// neither vote has more voters than the match has places.
pub proof fn lemma_votes_bounded_by_players(m: MatchData)
    requires
        m.wf(),
    ensures
        m.result_votes@.dom().len() <= flat_members(m.members@).len(),
        m.map_votes@.dom().len() <= flat_members(m.members@).len(),
{
    let players = flat_members(m.members@);
    assert forall|u: UserId| #[trigger] m.result_votes@.dom().contains(u) implies players.to_set().contains(u) by {
        lemma_in_teams_flat(m.members@, u);
    }
    assert forall|u: UserId| #[trigger] m.map_votes@.dom().contains(u) implies players.to_set().contains(u) by {
        lemma_in_teams_flat(m.members@, u);
    }
    players.lemma_cardinality_of_set();
    vstd::set_lib::lemma_len_subset(m.result_votes@.dom(), players.to_set());
    vstd::set_lib::lemma_len_subset(m.map_votes@.dom(), players.to_set());
}

} // verus!
