//! Smaller pieces of the bot's commands: leavers, votes reminders, hosts, the matchmaking
//! guard and the replies they send.
use std::collections::HashMap;
use std::collections::HashSet;
use vstd::prelude::*;
use vstd::string::*;
use crate::ids::UserId;
use crate::keys::keys_of;
use crate::match_start::{in_teams, match_started};
use crate::players::{GlobalPlayerData, Players, QueueState};
use crate::text::{decimal, joined, joined_mentions, lemma_joined_push, push_mentions, push_u64, push_user_mention, user_mention, MentionKind};

verus! {

broadcast use {vstd::std_specs::hash::group_hash_axioms, vstd::seq_lib::group_seq_properties};

/// Counts one more time that a player left a match.
pub fn record_leaver(counts: &mut HashMap<UserId, u32>, player: UserId)
    requires
        old(counts)@.contains_key(player) ==> old(counts)@[player] < u32::MAX,
    ensures
        final(counts)@ == old(counts)@.insert(player,
            (if old(counts)@.contains_key(player) { old(counts)@[player] + 1 } else { 1 }) as u32),
{
    let c: u32 = match counts.get(&player) {
        Some(c) => *c,
        None => 0,
    };
    counts.insert(player, c + 1);
}

/// The line of a leaver: `<@id> left N times`.
pub open spec fn leaver_line(id: UserId, count: u32) -> Seq<char> {
    user_mention(id) + " left "@ + decimal(count as nat) + " times"@
}

/// The list of leavers: `# Player Leave Counts` and a line per player, in some order.
pub fn leaver_list_text(counts: &HashMap<UserId, u32>) -> (s: String)
    ensures
        exists|order: Seq<UserId>| {
            &&& order.no_duplicates()
            &&& order.to_set() == counts@.dom()
            &&& s@ == "# Player Leave Counts\n"@ + joined(order.map_values(|id: UserId| leaver_line(id, counts@[id])), "\n"@)
        },
{
    let keys = keys_of(counts);
    let mut s = String::from_str("# Player Leave Counts\n");
    let ghost start = s@;
    let n = keys.len();
    let mut i: usize = 0;
    while i < n
        invariant
            n == keys@.len(),
            i <= n,
            keys@.to_set() == counts@.dom(),
            s@ == start + joined(keys@.take(i as int).map_values(|id: UserId| leaver_line(id, counts@[id])), "\n"@),
        decreases n - i,
    {
        let k = keys[i];
        let ghost prev = keys@.take(i as int).map_values(|id: UserId| leaver_line(id, counts@[id]));
        proof {
            assert(keys@.to_set().contains(k));
        }
        if i > 0 {
            s.append("\n");
        }
        let c = *counts.get(&k).unwrap();
        push_user_mention(&mut s, k);
        s.append(" left ");
        push_u64(&mut s, c as u64);
        s.append(" times");
        proof {
            assert(keys@.take(i + 1).map_values(|id: UserId| leaver_line(id, counts@[id])) =~= prev.push(leaver_line(k, c)));
            lemma_joined_push(prev, "\n"@, leaver_line(k, c));
        }
        i = i + 1;
    }
    assert(keys@.take(n as int) =~= keys@);
    s
}

/// The players of the teams, team after team.
pub open spec fn flat_members(teams: Seq<Vec<UserId>>) -> Seq<UserId>
    decreases teams.len(),
{
    if teams.len() == 0 {
        Seq::empty()
    } else {
        flat_members(teams.drop_last()) + teams.last()@
    }
}

/// Whether a player is outside a set.
pub open spec fn not_in(set: Set<UserId>) -> spec_fn(UserId) -> bool {
    |u: UserId| !set.contains(u)
}

/// The players of a match who have not voted on the result, team after team.
pub fn non_voters(teams: &Vec<Vec<UserId>>, voters: &HashSet<UserId>) -> (r: Vec<UserId>)
    ensures
        r@ == flat_members(teams@).filter(not_in(voters@)),
{
    let mut r: Vec<UserId> = Vec::new();
    let mut t: usize = 0;
    while t < teams.len()
        invariant
            t <= teams@.len(),
            r@ == flat_members(teams@.take(t as int)).filter(not_in(voters@)),
        decreases teams@.len() - t,
    {
        let ghost base = flat_members(teams@.take(t as int));
        assert(teams@.take(t + 1).drop_last() =~= teams@.take(t as int));
        let mut i: usize = 0;
        while i < teams[t].len()
            invariant
                t < teams@.len(),
                i <= teams@[t as int]@.len(),
                r@ == (base + teams@[t as int]@.take(i as int)).filter(not_in(voters@)),
            decreases teams@[t as int]@.len() - i,
        {
            let u = teams[t][i];
            assert((base + teams@[t as int]@.take(i + 1)) =~= (base + teams@[t as int]@.take(i as int)).push(u));
            let ghost xs = base + teams@[t as int]@.take(i as int);
            assert(xs.push(u).drop_last() =~= xs);
            reveal(Seq::filter);
            assert(xs.push(u).filter(not_in(voters@)) == if not_in(voters@)(u) { xs.filter(not_in(voters@)).push(u) } else { xs.filter(not_in(voters@)) });
            if !voters.contains(&u) {
                r.push(u);
            }
            i = i + 1;
        }
        assert(teams@[t as int]@.take(i as int) =~= teams@[t as int]@);
        t = t + 1;
    }
    assert(teams@.take(t as int) =~= teams@);
    r
}

/// The players of a match, team after team.
pub fn team_members(teams: &Vec<Vec<UserId>>) -> (r: Vec<UserId>)
    ensures
        r@ == flat_members(teams@),
{
    let mut r: Vec<UserId> = Vec::new();
    let mut t: usize = 0;
    while t < teams.len()
        invariant
            t <= teams@.len(),
            r@ == flat_members(teams@.take(t as int)),
        decreases teams@.len() - t,
    {
        let ghost base = r@;
        assert(teams@.take(t + 1).drop_last() =~= teams@.take(t as int));
        let mut i: usize = 0;
        while i < teams[t].len()
            invariant
                t < teams@.len(),
                i <= teams@[t as int]@.len(),
                r@ == base + teams@[t as int]@.take(i as int),
            decreases teams@[t as int]@.len() - i,
        {
            r.push(teams[t][i]);
            assert(base + teams@[t as int]@.take(i + 1) =~= (base + teams@[t as int]@.take(i as int)).push(teams@[t as int]@[i as int]));
            i = i + 1;
        }
        assert(teams@[t as int]@.take(i as int) =~= teams@[t as int]@);
        t = t + 1;
    }
    assert(teams@.take(t as int) =~= teams@);
    r
}

/// The reminder to vote: `# Remember to vote` and the players who have not voted.
pub fn vote_reminder(missing: &Vec<UserId>) -> (s: String)
    ensures
        s@ == "# Remember to vote\n"@ + joined_mentions(MentionKind::User, missing@, ", "@),
{
    let mut s = String::from_str("# Remember to vote\n");
    push_mentions(&mut s, MentionKind::User, missing, ", ");
    s
}

/// The message that asks a player marked as a leaver to deny it, and until when.
pub fn leaver_check_message(player: UserId, deadline: u64) -> (s: String)
    ensures
        s@ == "# Did you leave "@ + user_mention(player) + "?\nEnds <t:"@ + decimal(deadline as nat)
            + ":R>, otherwise user will be reported"@,
{
    let mut s = String::from_str("# Did you leave ");
    push_user_mention(&mut s, player);
    s.append("?\nEnds <t:");
    push_u64(&mut s, deadline);
    s.append(":R>, otherwise user will be reported");
    s
}

/// A message sent for a player without pinging: `<@id>: text`.
pub fn no_ping_text(author: UserId, text: &str) -> (s: String)
    ensures
        s@ == user_mention(author) + ": "@ + text@,
{
    let mut s = String::new();
    push_user_mention(&mut s, author);
    s.append(": ");
    s.append(text);
    s
}

/// The reply to lifting a ban: `Unbanned <@id>.` or `<@id> was not banned.`.
pub fn unban_reply(player: UserId, was_banned: bool) -> (s: String)
    ensures
        s@ == if was_banned { "Unbanned "@ + user_mention(player) + "."@ } else { user_mention(player) + " was not banned."@ },
{
    let mut s = String::new();
    if was_banned {
        s.append("Unbanned ");
        push_user_mention(&mut s, player);
        s.append(".");
    } else {
        push_user_mention(&mut s, player);
        s.append(" was not banned.");
    }
    s
}

/// The audit log line of a lifted ban: `<@moderator> unbanned <@player>.`.
pub fn unban_audit(moderator: UserId, player: UserId) -> (s: String)
    ensures
        s@ == user_mention(moderator) + " unbanned "@ + user_mention(player) + "."@,
{
    let mut s = String::new();
    push_user_mention(&mut s, moderator);
    s.append(" unbanned ");
    push_user_mention(&mut s, player);
    s.append(".");
    s
}

/// The audit log line of a ban: `<@moderator>: <ban>`.
pub fn ban_audit(moderator: UserId, ban_text: &str) -> (s: String)
    ensures
        s@ == user_mention(moderator) + ": "@ + ban_text@,
{
    let mut s = String::new();
    push_user_mention(&mut s, moderator);
    s.append(": ");
    s.append(ban_text);
    s
}

/// A player offers to host a match's lobby: the first offer is taken. Says whether the
/// lobby had a host already.
pub fn volunteer_host(host: &mut Option<UserId>, user: UserId) -> (already_hosted: bool)
    ensures
        already_hosted == (*old(host) is Some),
        *final(host) == if already_hosted { *old(host) } else { Some(user) },
{
    if host.is_some() {
        true
    } else {
        *host = Some(user);
        false
    }
}

/// The match message once a host volunteered: the message and `## Host: <@id>` below it.
pub fn host_announcement(content: &str, host: UserId) -> (s: String)
    ensures
        s@ == content@ + "\n## Host: "@ + user_mention(host),
{
    let mut s = String::from_str(content);
    s.append("\n## Host: ");
    push_user_mention(&mut s, host);
    s
}

/// The records once the match between `teams` is decided: its players are no longer in a
/// game; every other record stays as it was.
pub open spec fn match_ended(before: Map<UserId, GlobalPlayerData>, after: Map<UserId, GlobalPlayerData>, teams: Seq<Vec<UserId>>) -> bool {
    &&& after.dom() == before.dom()
    &&& forall|u: UserId| #[trigger] after.contains_key(u) ==> after[u] == if in_teams(teams, u) {
        GlobalPlayerData { queue_state: QueueState::Idle, ..before[u] }
    } else {
        before[u]
    }
}

/// A match leaves its players as they were before it, but idle and out of the queue: the
/// records after it starts and is decided keep each player's party.
pub proof fn lemma_match_round_trip(
    g0: Map<UserId, GlobalPlayerData>,
    g1: Map<UserId, GlobalPlayerData>,
    g2: Map<UserId, GlobalPlayerData>,
    teams: Seq<Vec<UserId>>,
)
    requires
        match_started(g0, g1, teams),
        match_ended(g1, g2, teams),
    ensures
        g2.dom() == g0.dom(),
        forall|u: UserId| #[trigger] g2.contains_key(u) ==> g2[u] == if in_teams(teams, u) {
            GlobalPlayerData { queue_enter_time: None, party: g0[u].party, queue_state: QueueState::Idle }
        } else {
            g0[u]
        },
{
    assert forall|u: UserId| #[trigger] g2.contains_key(u) implies g2[u] == if in_teams(teams, u) {
        GlobalPlayerData { queue_enter_time: None, party: g0[u].party, queue_state: QueueState::Idle }
    } else {
        g0[u]
    } by {
        assert(g1.contains_key(u));
    }
}

/// Once a match is decided, its players are no longer in a game.
pub fn release_players(players: &mut Players, teams: &Vec<Vec<UserId>>)
    requires
        old(players).wf(),
        forall|t: int, i: int| 0 <= t < teams@.len() && 0 <= i < teams@[t]@.len()
            ==> old(players).global@.contains_key(#[trigger] teams@[t]@[i]),
    ensures
        final(players).wf(),
        final(players).groups == old(players).groups,
        match_ended(old(players).global@, final(players).global@, teams@),
{
    let ghost g0 = players.global@;
    let mut t: usize = 0;
    while t < teams.len()
        invariant
            t <= teams@.len(),
            players.wf(),
            players.groups == old(players).groups,
            g0 == old(players).global@,
            forall|t1: int, i: int| 0 <= t1 < teams@.len() && 0 <= i < teams@[t1]@.len()
                ==> g0.contains_key(#[trigger] teams@[t1]@[i]),
            players.global@.dom() == g0.dom(),
            forall|u: UserId| #[trigger] players.global@.contains_key(u) ==> players.global@[u] == if in_teams(teams@.take(t as int), u) {
                GlobalPlayerData { queue_state: QueueState::Idle, ..g0[u] }
            } else {
                g0[u]
            },
        decreases teams@.len() - t,
    {
        let mut i: usize = 0;
        while i < teams[t].len()
            invariant
                t < teams@.len(),
                i <= teams@[t as int]@.len(),
                players.wf(),
                players.groups == old(players).groups,
                forall|t1: int, i1: int| 0 <= t1 < teams@.len() && 0 <= i1 < teams@[t1]@.len()
                    ==> g0.contains_key(#[trigger] teams@[t1]@[i1]),
                players.global@.dom() == g0.dom(),
                forall|u: UserId| #[trigger] players.global@.contains_key(u) ==> players.global@[u] ==
                    if in_teams(teams@.take(t as int), u) || teams@[t as int]@.take(i as int).contains(u) {
                        GlobalPlayerData { queue_state: QueueState::Idle, ..g0[u] }
                    } else {
                        g0[u]
                    },
            decreases teams@[t as int]@.len() - i,
        {
            let u = teams[t][i];
            proof {
                assert(g0.contains_key(teams@[t as int]@[i as int]));
            }
            let d = *players.global.get(&u).unwrap();
            players.set_queue_status(u, QueueState::Idle, d.queue_enter_time);
            proof {
                assert(teams@[t as int]@.take(i + 1) =~= teams@[t as int]@.take(i as int).push(u));
            }
            i = i + 1;
        }
        proof {
            assert(teams@[t as int]@.take(i as int) =~= teams@[t as int]@);
            assert forall|u: UserId| in_teams(teams@.take(t + 1), u) <==> (in_teams(teams@.take(t as int), u) || teams@[t as int]@.contains(u)) by {
                if in_teams(teams@.take(t + 1), u) {
                    let (a, b) = choose|a: int, b: int| 0 <= a < teams@.take(t + 1).len() && 0 <= b < teams@.take(t + 1)[a]@.len()
                        && #[trigger] teams@.take(t + 1)[a]@[b] == u;
                    if a < t {
                        assert(teams@.take(t as int)[a]@[b] == u);
                    } else {
                        assert(teams@[t as int]@[b] == u);
                    }
                }
                if in_teams(teams@.take(t as int), u) {
                    let (a, b) = choose|a: int, b: int| 0 <= a < teams@.take(t as int).len() && 0 <= b < teams@.take(t as int)[a]@.len()
                        && #[trigger] teams@.take(t as int)[a]@[b] == u;
                    assert(teams@.take(t + 1)[a]@[b] == u);
                }
                if teams@[t as int]@.contains(u) {
                    let b = choose|b: int| 0 <= b < teams@[t as int]@.len() && teams@[t as int]@[b] == u;
                    assert(teams@.take(t + 1)[t as int]@[b] == u);
                }
            }
        }
        t = t + 1;
    }
    assert(teams@.take(t as int) =~= teams@);
}

/// Whether a queue's matchmaking is running.
pub struct MatchmakingGuard {
    pub running: bool,
}

impl MatchmakingGuard {
    /// Starts a matchmaking run unless one is running; says whether this one may run.
    pub fn try_start(&mut self) -> (started: bool)
        ensures
            started == !old(self).running,
            final(self).running,
    {
        if self.running {
            false
        } else {
            self.running = true;
            true
        }
    }

    /// Marks the run as paused while it waits before trying again.
    pub fn pause(&mut self)
        ensures
            !final(self).running,
    {
        self.running = false;
    }

    /// After the wait: the run goes on unless another one started meanwhile.
    pub fn resume(&mut self) -> (goes_on: bool)
        ensures
            goes_on == !old(self).running,
            final(self).running,
    {
        self.try_start()
    }

    /// Ends the run.
    pub fn finish(&mut self)
        ensures
            !final(self).running,
    {
        self.running = false;
    }
}

} // verus!
