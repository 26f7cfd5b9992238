//! Starting a match: the players leave the queue and enter the game, the match gets its
//! number, channels and messages, its maps and its host.
use std::collections::HashSet;
use vstd::prelude::*;
use vstd::string::*;
use crate::ids::{RoleId, UserId};
use crate::players::{GlobalPlayerData, Players, QueueState};
use crate::text::{decimal, push_role_mention, push_u64, push_user_mention, role_mention, user_mention};
use crate::votes::{names_view, occurrences};

verus! {

broadcast use {
    vstd::std_specs::hash::group_hash_axioms,
    vstd::seq_lib::group_seq_properties,
    vstd::multiset::group_multiset_axioms,
};

/// Whether `u` plays in one of the teams.
pub open spec fn in_teams(teams: Seq<Vec<UserId>>, u: UserId) -> bool {
    exists|t: int, i: int| 0 <= t < teams.len() && 0 <= i < teams[t]@.len() && #[trigger] teams[t]@[i] == u
}

/// The records once a match between `teams` has started: its players are in a game with
/// no queue entry time; every other record stays as it was.
pub open spec fn match_started(before: Map<UserId, GlobalPlayerData>, after: Map<UserId, GlobalPlayerData>, teams: Seq<Vec<UserId>>) -> bool {
    &&& after.dom() == before.dom()
    &&& forall|u: UserId| #[trigger] after.contains_key(u) ==> after[u] == if in_teams(teams, u) {
        GlobalPlayerData { queue_enter_time: None, party: before[u].party, queue_state: QueueState::InGame }
    } else {
        before[u]
    }
}

/// Starts a match in a queue: the queue's match number goes up by one, and every player of
/// the teams leaves the queue and is marked in a game with no queue entry time.
/// Returns the new match number.
pub fn begin_match(players: &mut Players, queued: &mut HashSet<UserId>, teams: &Vec<Vec<UserId>>, queue_idx: &mut u32) -> (n: u32)
    requires
        old(players).wf(),
        *old(queue_idx) < u32::MAX,
        forall|t: int, i: int| 0 <= t < teams@.len() && 0 <= i < teams@[t]@.len()
            ==> old(players).global@.contains_key(#[trigger] teams@[t]@[i]),
    ensures
        final(players).wf(),
        n == *old(queue_idx) + 1,
        *final(queue_idx) == n,
        final(players).groups == old(players).groups,
        match_started(old(players).global@, final(players).global@, teams@),
        final(queued)@ == old(queued)@.filter(|u: UserId| !in_teams(teams@, u)),
{
    *queue_idx = *queue_idx + 1;
    let ghost g0 = players.global@;
    let ghost q0 = queued@;
    let n_teams = teams.len();
    let mut t: usize = 0;
    while t < n_teams
        invariant
            n_teams == teams@.len(),
            t <= n_teams,
            players.wf(),
            players.groups == old(players).groups,
            g0 == old(players).global@,
            q0 == old(queued)@,
            forall|t1: int, i: int| 0 <= t1 < teams@.len() && 0 <= i < teams@[t1]@.len()
                ==> g0.contains_key(#[trigger] teams@[t1]@[i]),
            players.global@.dom() == g0.dom(),
            forall|u: UserId| #[trigger] players.global@.contains_key(u) ==> players.global@[u] == if in_teams(teams@.take(t as int), u) {
                GlobalPlayerData { queue_enter_time: None, party: g0[u].party, queue_state: QueueState::InGame }
            } else {
                g0[u]
            },
            queued@ == q0.filter(|u: UserId| !in_teams(teams@.take(t as int), u)),
        decreases n_teams - t,
    {
        let m = teams[t].len();
        let mut i: usize = 0;
        while i < m
            invariant
                n_teams == teams@.len(),
                t < n_teams,
                m == teams@[t as int]@.len(),
                i <= m,
                players.wf(),
                players.groups == old(players).groups,
                forall|t1: int, i1: int| 0 <= t1 < teams@.len() && 0 <= i1 < teams@[t1]@.len()
                    ==> g0.contains_key(#[trigger] teams@[t1]@[i1]),
                players.global@.dom() == g0.dom(),
                forall|u: UserId| #[trigger] players.global@.contains_key(u) ==> players.global@[u] ==
                    if in_teams(teams@.take(t as int), u) || teams@[t as int]@.take(i as int).contains(u) {
                        GlobalPlayerData { queue_enter_time: None, party: g0[u].party, queue_state: QueueState::InGame }
                    } else {
                        g0[u]
                    },
                queued@ == q0.filter(|u: UserId| !(in_teams(teams@.take(t as int), u) || teams@[t as int]@.take(i as int).contains(u))),
            decreases m - i,
        {
            let u = teams[t][i];
            proof {
                assert(g0.contains_key(teams@[t as int]@[i as int]));
            }
            queued.remove(&u);
            players.set_queue_status(u, QueueState::InGame, None);
            proof {
                assert(teams@[t as int]@.take(i + 1) =~= teams@[t as int]@.take(i as int).push(u));
                assert(queued@ =~= q0.filter(|x: UserId| !(in_teams(teams@.take(t as int), x) || teams@[t as int]@.take(i + 1).contains(x))));
            }
            i = i + 1;
        }
        proof {
            assert(teams@[t as int]@.take(m as int) =~= teams@[t as int]@);
            assert forall|u: UserId| in_teams(teams@.take(t + 1), u) <==> (in_teams(teams@.take(t as int), u) || teams@[t as int]@.contains(u)) by {
                if in_teams(teams@.take(t + 1), u) {
                    let (a, b) = choose|a: int, b: int| 0 <= a < teams@.take(t + 1).len() && 0 <= b < teams@.take(t + 1)[a]@.len()
                        && #[trigger] teams@.take(t + 1)[a]@[b] == u;
                    if a < t {
                        assert(teams@.take(t as int)[a]@[b] == u);
                    } else {
                        assert(teams@[t as int]@[b] == u);
                    }
                }
                if in_teams(teams@.take(t as int), u) {
                    let (a, b) = choose|a: int, b: int| 0 <= a < teams@.take(t as int).len() && 0 <= b < teams@.take(t as int)[a]@.len()
                        && #[trigger] teams@.take(t as int)[a]@[b] == u;
                    assert(teams@.take(t + 1)[a]@[b] == u);
                }
                if teams@[t as int]@.contains(u) {
                    let b = choose|b: int| 0 <= b < teams@[t as int]@.len() && teams@[t as int]@[b] == u;
                    assert(teams@.take(t + 1)[t as int]@[b] == u);
                }
            }
            assert(queued@ =~= q0.filter(|x: UserId| !in_teams(teams@.take(t + 1), x)));
        }
        t = t + 1;
    }
    proof {
        assert(teams@.take(n_teams as int) =~= teams@);
        assert(queued@ =~= q0.filter(|u: UserId| !in_teams(teams@, u)));
    }
    *queue_idx
}

/// The name of a match's text channel: `match-N`.
pub fn match_channel_name(n: u32) -> (s: String)
    ensures
        s@ == "match-"@ + decimal(n as nat),
{
    let mut s = String::from_str("match-");
    push_u64(&mut s, n as u64);
    s
}

/// The name of a team's voice channel: `Team T - #N`, teams counted from one.
pub fn team_channel_name(team: u32, n: u32) -> (s: String)
    requires
        team < u32::MAX,
    ensures
        s@ == "Team "@ + decimal((team + 1) as nat) + " - #"@ + decimal(n as nat),
{
    let mut s = String::from_str("Team ");
    push_u64(&mut s, (team + 1) as u64);
    s.append(" - #");
    push_u64(&mut s, n as u64);
    s
}

/// The name of a match: `#N`.
pub fn match_name(n: u32) -> (s: String)
    ensures
        s@ == "#"@ + decimal(n as nat),
{
    let mut s = String::from_str("#");
    push_u64(&mut s, n as u64);
    s
}

/// The lines that announce the game categories chosen: `name: <role>` each.
pub open spec fn category_lines(categories: Seq<(String, RoleId)>) -> Seq<char>
    decreases categories.len(),
{
    if categories.len() == 0 {
        Seq::empty()
    } else {
        category_lines(categories.drop_last()) + categories.last().0@ + ": "@ + role_mention(categories.last().1) + "\n"@
    }
}

/// The lines of one team's players: a mention per line.
pub open spec fn player_lines(team: Seq<UserId>) -> Seq<char>
    decreases team.len(),
{
    if team.len() == 0 {
        Seq::empty()
    } else {
        player_lines(team.drop_last()) + user_mention(team.last()) + "\n"@
    }
}

/// The lines of the teams: `## Team T` and the team's players, teams counted from one.
pub open spec fn team_lines(teams: Seq<Seq<UserId>>) -> Seq<char>
    decreases teams.len(),
{
    if teams.len() == 0 {
        Seq::empty()
    } else {
        team_lines(teams.drop_last()) + "## Team "@ + decimal(teams.len()) + "\n"@ + player_lines(teams.last())
    }
}

/// The message that opens a match: its number, the game categories, the teams and the host.
pub open spec fn members_message_spec(n: u32, categories: Seq<(String, RoleId)>, teams: Seq<Seq<UserId>>, host: Option<UserId>) -> Seq<char> {
    "# Queue#"@ + decimal(n as nat) + "\n"@ + category_lines(categories) + team_lines(teams)
        + match host { Some(h) => "## Host: "@ + user_mention(h) + "\n"@, None => Seq::empty() }
}

/// The message that opens a match.
pub fn members_message(n: u32, categories: &Vec<(String, RoleId)>, teams: &Vec<Vec<UserId>>, host: Option<UserId>) -> (s: String)
    ensures
        s@ == members_message_spec(n, categories@, teams@.map_values(|v: Vec<UserId>| v@), host),
{
    let mut s = String::from_str("# Queue#");
    push_u64(&mut s, n as u64);
    s.append("\n");
    let ghost head = s@;
    let mut i: usize = 0;
    while i < categories.len()
        invariant
            i <= categories@.len(),
            s@ == head + category_lines(categories@.take(i as int)),
        decreases categories@.len() - i,
    {
        assert(categories@.take(i + 1).drop_last() =~= categories@.take(i as int));
        s.append(categories[i].0.as_str());
        s.append(": ");
        push_role_mention(&mut s, categories[i].1);
        s.append("\n");
        i = i + 1;
    }
    assert(categories@.take(i as int) =~= categories@);
    let ghost mid = s@;
    let tv = Ghost(teams@.map_values(|v: Vec<UserId>| v@));
    let mut t: usize = 0;
    while t < teams.len()
        invariant
            t <= teams@.len(),
            tv@ == teams@.map_values(|v: Vec<UserId>| v@),
            s@ == mid + team_lines(tv@.take(t as int)),
        decreases teams@.len() - t,
    {
        assert(tv@.take(t + 1).drop_last() =~= tv@.take(t as int));
        s.append("## Team ");
        push_u64(&mut s, (t + 1) as u64);
        s.append("\n");
        let ghost before_team = s@;
        let m = teams[t].len();
        let mut k: usize = 0;
        while k < m
            invariant
                t < teams@.len(),
                m == teams@[t as int]@.len(),
                k <= m,
                s@ == before_team + player_lines(teams@[t as int]@.take(k as int)),
            decreases m - k,
        {
            assert(teams@[t as int]@.take(k + 1).drop_last() =~= teams@[t as int]@.take(k as int));
            push_user_mention(&mut s, teams[t][k]);
            s.append("\n");
            k = k + 1;
        }
        assert(teams@[t as int]@.take(m as int) =~= teams@[t as int]@);
        assert(tv@.take(t + 1).last() == teams@[t as int]@);
        t = t + 1;
    }
    assert(tv@.take(t as int) =~= tv@);
    match host {
        Some(h) => {
            s.append("## Host: ");
            push_user_mention(&mut s, h);
            s.append("\n");
        },
        None => {},
    }
    s
}

#[verifier::external_type_specification]
#[verifier::external_body]
pub struct ExThreadRng(rand::rngs::ThreadRng);

/// The generator of random numbers of this thread.
///
/// Calls `rand::thread_rng`; nothing is claimed about the generator. Seeding it from the
/// system panics when the system's random source fails; the call takes no input by which
/// that case could be excluded.
#[verifier::external_body]
fn thread_rng() -> rand::rngs::ThreadRng {
    rand::thread_rng()
}

/// A random index below `n`.
///
/// Calls `Rng::gen_range` with the range `0..n`, which panics on an empty range; the
/// value is random, and only that it lies in the range is claimed.
#[verifier::external_body]
fn gen_index(rng: &mut rand::rngs::ThreadRng, n: usize) -> (r: usize)
    requires
        n > 0,
    ensures
        r < n,
{
    rand::Rng::gen_range(rng, 0..n)
}

/// The maps that the indices `draws` pick from `pool`: each index picks, and takes out, a
/// map of what is left of the pool.
pub open spec fn drawn_maps(pool: Seq<Seq<char>>, draws: Seq<usize>) -> Seq<Seq<char>>
    decreases draws.len(),
{
    if draws.len() == 0 {
        Seq::empty()
    } else {
        seq![pool[draws[0] as int]] + drawn_maps(pool.remove(draws[0] as int), draws.skip(1))
    }
}

/// Whether each index lies below the number of maps left when it is used.
pub open spec fn draws_fit(pool_len: nat, draws: Seq<usize>) -> bool {
    forall|k: int| 0 <= k < draws.len() ==> #[trigger] draws[k] + k < pool_len
}

/// The maps that the drawn indices pick from the pool, without putting a map back.
pub fn maps_from_draws(pool: Vec<String>, draws: &Vec<usize>) -> (r: Vec<String>)
    requires
        draws_fit(pool@.len(), draws@),
    ensures
        names_view(r@) == drawn_maps(names_view(pool@), draws@),
        r@.len() == draws@.len(),
        names_view(r@).to_multiset().subset_of(names_view(pool@).to_multiset()),
{
    let ghost full = names_view(pool@).to_multiset();
    let ghost all = drawn_maps(names_view(pool@), draws@);
    let ghost n0 = pool@.len();
    let mut rest = pool;
    let mut r: Vec<String> = Vec::new();
    let mut k: usize = 0;
    while k < draws.len()
        invariant
            k <= draws@.len(),
            r@.len() == k,
            rest@.len() + k == n0,
            draws_fit(n0, draws@),
            names_view(r@) + drawn_maps(names_view(rest@), draws@.skip(k as int)) == all,
            names_view(r@).to_multiset().add(names_view(rest@).to_multiset()) == full,
        decreases draws@.len() - k,
    {
        let i = draws[k];
        assert(draws@[k as int] + k < n0);
        let ghost before = rest@;
        let ghost r_before = r@;
        proof {
            assert(draws@.skip(k as int)[0] == i);
            assert(draws@.skip(k as int).skip(1) =~= draws@.skip(k + 1));
        }
        let m = rest.remove(i);
        proof {
            assert(names_view(rest@) =~= names_view(before).remove(i as int));
            assert(names_view(before)[i as int] == m@);
        }
        r.push(m);
        proof {
            let x = m@;
            assert(names_view(r@) =~= names_view(r_before).push(x));
            assert(names_view(r@) + drawn_maps(names_view(rest@), draws@.skip(k + 1))
                =~= names_view(r_before) + drawn_maps(names_view(before), draws@.skip(k as int)));
            names_view(before).to_multiset_ensures();
            names_view(r_before).to_multiset_ensures();
            assert(names_view(before).to_multiset().count(x) > 0);
            assert(names_view(r@).to_multiset() =~= names_view(r_before).to_multiset().insert(x));
            assert(names_view(rest@).to_multiset() =~= names_view(before).to_multiset().remove(x));
            assert(names_view(r@).to_multiset().add(names_view(rest@).to_multiset())
                =~= names_view(r_before).to_multiset().add(names_view(before).to_multiset()));
        }
        k = k + 1;
    }
    proof {
        assert(draws@.skip(k as int).len() == 0);
        assert(names_view(r@) =~= all);
        assert(names_view(r@).to_multiset().subset_of(full));
    }
    r
}

/// Draws `count` maps at random from the pool, without putting a map back: the random
/// indices are drawn here, and [`maps_from_draws`] takes the maps they pick.
pub fn choose_vote_maps(pool: Vec<String>, count: u32) -> (r: Vec<String>)
    requires
        count <= pool@.len(),
    ensures
        r@.len() == count,
        names_view(r@).to_multiset().subset_of(names_view(pool@).to_multiset()),
        exists|draws: Seq<usize>| draws.len() == count && draws_fit(pool@.len(), draws)
            && names_view(r@) == drawn_maps(names_view(pool@), draws),
{
    let mut draws: Vec<usize> = Vec::new();
    let mut k: u32 = 0;
    while k < count
        invariant
            k <= count,
            count <= pool@.len(),
            draws@.len() == k,
            draws_fit(pool@.len(), draws@),
        decreases count - k,
    {
        let mut rng = thread_rng();
        let i = gen_index(&mut rng, pool.len() - k as usize);
        draws.push(i);
        k = k + 1;
    }
    maps_from_draws(pool, &draws)
}

/// Draws one map at random from a pool that is not empty: the random index is drawn here,
/// and [`maps_from_draws`] takes the map it picks.
pub fn choose_single_map(pool: Vec<String>) -> (r: String)
    requires
        pool@.len() > 0,
    ensures
        names_view(pool@).contains(r@),
        exists|i: usize| i < pool@.len() && r@ == drawn_maps(names_view(pool@), seq![i])[0],
{
    let mut rng = thread_rng();
    let i = gen_index(&mut rng, pool.len());
    let ghost p = names_view(pool@);
    let draws = vec![i];
    assert(draws@ =~= seq![i]);
    let picked = maps_from_draws(pool, &draws);
    let r = picked[0].clone();
    proof {
        assert(seq![i].skip(1) =~= Seq::<usize>::empty());
        assert(drawn_maps(p, seq![i]) =~= seq![p[i as int]]);
        assert(names_view(picked@)[0] == picked@[0]@);
    }
    r
}

/// The hosts of the players' last games that may host again: the game ended, at most
/// `keep` seconds ago, had a host, and the host plays in the new match.
pub open spec fn recent_hosts_spec(games: Seq<(Option<u64>, Option<UserId>)>, teams: Seq<Vec<UserId>>, now: u64, keep: u64) -> Seq<UserId>
    decreases games.len(),
{
    if games.len() == 0 {
        Seq::empty()
    } else {
        let prev = recent_hosts_spec(games.drop_last(), teams, now, keep);
        let g = games.last();
        if g.0 is Some && now - g.0->0 <= keep && g.1 is Some && in_teams(teams, g.1->0) {
            prev.push(g.1->0)
        } else {
            prev
        }
    }
}

/// Every recent host that may host again plays in the new match.
pub proof fn lemma_recent_host_plays(games: Seq<(Option<u64>, Option<UserId>)>, teams: Seq<Vec<UserId>>, now: u64, keep: u64, h: UserId)
    requires
        recent_hosts_spec(games, teams, now, keep).contains(h),
    ensures
        in_teams(teams, h),
    decreases games.len(),
{
    if games.len() > 0 {
        let prev = recent_hosts_spec(games.drop_last(), teams, now, keep);
        let g = games.last();
        if g.0 is Some && now - g.0->0 <= keep && g.1 is Some && in_teams(teams, g.1->0) {
            if h != g.1->0 {
                assert(prev.push(g.1->0).contains(h));
                let k = choose|k: int| 0 <= k < prev.push(g.1->0).len() && prev.push(g.1->0)[k] == h;
                assert(prev[k] == h);
                lemma_recent_host_plays(games.drop_last(), teams, now, keep, h);
            }
        } else {
            lemma_recent_host_plays(games.drop_last(), teams, now, keep, h);
        }
    }
}

/// Whether the game at index `i` ended within `keep` of `now` and was hosted by `h`.
pub open spec fn hosted_recently(games: Seq<(Option<u64>, Option<UserId>)>, i: int, now: u64, keep: u64, h: UserId) -> bool {
    &&& games[i].0 is Some
    &&& now - games[i].0->0 <= keep
    &&& games[i].1 == Some(h)
}

/// A player may host again exactly when one of the last games that ended within `keep`
/// was hosted by them and they play in the new match, whichever team they are in.
pub proof fn lemma_recent_hosts_exactly(games: Seq<(Option<u64>, Option<UserId>)>, teams: Seq<Vec<UserId>>, now: u64, keep: u64, h: UserId)
    ensures
        recent_hosts_spec(games, teams, now, keep).contains(h) <==> in_teams(teams, h)
            && exists|i: int| 0 <= i < games.len() && #[trigger] hosted_recently(games, i, now, keep, h),
    decreases games.len(),
{
    if recent_hosts_spec(games, teams, now, keep).contains(h) {
        lemma_recent_host_plays(games, teams, now, keep, h);
    }
    if games.len() > 0 {
        let rest = games.drop_last();
        let last = games.len() - 1;
        let prev = recent_hosts_spec(rest, teams, now, keep);
        let r = recent_hosts_spec(games, teams, now, keep);
        lemma_recent_hosts_exactly(rest, teams, now, keep, h);
        let g = games.last();
        let kept = g.0 is Some && now - g.0->0 <= keep && g.1 is Some && in_teams(teams, g.1->0);
        assert(forall|i: int| 0 <= i < rest.len() ==> rest[i] == games[i]);
        assert(forall|i: int| 0 <= i < rest.len() ==> (#[trigger] hosted_recently(rest, i, now, keep, h) <==> hosted_recently(games, i, now, keep, h)));
        if r.contains(h) {
            if kept && g.1->0 == h {
                assert(hosted_recently(games, last, now, keep, h));
            } else {
                if kept {
                    let k = choose|k: int| 0 <= k < r.len() && r[k] == h;
                    assert(prev[k] == h);
                }
                assert(prev.contains(h));
                let i = choose|i: int| 0 <= i < rest.len() && #[trigger] hosted_recently(rest, i, now, keep, h);
                assert(hosted_recently(games, i, now, keep, h));
            }
        }
        if in_teams(teams, h) && exists|i: int| 0 <= i < games.len() && #[trigger] hosted_recently(games, i, now, keep, h) {
            let i = choose|i: int| 0 <= i < games.len() && #[trigger] hosted_recently(games, i, now, keep, h);
            if i == last {
                assert(r == prev.push(h));
                assert(r[prev.len() as int] == h);
            } else {
                assert(hosted_recently(rest, i, now, keep, h));
                assert(prev.contains(h));
                let k = choose|k: int| 0 <= k < prev.len() && prev[k] == h;
                if kept {
                    assert(r[k] == h);
                }
            }
        }
    }
}

/// Whether a player plays in one of the teams.
pub fn plays_in(teams: &Vec<Vec<UserId>>, u: UserId) -> (r: bool)
    ensures
        r == in_teams(teams@, u),
{
    let mut t: usize = 0;
    while t < teams.len()
        invariant
            t <= teams@.len(),
            forall|a: int, b: int| 0 <= a < t && 0 <= b < teams@[a]@.len() ==> #[trigger] teams@[a]@[b] != u,
        decreases teams@.len() - t,
    {
        let mut i: usize = 0;
        while i < teams[t].len()
            invariant
                t < teams@.len(),
                i <= teams@[t as int]@.len(),
                forall|a: int, b: int| 0 <= a < t && 0 <= b < teams@[a]@.len() ==> #[trigger] teams@[a]@[b] != u,
                forall|b: int| 0 <= b < i ==> #[trigger] teams@[t as int]@[b] != u,
            decreases teams@[t as int]@.len() - i,
        {
            if teams[t][i] == u {
                return true;
            }
            i = i + 1;
        }
        t = t + 1;
    }
    false
}

/// Whether a game that has an end ended no later than `now`.
pub open spec fn ended_by(game: (Option<u64>, Option<UserId>), now: u64) -> bool {
    match game.0 {
        Some(e) => e <= now,
        None => true,
    }
}

/// Picks the hosts of the players' last games that may host again.
pub fn recent_hosts(games: &Vec<(Option<u64>, Option<UserId>)>, teams: &Vec<Vec<UserId>>, now: u64, keep: u64) -> (r: Vec<UserId>)
    requires
        forall|i: int| 0 <= i < games@.len() ==> ended_by(#[trigger] games@[i], now),
    ensures
        r@ == recent_hosts_spec(games@, teams@, now, keep),
        forall|h: UserId| #[trigger] r@.contains(h) <==> in_teams(teams@, h)
            && exists|i: int| 0 <= i < games@.len() && #[trigger] hosted_recently(games@, i, now, keep, h),
{
    let mut r: Vec<UserId> = Vec::new();
    let mut i: usize = 0;
    while i < games.len()
        invariant
            i <= games@.len(),
            forall|i: int| 0 <= i < games@.len() ==> ended_by(#[trigger] games@[i], now),
            r@ == recent_hosts_spec(games@.take(i as int), teams@, now, keep),
        decreases games@.len() - i,
    {
        assert(games@.take(i + 1).drop_last() =~= games@.take(i as int));
        let (end, host) = games[i];
        assert(games@[i as int] == games@[i as int]);
        match (end, host) {
            (Some(e), Some(h)) => {
                if now - e <= keep && plays_in(teams, h) {
                    r.push(h);
                }
            },
            _ => {},
        }
        i = i + 1;
    }
    assert(games@.take(i as int) =~= games@);
    assert forall|h: UserId| #[trigger] r@.contains(h) <==> in_teams(teams@, h)
        && exists|i: int| 0 <= i < games@.len() && #[trigger] hosted_recently(games@, i, now, keep, h) by {
        lemma_recent_hosts_exactly(games@, teams@, now, keep, h);
    }
    r
}

/// How often `c` occurs in `v`.
pub fn count_occurrences(v: &Vec<UserId>, c: UserId) -> (count: usize)
    ensures
        count == occurrences(v@, c),
{
    let n = v.len();
    let mut count: usize = 0;
    let mut j: usize = 0;
    while j < n
        invariant
            n == v@.len(),
            j <= n,
            count == occurrences(v@.take(j as int), c),
            count <= j,
        decreases n - j,
    {
        assert(v@.take(j + 1).drop_last() =~= v@.take(j as int));
        if v[j] == c {
            count = count + 1;
        }
        j = j + 1;
    }
    assert(v@.take(n as int) =~= v@);
    count
}

/// The host of a new match: the candidate named most often (the first in the list, among
/// those named as often), or `None` without candidates.
pub fn choose_host(candidates: &Vec<UserId>) -> (r: Option<UserId>)
    ensures
        candidates@.len() == 0 ==> r is None,
        candidates@.len() > 0 ==> (r matches Some(h) && candidates@.contains(h)
            && (forall|x: UserId| occurrences(candidates@, x) <= #[trigger] occurrences(candidates@, h))
            && exists|k: int| 0 <= k < candidates@.len() && candidates@[k] == h
                && forall|j: int| 0 <= j < k ==> #[trigger] occurrences(candidates@, candidates@[j]) < occurrences(candidates@, h)),
{
    if candidates.len() == 0 {
        return None;
    }
    let n = candidates.len();
    let mut best: usize = 0;
    let mut best_count: usize = 0;
    let mut i: usize = 0;
    while i < n
        invariant
            n == candidates@.len(),
            n > 0,
            i <= n,
            best < n,
            i > 0 ==> best_count == occurrences(candidates@, candidates@[best as int]),
            i > 0 ==> best < i,
            forall|j: int| 0 <= j < i ==> occurrences(candidates@, #[trigger] candidates@[j]) <= best_count,
            forall|j: int| 0 <= j < best ==> occurrences(candidates@, #[trigger] candidates@[j]) < best_count,
        decreases n - i,
    {
        let count = count_occurrences(candidates, candidates[i]);
        if i == 0 || count > best_count {
            best = i;
            best_count = count;
        }
        i = i + 1;
    }
    let h = candidates[best];
    proof {
        assert forall|x: UserId| occurrences(candidates@, x) <= #[trigger] occurrences(candidates@, h) by {
            crate::votes::lemma_occurrences_contains(candidates@, x);
            if occurrences(candidates@, x) > 0 {
                let j = choose|j: int| 0 <= j < n && candidates@[j] == x;
                assert(occurrences(candidates@, candidates@[j]) <= best_count);
            }
        }
        assert(candidates@[best as int] == h);
    }
    Some(h)
}

/// How often the value `v` of a game category occurs among the values the players hold.
pub open spec fn held_count(values: Seq<Vec<usize>>, v: int) -> int
    decreases values.len(),
{
    if values.len() == 0 {
        0
    } else {
        held_count(values.drop_last(), v) + occurrences(values.last()@, v as usize)
    }
}

/// For each value of a game category, how often the players hold it; every value held is
/// below `value_count`.
pub fn category_counts(value_count: usize, values: &Vec<Vec<usize>>) -> (counts: Vec<u64>)
    requires
        values@.len() <= u32::MAX,
        forall|p: int| 0 <= p < values@.len() ==> (#[trigger] values@[p])@.len() <= u32::MAX,
        forall|p: int, k: int| 0 <= p < values@.len() && 0 <= k < values@[p]@.len() ==> #[trigger] values@[p]@[k] < value_count,
    ensures
        counts@.len() == value_count,
        forall|v: int| 0 <= v < value_count ==> #[trigger] counts@[v] == held_count(values@, v),
{
    let mut counts: Vec<u64> = Vec::new();
    let mut v: usize = 0;
    while v < value_count
        invariant
            v <= value_count,
            counts@.len() == v,
            forall|w: int| 0 <= w < v ==> #[trigger] counts@[w] == 0,
        decreases value_count - v,
    {
        counts.push(0);
        v = v + 1;
    }
    let mut p: usize = 0;
    while p < values.len()
        invariant
            p <= values@.len(),
            values@.len() <= u32::MAX,
            counts@.len() == value_count,
            forall|p: int| 0 <= p < values@.len() ==> (#[trigger] values@[p])@.len() <= u32::MAX,
            forall|p: int, k: int| 0 <= p < values@.len() && 0 <= k < values@[p]@.len() ==> #[trigger] values@[p]@[k] < value_count,
            forall|w: int| 0 <= w < value_count ==> #[trigger] counts@[w] == held_count(values@.take(p as int), w),
            forall|w: int| 0 <= w < value_count ==> #[trigger] counts@[w] <= p * 4294967295,
        decreases values@.len() - p,
    {
        assert(values@.take(p + 1).drop_last() =~= values@.take(p as int));
        let ghost before = counts@;
        let m = values[p].len();
        assert((p + 1) * 4294967295 <= 4294967295 * 4294967295) by (nonlinear_arith)
            requires
                p < 4294967295;
        let mut k: usize = 0;
        while k < m
            invariant
                p < values@.len(),
                values@.len() <= u32::MAX,
                m == values@[p as int]@.len(),
                m <= u32::MAX,
                k <= m,
                counts@.len() == value_count,
                (p + 1) * 4294967295 <= 4294967295 * 4294967295,
                forall|k: int| 0 <= k < m ==> #[trigger] values@[p as int]@[k] < value_count,
                forall|w: int| 0 <= w < value_count ==> #[trigger] counts@[w] == before[w]
                    + occurrences(values@[p as int]@.take(k as int), w as usize),
                forall|w: int| 0 <= w < value_count ==> #[trigger] before[w] <= p * 4294967295,
            decreases m - k,
        {
            let x = values[p][k];
            assert(values@[p as int]@.take(k + 1) =~= values@[p as int]@.take(k as int).push(x));
            assert(values@[p as int]@.take(k + 1).drop_last() =~= values@[p as int]@.take(k as int));
            proof {
                crate::votes::lemma_occurrences_bound(values@[p as int]@.take(k as int), x);
            }
            let c = counts[x];
            counts.set(x, c + 1);
            k = k + 1;
        }
        assert(values@[p as int]@.take(m as int) =~= values@[p as int]@);
        proof {
            assert forall|w: int| 0 <= w < value_count implies #[trigger] counts@[w] <= (p + 1) * 4294967295 by {
                crate::votes::lemma_occurrences_bound(values@[p as int]@, w as usize);
            }
        }
        p = p + 1;
    }
    assert(values@.take(p as int) =~= values@);
    counts
}

/// The value of a game category that most players hold (the last such), or 0 when the
/// category has no values.
pub fn most_held_value(counts: &Vec<u64>) -> (r: usize)
    ensures
        counts@.len() == 0 ==> r == 0,
        counts@.len() > 0 ==> r < counts@.len()
            && (forall|j: int| 0 <= j < counts@.len() ==> #[trigger] counts@[j] <= counts@[r as int])
            && (forall|j: int| r < j < counts@.len() ==> #[trigger] counts@[j] < counts@[r as int]),
{
    if counts.len() == 0 {
        return 0;
    }
    let mut best: usize = 0;
    let mut i: usize = 1;
    while i < counts.len()
        invariant
            1 <= i <= counts@.len(),
            best < i,
            forall|j: int| 0 <= j < i ==> #[trigger] counts@[j] <= counts@[best as int],
            forall|j: int| best < j < i ==> #[trigger] counts@[j] < counts@[best as int],
        decreases counts@.len() - i,
    {
        if counts[i] >= counts[best] {
            best = i;
        }
        i = i + 1;
    }
    best
}

} // verus!
