//! Queue bans: who may not queue, until when, and the texts that report them.
use std::collections::HashMap;
use vstd::prelude::*;
use vstd::string::*;
use crate::ids::UserId;
use crate::keys::keys_of;
use crate::text::{joined, lemma_joined_push, push_i64, push_user_mention, signed_decimal, user_mention};
use crate::time::{Timestamp, MAX_TIMESTAMP_SECS};

verus! {

broadcast use {vstd::std_specs::hash::group_hash_axioms, vstd::seq_lib::group_seq_properties};

/// One ban: when it ends (never, if `None`), why, and whether it is hidden from the player.
#[derive(Clone, Debug)]
pub struct BanData {
    pub end_time: Option<Timestamp>,
    pub reason: Option<String>,
    pub shadow_ban: bool,
}

/// Whether a ban still holds at `now`: it has no end, or its end lies after `now`.
pub open spec fn ban_active(ban: BanData, now: Timestamp) -> bool {
    match ban.end_time {
        Some(end) => end.spec_is_after(now),
        None => true,
    }
}

/// The bans that still hold at `now`.
pub open spec fn active_bans(bans: Map<UserId, BanData>, now: Timestamp) -> Map<UserId, BanData> {
    bans.restrict(bans.dom().filter(|k: UserId| ban_active(bans[k], now)))
}

/// Bringing the bans up to date drops exactly those that have ended: a player keeps a ban,
/// unchanged, when it still holds, and loses it otherwise.
pub proof fn lemma_active_bans(bans: Map<UserId, BanData>, now: Timestamp, user: UserId)
    ensures
        active_bans(bans, now).contains_key(user) <==> bans.contains_key(user) && ban_active(bans[user], now),
        active_bans(bans, now).contains_key(user) ==> active_bans(bans, now)[user] == bans[user],
{
}

/// The length of a ban given in days and hours, in seconds.
pub open spec fn ban_seconds(days: Option<u32>, hours: Option<u32>) -> int {
    3600 * (24 * match days { Some(d) => d as int, None => 0int } + match hours { Some(h) => h as int, None => 0int })
}

/// The length of a ban given in days and hours, in seconds.
pub fn ban_length(days: Option<u32>, hours: Option<u32>) -> (r: i64)
    ensures
        r == ban_seconds(days, hours),
{
    let d: i64 = match days { Some(d) => d as i64, None => 0 };
    let h: i64 = match hours { Some(h) => h as i64, None => 0 };
    60 * 60 * (24 * d + h)
}

/// When a ban of the given length that starts at `now` ends: never for a length of zero.
pub open spec fn ban_end(now: Timestamp, days: Option<u32>, hours: Option<u32>) -> Option<Timestamp> {
    if ban_seconds(days, hours) > 0 {
        Some(Timestamp { secs: (now.secs + ban_seconds(days, hours)) as i64, nanos: now.nanos })
    } else {
        None
    }
}

/// The line that describes a ban: `<@id>[ shadow] banned[ for reason][ until <t:end:f>]`.
pub open spec fn ban_text(id: UserId, ban: BanData) -> Seq<char> {
    user_mention(id)
        + (if ban.shadow_ban { " shadow"@ } else { Seq::empty() })
        + " banned"@
        + match ban.reason { Some(r) => " for "@ + r@, None => Seq::empty() }
        + match ban.end_time { Some(e) => " until <t:"@ + signed_decimal(e.secs as int) + ":f>"@, None => Seq::empty() }
}

/// The message that refuses a queue to a player under a visible ban.
pub open spec fn ban_refusal(ban: BanData) -> Seq<char> {
    match ban.reason {
        Some(r) => "Cannot queue because you're banned for "@ + r@,
        None => "Cannot queue because you're banned"@,
    }
}

/// The text that describes a ban, built from its parts.
pub fn get_ban_text(id: UserId, ban: &BanData) -> (s: String)
    ensures
        s@ == ban_text(id, *ban),
{
    let mut s = String::new();
    push_user_mention(&mut s, id);
    if ban.shadow_ban {
        s.append(" shadow");
    }
    s.append(" banned");
    match &ban.reason {
        Some(r) => {
            s.append(" for ");
            s.append(r.as_str());
        },
        None => {},
    }
    match &ban.end_time {
        Some(e) => {
            s.append(" until <t:");
            push_i64(&mut s, e.secs);
            s.append(":f>");
        },
        None => {},
    }
    assert(s@ =~= ban_text(id, *ban));
    s
}

/// What banning a player reports.
pub struct BanReply {
    /// The line that describes the new ban.
    pub ban_text: String,
    /// The reply to the moderator: the line, prefixed by `Ban updated: ` when the player was banned before.
    pub response: String,
    /// Whether a ban of the player was replaced.
    pub previously_banned: bool,
}

/// The bans of one queue, by player.
pub struct BanList {
    pub bans: HashMap<UserId, BanData>,
}

impl View for BanList {
    type V = Map<UserId, BanData>;

    open spec fn view(&self) -> Map<UserId, BanData> {
        self.bans@
    }
}

impl BanList {
    /// No bans.
    pub fn new() -> (r: BanList)
        ensures
            r@ == Map::<UserId, BanData>::empty(),
    {
        BanList { bans: HashMap::new() }
    }

    /// Drops the bans that have ended by `now`; keeps the others unchanged.
    pub fn update_bans(&mut self, now: Timestamp)
        ensures
            final(self)@ == active_bans(old(self)@, now),
    {
        let ghost start = self@;
        let keys = keys_of(&self.bans);
        let n = keys.len();
        let mut i: usize = 0;
        while i < n
            invariant
                n == keys@.len(),
                i <= n,
                keys@.no_duplicates(),
                keys@.to_set() == start.dom(),
                self@ == start.restrict(start.dom().filter(|k: UserId|
                    !keys@.take(i as int).contains(k) || ban_active(start[k], now))),
            decreases n - i,
        {
            let k = keys[i];
            proof {
                assert(keys@.to_set().contains(k));
                assert(!keys@.take(i as int).contains(k)) by {
                    if keys@.take(i as int).contains(k) {
                        let j = choose|j: int| 0 <= j < i && keys@[j] == k;
                        assert(keys@[j] == keys@[i as int]);
                    }
                }
                assert(self@.contains_key(k));
                assert(self@[k] == start[k]);
            }
            let keep = match self.bans.get(&k) {
                Some(ban) => match ban.end_time {
                    Some(end) => end.is_after(now),
                    None => true,
                },
                None => true,
            };
            assert(keep == ban_active(start[k], now));
            if !keep {
                self.bans.remove(&k);
            }
            proof {
                assert forall|x: UserId| #[trigger] keys@.take(i + 1).contains(x)
                    <==> (keys@.take(i as int).contains(x) || x == k) by {
                    assert(keys@.take(i + 1) =~= keys@.take(i as int).push(k));
                }
                assert(keys@.take(i + 1) =~= keys@.take(i as int).push(k));
                assert(self@ =~= start.restrict(start.dom().filter(|x: UserId|
                    !keys@.take(i + 1).contains(x) || ban_active(start[x], now))));
            }
            i = i + 1;
        }
        proof {
            assert(keys@.take(n as int) =~= keys@);
            assert(self@ =~= start.restrict(start.dom().filter(|k: UserId| ban_active(start[k], now))));
        }
    }

    /// Bans a player, after dropping the bans that have ended: the ban lasts the given days
    /// and hours from `now` (forever if both are absent or zero) and replaces any earlier ban.
    pub fn ban_player(
        &mut self,
        player: UserId,
        reason: Option<String>,
        days: Option<u32>,
        hours: Option<u32>,
        is_shadow_ban: Option<bool>,
        now: Timestamp,
    ) -> (r: BanReply)
        requires
            now.secs + ban_seconds(days, hours) <= MAX_TIMESTAMP_SECS,
        ensures
            ({
                let updated = active_bans(old(self)@, now);
                let ban = BanData {
                    end_time: ban_end(now, days, hours),
                    reason: reason,
                    shadow_ban: match is_shadow_ban { Some(b) => b, None => false },
                };
                &&& final(self)@ == updated.insert(player, ban)
                &&& r.previously_banned == updated.contains_key(player)
                &&& r.ban_text@ == ban_text(player, ban)
                &&& r.response@ == if r.previously_banned { "Ban updated: "@ + ban_text(player, ban) } else { ban_text(player, ban) }
            }),
    {
        self.update_bans(now);
        let secs: i64 = ban_length(days, hours);
        let end_time = if secs > 0 {
            Some(Timestamp { secs: now.secs + secs, nanos: now.nanos })
        } else {
            None
        };
        let ban = BanData {
            end_time,
            reason,
            shadow_ban: match is_shadow_ban { Some(b) => b, None => false },
        };
        let ban_text = get_ban_text(player, &ban);
        let previously_banned = self.bans.contains_key(&player);
        self.bans.insert(player, ban);
        let mut response = String::new();
        if previously_banned {
            response.append("Ban updated: ");
        }
        response.append(ban_text.as_str());
        BanReply { ban_text, response, previously_banned }
    }

    /// Lifts a player's ban, after dropping the bans that have ended; says whether there was one.
    pub fn unban_player(&mut self, player: UserId, now: Timestamp) -> (was_banned: bool)
        ensures
            ({
                let updated = active_bans(old(self)@, now);
                &&& final(self)@ == updated.remove(player)
                &&& was_banned == updated.contains_key(player)
            }),
    {
        self.update_bans(now);
        let was_banned = self.bans.contains_key(&player);
        self.bans.remove(&player);
        was_banned
    }

    /// Whether the player has a ban (hidden or not).
    pub fn is_banned(&self, player: UserId) -> (r: bool)
        ensures
            r == self@.contains_key(player),
    {
        self.bans.contains_key(&player)
    }

    /// Why a player may not queue: `Some` with the message when the player has a ban
    /// that is not a shadow ban, `None` otherwise.
    pub fn queue_refusal(&self, player: UserId) -> (r: Option<String>)
        ensures
            match r {
                Some(m) => self@.contains_key(player) && !self@[player].shadow_ban
                    && m@ == ban_refusal(self@[player]),
                None => !self@.contains_key(player) || self@[player].shadow_ban,
            },
    {
        match self.bans.get(&player) {
            Some(ban) => {
                if ban.shadow_ban {
                    None
                } else {
                    let mut m = String::new();
                    match &ban.reason {
                        Some(reason) => {
                            m.append("Cannot queue because you're banned for ");
                            m.append(reason.as_str());
                        },
                        None => {
                            m.append("Cannot queue because you're banned");
                        },
                    }
                    Some(m)
                }
            },
            None => None,
        }
    }

    /// The list of bans: `# Player Bans` and one line per ban, in some order of the players.
    pub fn list_text(&self) -> (s: String)
        ensures
            exists|order: Seq<UserId>| {
                &&& order.no_duplicates()
                &&& order.to_set() == self@.dom()
                &&& s@ == "# Player Bans\n"@ + joined(order.map_values(|id: UserId| ban_text(id, self@[id])), "\n"@)
            },
    {
        let keys = keys_of(&self.bans);
        let mut s = String::new();
        s.append("# Player Bans\n");
        let ghost start = s@;
        let n = keys.len();
        let mut i: usize = 0;
        while i < n
            invariant
                n == keys@.len(),
                i <= n,
                keys@.to_set() == self@.dom(),
                s@ == start + joined(keys@.take(i as int).map_values(|id: UserId| ban_text(id, self@[id])), "\n"@),
            decreases n - i,
        {
            let k = keys[i];
            let ghost prev = keys@.take(i as int).map_values(|id: UserId| ban_text(id, self@[id]));
            proof {
                assert(keys@.to_set().contains(k));
            }
            if i > 0 {
                s.append("\n");
            }
            match self.bans.get(&k) {
                Some(ban) => {
                    let line = get_ban_text(k, ban);
                    s.append(line.as_str());
                },
                None => {},
            }
            proof {
                assert(keys@.take(i + 1).map_values(|id: UserId| ban_text(id, self@[id]))
                    =~= prev.push(ban_text(k, self@[k])));
                lemma_joined_push(prev, "\n"@, ban_text(k, self@[k]));
            }
            i = i + 1;
        }
        assert(keys@.take(n as int) =~= keys@);
        s
    }
}

} // verus!
