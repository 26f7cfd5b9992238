//! The ids of the bot's message buttons: how they are written and how a pressed button is
//! recognised.
use vstd::prelude::*;
use vstd::string::*;
use crate::ids::UserId;
use crate::text::{decimal, digit_char, push_u64};

verus! {

/// Whether `s` begins with `prefix`.
pub open spec fn starts_with(s: Seq<char>, prefix: Seq<char>) -> bool {
    prefix.len() <= s.len() && s.take(prefix.len() as int) == prefix
}

/// What follows `prefix` in `s`, when `s` begins with it.
pub open spec fn spec_strip_prefix(s: Seq<char>, prefix: Seq<char>) -> Option<Seq<char>> {
    if starts_with(s, prefix) { Some(s.skip(prefix.len() as int)) } else { None }
}

/// What follows `prefix` in `s`, when `s` begins with it.
pub fn strip_prefix(s: &str, prefix: &str) -> (r: Option<String>)
    ensures
        match r {
            Some(rest) => spec_strip_prefix(s@, prefix@) == Some(rest@),
            None => spec_strip_prefix(s@, prefix@) is None,
        },
{
    let n = s.unicode_len();
    let m = prefix.unicode_len();
    if m > n {
        return None;
    }
    let mut i: usize = 0;
    while i < m
        invariant
            n == s@.len(),
            m == prefix@.len(),
            m <= n,
            i <= m,
            forall|j: int| 0 <= j < i ==> s@[j] == prefix@[j],
        decreases m - i,
    {
        if s.get_char(i) != prefix.get_char(i) {
            assert(s@.take(m as int)[i as int] != prefix@[i as int]);
            return None;
        }
        i = i + 1;
    }
    assert(s@.take(m as int) =~= prefix@);
    let rest = s.substring_char(m, n);
    assert(rest@ =~= s@.skip(m as int));
    Some(String::from_str(rest))
}

/// The code of a character with ASCII capitals made small.
pub open spec fn ascii_lower(c: char) -> u32 {
    if 'A' <= c && c <= 'Z' { ((c as u32) + 32) as u32 } else { c as u32 }
}

/// Whether two texts are equal when ASCII capitals count as small letters.
pub open spec fn spec_eq_ignore_ascii_case(a: Seq<char>, b: Seq<char>) -> bool {
    a.len() == b.len() && forall|i: int| 0 <= i < a.len() ==> ascii_lower(#[trigger] a[i]) == ascii_lower(b[i])
}

fn lower(c: char) -> (r: u32)
    ensures
        r == ascii_lower(c),
{
    if 'A' <= c && c <= 'Z' {
        c as u32 + 32
    } else {
        c as u32
    }
}

/// Whether two texts are equal when ASCII capitals count as small letters.
pub fn eq_ignore_ascii_case(a: &str, b: &str) -> (r: bool)
    ensures
        r == spec_eq_ignore_ascii_case(a@, b@),
{
    let n = a.unicode_len();
    if n != b.unicode_len() {
        return false;
    }
    let mut i: usize = 0;
    while i < n
        invariant
            n == a@.len(),
            n == b@.len(),
            i <= n,
            forall|j: int| 0 <= j < i ==> ascii_lower(#[trigger] a@[j]) == ascii_lower(b@[j]),
        decreases n - i,
    {
        if lower(a.get_char(i)) != lower(b.get_char(i)) {
            return false;
        }
        i = i + 1;
    }
    true
}

/// Whether a character is a decimal digit.
pub open spec fn is_digit(c: char) -> bool {
    '0' <= c && c <= '9'
}

/// The value of a string of decimal digits.
pub open spec fn digits_value(s: Seq<char>) -> nat
    decreases s.len(),
{
    if s.len() == 0 {
        0
    } else {
        digits_value(s.drop_last()) * 10 + ((s.last() as u32) - ('0' as u32)) as nat
    }
}

/// How an unsigned integer is read from text: an optional `+`, then at least one decimal
/// digit and nothing else; `None` when the text is not of that form or the value exceeds
/// `max`.
pub open spec fn parse_unsigned(s: Seq<char>, max: nat) -> Option<nat> {
    if unsigned_body(s).len() == 0 || !all_digits(unsigned_body(s)) {
        None
    } else if digits_value(unsigned_body(s)) > max {
        None
    } else {
        Some(digits_value(unsigned_body(s)))
    }
}

/// The text of a number without its optional leading `+`.
pub open spec fn unsigned_body(s: Seq<char>) -> Seq<char> {
    if s.len() > 0 && s[0] == '+' { s.skip(1) } else { s }
}

/// Whether every character is a decimal digit.
pub open spec fn all_digits(s: Seq<char>) -> bool {
    forall|i: int| 0 <= i < s.len() ==> is_digit(#[trigger] s[i])
}

fn parse_digits(s: &str, max: u64) -> (r: Option<u64>)
    ensures
        match r {
            Some(v) => parse_unsigned(s@, max as nat) == Some(v as nat),
            None => parse_unsigned(s@, max as nat) is None,
        },
{
    let n = s.unicode_len();
    let mut start: usize = 0;
    if n > 0 && s.get_char(0) == '+' {
        start = 1;
    }
    let ghost body = unsigned_body(s@);
    assert(body =~= s@.skip(start as int));
    if start == n {
        return None;
    }
    let mut value: u64 = 0;
    let mut i: usize = start;
    while i < n
        invariant
            n == s@.len(),
            start <= i <= n,
            body == s@.skip(start as int),
            body == unsigned_body(s@),
            value <= max,
            value == digits_value(body.take(i - start)),
            forall|j: int| 0 <= j < i - start ==> is_digit(#[trigger] body[j]),
        decreases n - i,
    {
        let c = s.get_char(i);
        assert(body[i - start] == c);
        if !('0' <= c && c <= '9') {
            assert(!is_digit(body[i - start]));
            assert(!all_digits(body));
            assert(body == unsigned_body(s@));
            return None;
        }
        let d: u64 = (c as u32 - '0' as u32) as u64;
        assert(body.take(i + 1 - start).drop_last() =~= body.take(i - start));
        assert(digits_value(body.take(i + 1 - start)) == value * 10 + d);
        if d > max || value > (max - d) / 10 {
            assert(value * 10 + d > max) by (nonlinear_arith)
                requires
                    d > max || value > (max - d) / 10,
                    d <= 9;
            proof {
                if all_digits(body) {
                    lemma_digits_value_prefix_grows(body, (i + 1 - start) as int);
                    assert(digits_value(body) > max);
                }
                assert(body == unsigned_body(s@));
            }
            return None;
        }
        assert(value * 10 + d <= max) by (nonlinear_arith)
            requires
                value <= (max - d) / 10,
                d <= max;
        value = value * 10 + d;
        i = i + 1;
    }
    assert(body.take(n - start) =~= body);
    Some(value)
}

/// A longer run of digits never has a smaller value than its beginning.
proof fn lemma_digits_value_prefix_grows(body: Seq<char>, k: int)
    requires
        0 <= k <= body.len(),
        all_digits(body),
    ensures
        digits_value(body) >= digits_value(body.take(k)),
    decreases body.len() - k,
{
    if k < body.len() {
        lemma_digits_value_prefix_grows(body, k + 1);
        assert(body.take(k + 1).drop_last() =~= body.take(k));
        let v = digits_value(body.take(k));
        assert(is_digit(body[k]));
        assert(body.take(k + 1).last() == body[k]);
        assert(digits_value(body.take(k + 1)) == v * 10 + ((body[k] as u32) - ('0' as u32)) as nat);
        assert(v * 10 >= v) by (nonlinear_arith);
    } else {
        assert(body.take(k) =~= body);
    }
}

/// Reads an unsigned 32-bit number, as Rust's `str::parse::<u32>` does.
pub fn parse_u32(s: &str) -> (r: Option<u32>)
    ensures
        match r {
            Some(v) => parse_unsigned(s@, u32::MAX as nat) == Some(v as nat),
            None => parse_unsigned(s@, u32::MAX as nat) is None,
        },
{
    match parse_digits(s, u32::MAX as u64) {
        Some(v) => Some(v as u32),
        None => None,
    }
}

/// Reads an unsigned 64-bit number, as Rust's `str::parse::<u64>` does.
pub fn parse_u64(s: &str) -> (r: Option<u64>)
    ensures
        match r {
            Some(v) => parse_unsigned(s@, u64::MAX as nat) == Some(v as nat),
            None => parse_unsigned(s@, u64::MAX as nat) is None,
        },
{
    parse_digits(s, u64::MAX)
}

proof fn lemma_digit_char_value(d: int)
    requires
        0 <= d < 10,
    ensures
        is_digit(digit_char(d)),
        (digit_char(d) as u32) - ('0' as u32) == d,
        digit_char(d) != '+',
{
    if d == 0 {} else if d == 1 {} else if d == 2 {} else if d == 3 {} else if d == 4 {}
    else if d == 5 {} else if d == 6 {} else if d == 7 {} else if d == 8 {} else {}
}

proof fn lemma_decimal_digits(n: nat)
    ensures
        decimal(n).len() > 0,
        all_digits(decimal(n)),
        decimal(n)[0] != '+',
        digits_value(decimal(n)) == n,
    decreases n,
{
    lemma_digit_char_value((n % 10) as int);
    if n >= 10 {
        lemma_decimal_digits(n / 10);
        let d = decimal(n / 10);
        assert(decimal(n).drop_last() =~= d);
        assert(decimal(n)[0] == d[0]);
        assert forall|i: int| 0 <= i < decimal(n).len() implies is_digit(#[trigger] decimal(n)[i]) by {
            if i < d.len() {
                assert(decimal(n)[i] == d[i]);
            }
        }
        assert(decimal(n).last() == digit_char((n % 10) as int));
        assert(digits_value(decimal(n)) == digits_value(d) * 10 + ((digit_char((n % 10) as int) as u32) - ('0' as u32)) as nat);
        assert(digits_value(decimal(n)) == (n / 10) * 10 + n % 10);
        assert((n / 10) * 10 + n % 10 == n) by (nonlinear_arith);
    } else {
        assert(decimal(n).drop_last() =~= Seq::<char>::empty());
        assert(decimal(n).last() == digit_char(n as int));
        assert(digits_value(Seq::<char>::empty()) == 0);
        assert(n % 10 == n);
        assert(digits_value(decimal(n)) == digits_value(Seq::<char>::empty()) * 10 + ((digit_char(n as int) as u32) - ('0' as u32)) as nat);
    }
}

/// Reading back the decimal text of a number gives the number.
pub proof fn lemma_parse_decimal(n: nat, max: nat)
    requires
        n <= max,
    ensures
        parse_unsigned(decimal(n), max) == Some(n),
{
    lemma_decimal_digits(n);
    assert(unsigned_body(decimal(n)) == decimal(n));
}

/// A button of a match channel.
#[derive(Clone, Debug)]
pub enum MatchButton {
    /// Offer to host the lobby.
    VolunteerHost,
    /// A vote for a map, with its name.
    MapVote(String),
    /// A vote for a team's win, with the team number as written.
    TeamVote(String),
    Tie,
    Cancel,
    /// Any other button.
    Other,
}

/// How a button of a match channel is recognised, in the order the bot checks.
pub open spec fn match_button_spec(id: Seq<char>) -> (Option<Seq<char>>, int) {
    if spec_eq_ignore_ascii_case(id, "volunteer_host"@) {
        (None, 0)
    } else if spec_strip_prefix(id, "map_"@) is Some {
        (spec_strip_prefix(id, "map_"@), 1)
    } else if spec_strip_prefix(id, "team_"@) is Some {
        (spec_strip_prefix(id, "team_"@), 2)
    } else if spec_eq_ignore_ascii_case(id, "tie"@) {
        (None, 3)
    } else if spec_eq_ignore_ascii_case(id, "cancel"@) {
        (None, 4)
    } else {
        (None, 5)
    }
}

/// The kind and the text carried of a match button, as [`match_button_spec`] gives them.
pub open spec fn match_button_view(b: MatchButton) -> (Option<Seq<char>>, int) {
    match b {
        MatchButton::VolunteerHost => (None, 0),
        MatchButton::MapVote(m) => (Some(m@), 1),
        MatchButton::TeamVote(t) => (Some(t@), 2),
        MatchButton::Tie => (None, 3),
        MatchButton::Cancel => (None, 4),
        MatchButton::Other => (None, 5),
    }
}

/// Recognises a button of a match channel from its id.
pub fn classify_match_button(id: &str) -> (r: MatchButton)
    ensures
        match_button_view(r) == match_button_spec(id@),
{
    if eq_ignore_ascii_case(id, "volunteer_host") {
        return MatchButton::VolunteerHost;
    }
    match strip_prefix(id, "map_") {
        Some(m) => { return MatchButton::MapVote(m); },
        None => {},
    }
    match strip_prefix(id, "team_") {
        Some(t) => { return MatchButton::TeamVote(t); },
        None => {},
    }
    if eq_ignore_ascii_case(id, "tie") {
        MatchButton::Tie
    } else if eq_ignore_ascii_case(id, "cancel") {
        MatchButton::Cancel
    } else {
        MatchButton::Other
    }
}

/// Any other button of the bot's messages.
#[derive(Clone, Debug)]
pub enum ComponentButton {
    /// Accept a party invitation; the party as written.
    JoinParty(String),
    /// Decline a party invitation; the party as written.
    RejectParty(String),
    /// Deny having left a match; the player as written.
    LeaverCheck(String),
    /// Confirm staying in the queue.
    QueueCheck,
    Queue,
    LeaveQueue,
    /// Leave the queue from an idle check; the queue as written.
    AfkLeaveQueue(String),
    Status,
    Other,
}

/// How a button is recognised, in the order the bot checks.
pub open spec fn component_button_spec(id: Seq<char>) -> (Option<Seq<char>>, int) {
    if spec_strip_prefix(id, "join_party_"@) is Some {
        (spec_strip_prefix(id, "join_party_"@), 0)
    } else if spec_strip_prefix(id, "reject_party_"@) is Some {
        (spec_strip_prefix(id, "reject_party_"@), 1)
    } else if spec_strip_prefix(id, "leaver_check_"@) is Some {
        (spec_strip_prefix(id, "leaver_check_"@), 2)
    } else if id == "queue_check"@ {
        (None, 3)
    } else if id == "queue"@ {
        (None, 4)
    } else if id == "leave_queue"@ {
        (None, 5)
    } else if spec_strip_prefix(id, "afk_leave_queue_"@) is Some {
        (spec_strip_prefix(id, "afk_leave_queue_"@), 6)
    } else if id == "status"@ {
        (None, 7)
    } else {
        (None, 8)
    }
}

/// The kind and the text carried of a button, as [`component_button_spec`] gives them.
pub open spec fn component_button_view(b: ComponentButton) -> (Option<Seq<char>>, int) {
    match b {
        ComponentButton::JoinParty(p) => (Some(p@), 0),
        ComponentButton::RejectParty(p) => (Some(p@), 1),
        ComponentButton::LeaverCheck(p) => (Some(p@), 2),
        ComponentButton::QueueCheck => (None, 3),
        ComponentButton::Queue => (None, 4),
        ComponentButton::LeaveQueue => (None, 5),
        ComponentButton::AfkLeaveQueue(q) => (Some(q@), 6),
        ComponentButton::Status => (None, 7),
        ComponentButton::Other => (None, 8),
    }
}

/// Whether two texts are equal.
pub fn str_eq(a: &str, b: &str) -> (r: bool)
    ensures
        r == (a@ == b@),
{
    let n = a.unicode_len();
    if n != b.unicode_len() {
        return false;
    }
    let mut i: usize = 0;
    while i < n
        invariant
            n == a@.len(),
            n == b@.len(),
            i <= n,
            forall|j: int| 0 <= j < i ==> a@[j] == b@[j],
        decreases n - i,
    {
        if a.get_char(i) != b.get_char(i) {
            return false;
        }
        i = i + 1;
    }
    assert(a@ =~= b@);
    true
}

/// Recognises a button from its id.
pub fn classify_component_button(id: &str) -> (r: ComponentButton)
    ensures
        component_button_view(r) == component_button_spec(id@),
{
    match strip_prefix(id, "join_party_") {
        Some(p) => { return ComponentButton::JoinParty(p); },
        None => {},
    }
    match strip_prefix(id, "reject_party_") {
        Some(p) => { return ComponentButton::RejectParty(p); },
        None => {},
    }
    match strip_prefix(id, "leaver_check_") {
        Some(p) => { return ComponentButton::LeaverCheck(p); },
        None => {},
    }
    if str_eq(id, "queue_check") {
        return ComponentButton::QueueCheck;
    }
    if str_eq(id, "queue") {
        return ComponentButton::Queue;
    }
    if str_eq(id, "leave_queue") {
        return ComponentButton::LeaveQueue;
    }
    match strip_prefix(id, "afk_leave_queue_") {
        Some(q) => { return ComponentButton::AfkLeaveQueue(q); },
        None => {},
    }
    if str_eq(id, "status") {
        ComponentButton::Status
    } else {
        ComponentButton::Other
    }
}

/// The id of the button that votes for team `team` (counted from zero): `team_N`.
pub fn team_button_id(team: u32) -> (s: String)
    ensures
        s@ == "team_"@ + decimal(team as nat),
{
    let mut s = String::from_str("team_");
    push_u64(&mut s, team as u64);
    s
}

/// The id of the button that votes for a map: `map_<name>`.
pub fn map_button_id(map: &str) -> (s: String)
    ensures
        s@ == "map_"@ + map@,
{
    let mut s = String::from_str("map_");
    s.append(map);
    s
}

/// The id of the button with which a player denies having left: `leaver_check_<id>`.
pub fn leaver_check_button_id(player: UserId) -> (s: String)
    ensures
        s@ == "leaver_check_"@ + decimal(player as nat),
{
    let mut s = String::from_str("leaver_check_");
    push_u64(&mut s, player as u64);
    s
}

/// A team vote button is recognised as a vote for that team, and its number reads back.
pub proof fn lemma_team_button_round_trip(team: u32)
    ensures
        match_button_spec("team_"@ + decimal(team as nat)) == (Some(decimal(team as nat)), 2int),
        parse_unsigned(decimal(team as nat), u32::MAX as nat) == Some(team as nat),
{
    let id = "team_"@ + decimal(team as nat);
    reveal_strlit("team_");
    reveal_strlit("volunteer_host");
    reveal_strlit("map_");
    assert(id.take(5) =~= "team_"@);
    assert(id.skip(5) =~= decimal(team as nat));
    assert(!spec_eq_ignore_ascii_case(id, "volunteer_host"@)) by {
        if id.len() == "volunteer_host"@.len() {
            assert(ascii_lower(id[0]) != ascii_lower("volunteer_host"@[0]));
        }
    }
    assert(!starts_with(id, "map_"@)) by {
        assert(id.take(4)[0] != "map_"@[0]);
    }
    lemma_parse_decimal(team as nat, u32::MAX as nat);
}

/// A map vote button is recognised as a vote for that map.
pub proof fn lemma_map_button_round_trip(map: Seq<char>)
    ensures
        match_button_spec("map_"@ + map) == (Some(map), 1int),
{
    let id = "map_"@ + map;
    reveal_strlit("volunteer_host");
    reveal_strlit("map_");
    assert(id.take(4) =~= "map_"@);
    assert(id.skip(4) =~= map);
    assert(!spec_eq_ignore_ascii_case(id, "volunteer_host"@)) by {
        if id.len() == "volunteer_host"@.len() {
            assert(ascii_lower(id[0]) != ascii_lower("volunteer_host"@[0]));
        }
    }
}

/// A leaver check button is recognised as such, and the player's id reads back.
pub proof fn lemma_leaver_check_round_trip(player: UserId)
    ensures
        component_button_spec("leaver_check_"@ + decimal(player as nat)) == (Some(decimal(player as nat)), 2int),
        parse_unsigned(decimal(player as nat), u64::MAX as nat) == Some(player as nat),
{
    let id = "leaver_check_"@ + decimal(player as nat);
    reveal_strlit("leaver_check_");
    reveal_strlit("join_party_");
    reveal_strlit("reject_party_");
    assert(id.take(13) =~= "leaver_check_"@);
    assert(id.skip(13) =~= decimal(player as nat));
    assert(!starts_with(id, "join_party_"@)) by {
        assert(id.take(11)[0] != "join_party_"@[0]);
    }
    assert(!starts_with(id, "reject_party_"@)) by {
        assert(id.take(13)[0] != "reject_party_"@[0]);
    }
    lemma_parse_decimal(player as nat, u64::MAX as nat);
}

} // verus!
