//! Building the bot's reply texts: decimal numbers, Discord mentions and lists.
use vstd::prelude::*;
use vstd::string::*;

verus! {

/// The character of a decimal digit.
pub open spec fn digit_char(d: int) -> char {
    if d == 0 { '0' } else if d == 1 { '1' } else if d == 2 { '2' } else if d == 3 { '3' }
    else if d == 4 { '4' } else if d == 5 { '5' } else if d == 6 { '6' } else if d == 7 { '7' }
    else if d == 8 { '8' } else { '9' }
}

/// The decimal representation of a natural number, without leading zeros.
pub open spec fn decimal(n: nat) -> Seq<char>
    decreases n,
{
    if n < 10 {
        seq![digit_char(n as int)]
    } else {
        decimal(n / 10).push(digit_char((n % 10) as int))
    }
}

fn digit_str(d: u64) -> (s: &'static str)
    requires
        d < 10,
    ensures
        s@ == seq![digit_char(d as int)],
{
    proof {
        reveal_strlit("0");
        reveal_strlit("1");
        reveal_strlit("2");
        reveal_strlit("3");
        reveal_strlit("4");
        reveal_strlit("5");
        reveal_strlit("6");
        reveal_strlit("7");
        reveal_strlit("8");
        reveal_strlit("9");
    }
    if d == 0 { "0" } else if d == 1 { "1" } else if d == 2 { "2" } else if d == 3 { "3" }
    else if d == 4 { "4" } else if d == 5 { "5" } else if d == 6 { "6" } else if d == 7 { "7" }
    else if d == 8 { "8" } else { "9" }
}

/// Appends the decimal representation of `n`.
pub fn push_u64(s: &mut String, n: u64)
    ensures
        final(s)@ == old(s)@ + decimal(n as nat),
    decreases n,
{
    if n >= 10 {
        push_u64(s, n / 10);
        s.append(digit_str(n % 10));
    } else {
        s.append(digit_str(n));
    }
}


/// The decimal representation of an integer, with a leading minus sign when negative.
pub open spec fn signed_decimal(n: int) -> Seq<char> {
    if n < 0 {
        seq!['-'] + decimal((-n) as nat)
    } else {
        decimal(n as nat)
    }
}

/// Appends the decimal representation of a signed number.
pub fn push_i64(s: &mut String, n: i64)
    ensures
        final(s)@ == old(s)@ + signed_decimal(n as int),
{
    if n < 0 {
        proof {
            reveal_strlit("-");
        }
        s.append("-");
        let m: u64 = (0i128 - n as i128) as u64;
        push_u64(s, m);
    } else {
        push_u64(s, n as u64);
    }
}

/// How Discord writes a mention of a user: `<@id>`.
pub open spec fn user_mention(id: u64) -> Seq<char> {
    seq!['<', '@'] + decimal(id as nat) + seq!['>']
}

/// How Discord writes a mention of a channel: `<#id>`.
pub open spec fn channel_mention(id: u64) -> Seq<char> {
    seq!['<', '#'] + decimal(id as nat) + seq!['>']
}

/// How Discord writes a mention of a role: `<@&id>`.
pub open spec fn role_mention(id: u64) -> Seq<char> {
    seq!['<', '@', '&'] + decimal(id as nat) + seq!['>']
}

/// Appends a mention of a user.
pub fn push_user_mention(s: &mut String, id: u64)
    ensures
        final(s)@ == old(s)@ + user_mention(id),
{
    proof {
        reveal_strlit("<@");
        reveal_strlit(">");
    }
    s.append("<@");
    push_u64(s, id);
    s.append(">");
}

/// Appends a mention of a channel.
pub fn push_channel_mention(s: &mut String, id: u64)
    ensures
        final(s)@ == old(s)@ + channel_mention(id),
{
    proof {
        reveal_strlit("<#");
        reveal_strlit(">");
    }
    s.append("<#");
    push_u64(s, id);
    s.append(">");
}

/// Appends a mention of a role.
pub fn push_role_mention(s: &mut String, id: u64)
    ensures
        final(s)@ == old(s)@ + role_mention(id),
{
    proof {
        reveal_strlit("<@&");
        reveal_strlit(">");
    }
    s.append("<@&");
    push_u64(s, id);
    s.append(">");
}

/// The pieces joined with a separator between each two of them.
pub open spec fn joined(parts: Seq<Seq<char>>, sep: Seq<char>) -> Seq<char>
    decreases parts.len(),
{
    if parts.len() == 0 {
        Seq::empty()
    } else if parts.len() == 1 {
        parts[0]
    } else {
        joined(parts.drop_last(), sep) + sep + parts.last()
    }
}

/// The views of strings, joined by a separator.
pub open spec fn joined_strings(items: Seq<String>, sep: Seq<char>) -> Seq<char> {
    joined(items.map_values(|x: String| x@), sep)
}

/// Adding a piece at the end adds the separator and the piece to the joined text.
pub proof fn lemma_joined_push(parts: Seq<Seq<char>>, sep: Seq<char>, p: Seq<char>)
    ensures
        joined(parts.push(p), sep) == if parts.len() == 0 { p } else { joined(parts, sep) + sep + p },
{
    assert(parts.push(p).drop_last() =~= parts);
}

/// Kind of Discord mention.
#[derive(Clone, Copy, PartialEq, Eq, Debug)]
pub enum MentionKind {
    User,
    Channel,
    Role,
}

/// The mention of an id of the given kind.
pub open spec fn mention_of(kind: MentionKind, id: u64) -> Seq<char> {
    match kind {
        MentionKind::User => user_mention(id),
        MentionKind::Channel => channel_mention(id),
        MentionKind::Role => role_mention(id),
    }
}

/// The mentions of ids of one kind, joined by a separator.
pub open spec fn joined_mentions(kind: MentionKind, ids: Seq<u64>, sep: Seq<char>) -> Seq<char> {
    joined(ids.map_values(|id: u64| mention_of(kind, id)), sep)
}

/// Appends the mentions of ids of one kind, joined by `sep`.
pub fn push_mentions(s: &mut String, kind: MentionKind, ids: &Vec<u64>, sep: &str)
    ensures
        final(s)@ == old(s)@ + joined_mentions(kind, ids@, sep@),
{
    let ghost start = s@;
    let n = ids.len();
    let mut i: usize = 0;
    while i < n
        invariant
            n == ids.len(),
            i <= n,
            s@ == start + joined_mentions(kind, ids@.take(i as int), sep@),
        decreases n - i,
    {
        let ghost prev = ids@.take(i as int).map_values(|id: u64| mention_of(kind, id));
        if i > 0 {
            s.append(sep);
        }
        match kind {
            MentionKind::User => push_user_mention(s, ids[i]),
            MentionKind::Channel => push_channel_mention(s, ids[i]),
            MentionKind::Role => push_role_mention(s, ids[i]),
        }
        proof {
            assert(ids@.take(i + 1).map_values(|id: u64| mention_of(kind, id))
                =~= prev.push(mention_of(kind, ids@[i as int])));
            lemma_joined_push(prev, sep@, mention_of(kind, ids@[i as int]));
        }
        i = i + 1;
    }
    assert(ids@.take(n as int) =~= ids@);
}

/// Appends strings joined by `sep`.
pub fn push_joined(s: &mut String, items: &Vec<String>, sep: &str)
    ensures
        final(s)@ == old(s)@ + joined_strings(items@, sep@),
{
    let ghost start = s@;
    let n = items.len();
    let mut i: usize = 0;
    while i < n
        invariant
            n == items.len(),
            i <= n,
            s@ == start + joined_strings(items@.take(i as int), sep@),
        decreases n - i,
    {
        let ghost prev = items@.take(i as int).map_values(|x: String| x@);
        if i > 0 {
            s.append(sep);
        }
        s.append(items[i].as_str());
        proof {
            assert(items@.take(i + 1).map_values(|x: String| x@) =~= prev.push(items@[i as int]@));
            lemma_joined_push(prev, sep@, items@[i as int]@);
        }
        i = i + 1;
    }
    assert(items@.take(n as int) =~= items@);
}

} // verus!
