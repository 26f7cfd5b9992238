//! Choosing the queue a command is about, and the replies of the settings commands.
use std::collections::HashSet;
use vstd::prelude::*;
use vstd::string::*;
use crate::ids::QueueUuid;
use crate::text::{decimal, joined, joined_mentions, push_mentions, push_u64, MentionKind};

verus! {

broadcast use vstd::std_specs::hash::group_hash_axioms;

/// Why a command cannot tell which queue it is about.
#[derive(Clone, Copy, PartialEq, Eq, Structural, Debug)]
pub enum QueueSelectError {
    /// The server has no queue.
    NoQueues,
    /// The index given names no queue.
    InvalidIndex,
    /// The server has several queues and no index was given.
    Ambiguous,
}

impl QueueSelectError {
    /// The reply that reports the error.
    pub fn message(&self) -> (s: String)
        ensures
            s@ == match *self {
                QueueSelectError::NoQueues => "No queues available."@,
                QueueSelectError::InvalidIndex => "Invalid queue idx."@,
                QueueSelectError::Ambiguous => "Multiple queues available: you must specify which queue you want to use"@,
            },
    {
        match self {
            QueueSelectError::NoQueues => String::from_str("No queues available."),
            QueueSelectError::InvalidIndex => String::from_str("Invalid queue idx."),
            QueueSelectError::Ambiguous => String::from_str("Multiple queues available: you must specify which queue you want to use"),
        }
    }
}

/// The queue a command is about: the one at the index given, or the only queue of the server.
pub fn get_queue_uuid(queues: &Vec<QueueUuid>, queue_idx: Option<u32>) -> (r: Result<QueueUuid, QueueSelectError>)
    ensures
        queues@.len() == 0 ==> r == Err::<QueueUuid, QueueSelectError>(QueueSelectError::NoQueues),
        queues@.len() > 0 ==> match queue_idx {
            Some(i) => if i < queues@.len() { r == Ok::<QueueUuid, QueueSelectError>(queues@[i as int]) }
                else { r == Err::<QueueUuid, QueueSelectError>(QueueSelectError::InvalidIndex) },
            None => if queues@.len() == 1 { r == Ok::<QueueUuid, QueueSelectError>(queues@[0]) }
                else { r == Err::<QueueUuid, QueueSelectError>(QueueSelectError::Ambiguous) },
        },
{
    if queues.len() == 0 {
        Err(QueueSelectError::NoQueues)
    } else {
        match queue_idx {
            Some(i) => {
                if (i as usize) < queues.len() {
                    Ok(queues[i as usize])
                } else {
                    Err(QueueSelectError::InvalidIndex)
                }
            },
            None => {
                if queues.len() == 1 {
                    Ok(queues[0])
                } else {
                    Err(QueueSelectError::Ambiguous)
                }
            },
        }
    }
}

/// Shows or sets a numeric setting: with a new value the setting takes it and the reply is
/// `<name> set to <value>`; otherwise the reply is `<name> is currently <value>`.
pub fn number_setting(name: &str, new_value: Option<u32>, setting: &mut u32) -> (s: String)
    ensures
        match new_value {
            Some(v) => *final(setting) == v && s@ == name@ + " set to "@ + decimal(v as nat),
            None => *final(setting) == *old(setting) && s@ == name@ + " is currently "@ + decimal(*old(setting) as nat),
        },
{
    let mut s = String::from_str(name);
    match new_value {
        Some(v) => {
            *setting = v;
            s.append(" set to ");
            push_u64(&mut s, v as u64);
        },
        None => {
            s.append(" is currently ");
            push_u64(&mut s, *setting as u64);
        },
    }
    s
}

/// How a flag is shown: `true` or `false`.
pub open spec fn bool_text(b: bool) -> Seq<char> {
    if b { "true"@ } else { "false"@ }
}

/// Shows or sets a yes-or-no setting, as [`number_setting`] does.
pub fn flag_setting(name: &str, new_value: Option<bool>, setting: &mut bool) -> (s: String)
    ensures
        match new_value {
            Some(v) => *final(setting) == v && s@ == name@ + " set to "@ + bool_text(v),
            None => *final(setting) == *old(setting) && s@ == name@ + " is currently "@ + bool_text(*old(setting)),
        },
{
    let mut s = String::from_str(name);
    let shown = match new_value {
        Some(v) => {
            *setting = v;
            s.append(" set to ");
            v
        },
        None => {
            s.append(" is currently ");
            *setting
        },
    };
    if shown {
        s.append("true");
    } else {
        s.append("false");
    }
    s
}

/// Adds an id to a set, removes it, or lists the set. The replies name the id by number:
/// `<id> added as <noun>`, `<id> removed as <noun>` or `<id> wasn't a <noun>`; the list
/// is `<head><mentions>`.
pub fn toggle_id(set: &mut HashSet<u64>, remove: bool, value: Option<u64>, noun: &str, head: &str, kind: MentionKind) -> (s: String)
    ensures
        match value {
            Some(v) => if remove {
                &&& final(set)@ == old(set)@.remove(v)
                &&& s@ == decimal(v as nat) + if old(set)@.contains(v) { " removed as "@ } else { " wasn't a "@ } + noun@
            } else {
                &&& final(set)@ == old(set)@.insert(v)
                &&& s@ == decimal(v as nat) + " added as "@ + noun@
            },
            None => final(set)@ == old(set)@ && exists|order: Seq<u64>| order.no_duplicates()
                && order.to_set() == old(set)@ && s@ == head@ + joined_mentions(kind, order, ", "@),
        },
{
    match value {
        Some(v) => {
            let mut s = String::new();
            push_u64(&mut s, v);
            if remove {
                if set.remove(&v) {
                    s.append(" removed as ");
                } else {
                    s.append(" wasn't a ");
                }
            } else {
                set.insert(v);
                s.append(" added as ");
            }
            s.append(noun);
            s
        },
        None => {
            let order = crate::keys::members_of(set);
            let mut s = String::from_str(head);
            push_mentions(&mut s, kind, &order, ", ");
            s
        },
    }
}

/// The reply to adding or removing a map: `<map> added as map`, `<map> removed as map`
/// or `<map> wasn't a map`.
pub fn map_change_reply(remove: bool, changed: bool, map: &str) -> (s: String)
    ensures
        s@ == map@ + if !remove { " added as map"@ } else if changed { " removed as map"@ } else { " wasn't a map"@ },
{
    let mut s = String::from_str(map);
    if !remove {
        s.append(" added as map");
    } else if changed {
        s.append(" removed as map");
    } else {
        s.append(" wasn't a map");
    }
    s
}

/// The pieces of `s` between the occurrences of `sep`, as Rust's `str::split` gives them:
/// one piece more than there are separators.
pub open spec fn split_on(s: Seq<char>, sep: char) -> Seq<Seq<char>>
    decreases s.len(),
{
    if s.len() == 0 {
        seq![Seq::empty()]
    } else {
        let prev = split_on(s.drop_last(), sep);
        if s.last() == sep {
            prev.push(Seq::empty())
        } else {
            prev.update(prev.len() - 1, prev.last().push(s.last()))
        }
    }
}

proof fn lemma_split_on_nonempty(s: Seq<char>, sep: char)
    ensures
        split_on(s, sep).len() > 0,
    decreases s.len(),
{
    if s.len() > 0 {
        lemma_split_on_nonempty(s.drop_last(), sep);
    }
}

/// Splits `s` at each occurrence of `sep`.
pub fn split(s: &str, sep: char) -> (r: Vec<String>)
    ensures
        r@.map_values(|x: String| x@) == split_on(s@, sep),
{
    let n = s.unicode_len();
    let mut r: Vec<String> = Vec::new();
    let mut start: usize = 0;
    let mut i: usize = 0;
    proof {
        assert(s@.take(0).len() == 0);
        assert(split_on(s@.take(0), sep) == seq![Seq::<char>::empty()]);
        assert(s@.subrange(0, 0) =~= Seq::<char>::empty());
        assert(r@.map_values(|x: String| x@).push(s@.subrange(0, 0)) =~= split_on(s@.take(0), sep));
    }
    while i < n
        invariant
            n == s@.len(),
            start <= i <= n,
            r@.map_values(|x: String| x@).push(s@.subrange(start as int, i as int)) == split_on(s@.take(i as int), sep),
        decreases n - i,
    {
        let c = s.get_char(i);
        let ghost prev = split_on(s@.take(i as int), sep);
        proof {
            assert(s@.take(i + 1).drop_last() =~= s@.take(i as int));
            assert(s@.take(i + 1).last() == c);
            lemma_split_on_nonempty(s@.take(i as int), sep);
        }
        if c == sep {
            let ghost r0 = r@.map_values(|x: String| x@);
            let ghost start0 = start;
            let piece = String::from_str(s.substring_char(start, i));
            r.push(piece);
            start = i + 1;
            proof {
                assert(prev == r0.push(s@.subrange(start0 as int, i as int)));
                assert(s@.subrange(start as int, (i + 1) as int) =~= Seq::<char>::empty());
                assert(r@.map_values(|x: String| x@) =~= r0.push(s@.subrange(start0 as int, i as int)));
                assert(r@.map_values(|x: String| x@).push(s@.subrange(start as int, (i + 1) as int))
                    =~= prev.push(Seq::empty()));
            }
        } else {
            proof {
                assert(s@.subrange(start as int, (i + 1) as int) =~= s@.subrange(start as int, i as int).push(c));
                assert(r@.map_values(|x: String| x@).push(s@.subrange(start as int, (i + 1) as int))
                    =~= prev.update(prev.len() - 1, prev.last().push(c)));
            }
        }
        i = i + 1;
    }
    let last = String::from_str(s.substring_char(start, n));
    r.push(last);
    assert(s@.take(n as int) =~= s@);
    assert(r@.map_values(|x: String| x@) =~= split_on(s@, sep));
    r
}

/// One button of a register message: its label and its rating, as written.
pub struct RegisterButton {
    pub label: String,
    pub rating: String,
}

/// The buttons that a register message description asks for: `label:rating` items
/// separated by commas; `None` when an item has not exactly one colon. (Whether each
/// rating reads as a number is checked where ratings are read.)
pub open spec fn register_buttons_spec(data: Seq<char>) -> Option<Seq<(Seq<char>, Seq<char>)>> {
    let items = split_on(data, ',');
    if exists|i: int| 0 <= i < items.len() && split_on(#[trigger] items[i], ':').len() != 2 {
        None
    } else {
        Some(items.map_values(|item: Seq<char>| (split_on(item, ':')[0], split_on(item, ':')[1])))
    }
}

/// Reads a register message description.
pub fn parse_register_buttons(data: &str) -> (r: Option<Vec<RegisterButton>>)
    ensures
        match r {
            Some(b) => register_buttons_spec(data@) == Some(b@.map_values(|x: RegisterButton| (x.label@, x.rating@))),
            None => register_buttons_spec(data@) is None,
        },
{
    let items = split(data, ',');
    let ghost iv = split_on(data@, ',');
    let mut r: Vec<RegisterButton> = Vec::new();
    let mut i: usize = 0;
    while i < items.len()
        invariant
            i <= items@.len(),
            items@.map_values(|x: String| x@) == iv,
            iv == split_on(data@, ','),
            r@.len() == i,
            forall|j: int| 0 <= j < i ==> split_on(#[trigger] iv[j], ':').len() == 2,
            forall|j: int| 0 <= j < i ==> (#[trigger] r@[j]).label@ == split_on(iv[j], ':')[0]
                && r@[j].rating@ == split_on(iv[j], ':')[1],
        decreases items@.len() - i,
    {
        assert(iv[i as int] == items@[i as int]@);
        let parts = split(items[i].as_str(), ':');
        assert(parts@.len() == split_on(iv[i as int], ':').len());
        if parts.len() != 2 {
            return None;
        }
        assert(parts@[1]@ == split_on(iv[i as int], ':')[1]);
        assert(parts@[0]@ == split_on(iv[i as int], ':')[0]);
        r.push(RegisterButton { label: parts[0].clone(), rating: parts[1].clone() });
        i = i + 1;
    }
    assert(r@.map_values(|x: RegisterButton| (x.label@, x.rating@))
        =~= iv.map_values(|item: Seq<char>| (split_on(item, ':')[0], split_on(item, ':')[1])));
    Some(r)
}

/// How a channel or role setting is shown: its mention, or `not set`.
pub open spec fn optional_mention(kind: MentionKind, id: Option<u64>) -> Seq<char> {
    match id {
        Some(i) => crate::text::mention_of(kind, i),
        None => "not set"@,
    }
}

/// The reply that shows a channel or role setting: `<head><mention or "not set">`.
pub fn current_setting_reply(head: &str, kind: MentionKind, id: Option<u64>) -> (s: String)
    ensures
        s@ == head@ + optional_mention(kind, id),
{
    let mut s = String::from_str(head);
    match id {
        Some(i) => {
            match kind {
                MentionKind::User => crate::text::push_user_mention(&mut s, i),
                MentionKind::Channel => crate::text::push_channel_mention(&mut s, i),
                MentionKind::Role => crate::text::push_role_mention(&mut s, i),
            }
        },
        None => s.append("not set"),
    }
    s
}

/// The list of maps: `Maps are <names>`.
pub fn maps_list_text(maps: &Vec<String>) -> (s: String)
    ensures
        s@ == "Maps are "@ + crate::text::joined_strings(maps@, ", "@),
{
    let mut s = String::from_str("Maps are ");
    crate::text::push_joined(&mut s, maps, ", ");
    s
}

/// The reply to a cost setting for a game category that does not exist:
/// `Invalid category <c>. Categories are <names>`.
pub fn invalid_category_text(category: &str, categories: &Vec<String>) -> (s: String)
    ensures
        s@ == "Invalid category "@ + category@ + ". Categories are "@ + crate::text::joined_strings(categories@, ", "@),
{
    let mut s = String::from_str("Invalid category ");
    s.append(category);
    s.append(". Categories are ");
    crate::text::push_joined(&mut s, categories, ", ");
    s
}

/// Whether a text is one of the given names.
pub fn contains_name(names: &Vec<String>, name: &str) -> (r: bool)
    ensures
        r == exists|i: int| 0 <= i < names@.len() && (#[trigger] names@[i])@ == name@,
{
    let mut i: usize = 0;
    while i < names.len()
        invariant
            i <= names@.len(),
            forall|j: int| 0 <= j < i ==> (#[trigger] names@[j])@ != name@,
        decreases names@.len() - i,
    {
        if crate::buttons::str_eq(names[i].as_str(), name) {
            return true;
        }
        i = i + 1;
    }
    false
}

/// A role players can pick for a queue: its name and description.
pub struct RoleConfiguration {
    pub name: String,
    pub description: String,
}

/// The list of roles: `Roles:` and a line `* name: description` per role.
pub open spec fn roles_lines(roles: Seq<(Seq<char>, Seq<char>)>) -> Seq<char> {
    joined(roles.map_values(|r: (Seq<char>, Seq<char>)| "* "@ + r.0 + ": "@ + r.1), "\n"@)
}

/// The list of roles.
pub fn roles_list_text(roles: &Vec<RoleConfiguration>) -> (s: String)
    ensures
        s@ == "Roles:\n"@ + roles_lines(roles@.map_values(|r: RoleConfiguration| (r.name@, r.description@))),
{
    let mut s = String::from_str("Roles:\n");
    let ghost head = s@;
    let ghost rv = roles@.map_values(|r: RoleConfiguration| (r.name@, r.description@));
    let ghost line = |r: (Seq<char>, Seq<char>)| "* "@ + r.0 + ": "@ + r.1;
    let mut i: usize = 0;
    while i < roles.len()
        invariant
            i <= roles@.len(),
            rv == roles@.map_values(|r: RoleConfiguration| (r.name@, r.description@)),
            line == (|r: (Seq<char>, Seq<char>)| "* "@ + r.0 + ": "@ + r.1),
            s@ == head + joined(rv.take(i as int).map_values(line), "\n"@),
        decreases roles@.len() - i,
    {
        let ghost prev = rv.take(i as int).map_values(line);
        if i > 0 {
            s.append("\n");
        }
        s.append("* ");
        s.append(roles[i].name.as_str());
        s.append(": ");
        s.append(roles[i].description.as_str());
        proof {
            assert(rv.take(i + 1).map_values(line) =~= prev.push(line(rv[i as int])));
            crate::text::lemma_joined_push(prev, "\n"@, line(rv[i as int]));
        }
        i = i + 1;
    }
    assert(rv.take(i as int) =~= rv);
    s
}

} // verus!
