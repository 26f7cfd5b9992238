//! Votes in a match: on the map and on the result. A vote passes once an option has more
//! than half of the match's players behind it.
use vstd::prelude::*;
use vstd::string::*;
use crate::text::{decimal, push_u64};

verus! {

/// The outcome of a match: a team won (counted from zero), a tie, or the match was cancelled.
#[derive(Clone, Copy, PartialEq, Eq, Structural, Debug)]
pub enum MatchResult {
    Team(u32),
    Tie,
    Cancel,
}

/// How a result is shown: `Team N` (counted from one), `Tie` or `Cancel`.
pub open spec fn result_label(r: MatchResult) -> Seq<char> {
    match r {
        MatchResult::Team(n) => "Team "@ + decimal((n + 1) as nat),
        MatchResult::Tie => "Tie"@,
        MatchResult::Cancel => "Cancel"@,
    }
}

/// Whether a result can be shown: a winning team's number counted from one fits in a `u32`.
pub open spec fn labelable(r: MatchResult) -> bool {
    match r {
        MatchResult::Team(n) => n < u32::MAX,
        _ => true,
    }
}

impl MatchResult {
    /// How the result is shown.
    pub fn label(&self) -> (s: String)
        requires
            labelable(*self),
        ensures
            s@ == result_label(*self),
    {
        match self {
            MatchResult::Team(n) => {
                let mut s = String::from_str("Team ");
                push_u64(&mut s, (*n + 1) as u64);
                s
            },
            MatchResult::Tie => String::from_str("Tie"),
            MatchResult::Cancel => String::from_str("Cancel"),
        }
    }
}

/// How many votes an option needs to pass: more than half of the match's players.
pub open spec fn spec_required_votes(team_count: u32, team_size: u32) -> int {
    (team_count * team_size) / 2 + 1
}

/// How many votes an option needs to pass.
pub fn required_votes(team_count: u32, team_size: u32) -> (r: u32)
    requires
        team_count * team_size <= u32::MAX,
    ensures
        r == spec_required_votes(team_count, team_size),
{
    team_count * team_size / 2 + 1
}

/// How often `v` occurs in `s`.
pub open spec fn occurrences<T>(s: Seq<T>, v: T) -> nat
    decreases s.len(),
{
    if s.len() == 0 {
        0
    } else {
        occurrences(s.drop_last(), v) + if s.last() == v { 1nat } else { 0nat }
    }
}

proof fn lemma_occurrences_push<T>(s: Seq<T>, x: T, v: T)
    ensures
        occurrences(s.push(x), v) == occurrences(s, v) + if x == v { 1nat } else { 0nat },
{
    assert(s.push(x).drop_last() =~= s);
}

/// An option has votes exactly when some vote chose it.
pub proof fn lemma_occurrences_contains<T>(s: Seq<T>, v: T)
    ensures
        occurrences(s, v) > 0 <==> s.contains(v),
    decreases s.len(),
{
    if s.len() > 0 {
        lemma_occurrences_contains(s.drop_last(), v);
        if s.drop_last().contains(v) {
            let i = choose|i: int| 0 <= i < s.len() - 1 && s.drop_last()[i] == v;
            assert(s[i] == v);
        }
        if s.contains(v) && s.last() != v {
            let i = choose|i: int| 0 <= i < s.len() && s[i] == v;
            assert(s.drop_last()[i] == v);
        }
    }
}

/// Two different options together get no more votes than there are.
pub proof fn lemma_occurrences_two<T>(s: Seq<T>, a: T, b: T)
    requires
        a != b,
    ensures
        occurrences(s, a) + occurrences(s, b) <= s.len(),
    decreases s.len(),
{
    if s.len() > 0 {
        lemma_occurrences_two(s.drop_last(), a, b);
    }
}

/// When each player votes at most once and an option needs more than half of the votes a
/// full match can cast, at most one option can pass.
pub proof fn lemma_majority_unique<T>(votes: Seq<T>, team_count: u32, team_size: u32, a: T, b: T)
    requires
        votes.len() <= team_count * team_size,
        occurrences(votes, a) >= spec_required_votes(team_count, team_size),
        occurrences(votes, b) >= spec_required_votes(team_count, team_size),
    ensures
        a == b,
{
    if a != b {
        lemma_occurrences_two(votes, a, b);
    }
}

/// A count of votes: each option that got a vote, once, with how many voters chose it.
pub open spec fn is_tally<V>(votes: Seq<V>, tally: Seq<(V, usize)>) -> bool {
    &&& forall|i: int, j: int| 0 <= i < j < tally.len() ==> tally[i].0 != tally[j].0
    &&& forall|i: int| #![trigger tally[i]] 0 <= i < tally.len() ==> tally[i].1 == occurrences(votes, tally[i].0)
        && votes.contains(tally[i].0)
    &&& forall|v: V| #[trigger] votes.contains(v) ==> exists|i: int| 0 <= i < tally.len() && tally[i].0 == v
}

/// The views of map names with their counts.
pub open spec fn tally_view(tally: Seq<(String, usize)>) -> Seq<(Seq<char>, usize)> {
    tally.map_values(|p: (String, usize)| (p.0@, p.1))
}

/// The views of map names.
pub open spec fn names_view(names: Seq<String>) -> Seq<Seq<char>> {
    names.map_values(|n: String| n@)
}

/// Counts the result votes.
pub fn tally_results(votes: &Vec<MatchResult>) -> (tally: Vec<(MatchResult, usize)>)
    ensures
        is_tally(votes@, tally@),
{
    let mut tally: Vec<(MatchResult, usize)> = Vec::new();
    let n = votes.len();
    let mut i: usize = 0;
    while i < n
        invariant
            n == votes@.len(),
            i <= n,
            is_tally(votes@.take(i as int), tally@),
        decreases n - i,
    {
        let v = votes[i];
        let ghost prev = votes@.take(i as int);
        let ghost old_tally = tally@;
        proof {
            assert(votes@.take(i + 1) =~= prev.push(v));
        }
        let mut k: usize = 0;
        let mut found = false;
        while k < tally.len() && !found
            invariant
                k <= tally@.len(),
                tally@ == old_tally,
                found ==> k < tally@.len() && tally@[k as int].0 == v,
                !found ==> forall|j: int| 0 <= j < k ==> tally@[j].0 != v,
            decreases tally@.len() - k, if found { 0int } else { 1int },
        {
            if tally[k].0 == v {
                found = true;
            } else {
                k = k + 1;
            }
        }
        proof {
            lemma_occurrences_contains(prev, v);
        }
        if found {
            proof {
                lemma_occurrences_contains(prev, v);
                assert(occurrences(prev, v) <= prev.len()) by {
                    lemma_occurrences_bound(prev, v);
                }
            }
            let c = tally[k].1;
            tally.set(k, (v, c + 1));
        } else {
            tally.push((v, 1));
        }
        proof {
            let now = prev.push(v);
            assert forall|j: int| 0 <= j < tally@.len() implies #[trigger] tally@[j].1 == occurrences(now, tally@[j].0)
                && now.contains(tally@[j].0) by {
                lemma_occurrences_push(prev, v, tally@[j].0);
                if j < old_tally.len() {
                    assert(old_tally[j] == old_tally[j]);
                    assert(prev.contains(old_tally[j].0));
                    let w = choose|w: int| 0 <= w < prev.len() && prev[w] == old_tally[j].0;
                    assert(now[w] == old_tally[j].0);
                } else {
                    assert(now[prev.len() as int] == v);
                    lemma_occurrences_contains(prev, v);
                }
                if tally@[j].0 == v {
                    assert(now[prev.len() as int] == v);
                }
            }
            assert forall|x: MatchResult| #[trigger] now.contains(x) implies exists|j: int| 0 <= j < tally@.len() && tally@[j].0 == x by {
                if x == v {
                    if found {
                        assert(tally@[k as int].0 == v);
                    } else {
                        assert(tally@[old_tally.len() as int].0 == v);
                    }
                } else {
                    let w = choose|w: int| 0 <= w < now.len() && now[w] == x;
                    assert(prev[w] == x);
                    assert(prev.contains(x));
                    let j = choose|j: int| 0 <= j < old_tally.len() && old_tally[j].0 == x;
                    assert(tally@[j].0 == x);
                }
            }
        }
        i = i + 1;
    }
    assert(votes@.take(n as int) =~= votes@);
    tally
}

/// An option gets no more votes than there are.
pub proof fn lemma_occurrences_bound<T>(s: Seq<T>, v: T)
    ensures
        occurrences(s, v) <= s.len(),
    decreases s.len(),
{
    if s.len() > 0 {
        lemma_occurrences_bound(s.drop_last(), v);
    }
}

/// Counts the map votes (maps compared by name).
pub fn tally_maps(votes: &Vec<String>) -> (tally: Vec<(String, usize)>)
    ensures
        is_tally(names_view(votes@), tally_view(tally@)),
{
    let mut tally: Vec<(String, usize)> = Vec::new();
    let n = votes.len();
    let mut i: usize = 0;
    while i < n
        invariant
            n == votes@.len(),
            i <= n,
            is_tally(names_view(votes@.take(i as int)), tally_view(tally@)),
        decreases n - i,
    {
        let v = &votes[i];
        let ghost prev = names_view(votes@.take(i as int));
        let ghost old_tally = tally_view(tally@);
        proof {
            assert(names_view(votes@.take(i + 1)) =~= prev.push(v@));
        }
        let mut k: usize = 0;
        let mut found = false;
        while k < tally.len() && !found
            invariant
                k <= tally@.len(),
                tally_view(tally@) == old_tally,
                found ==> k < tally@.len() && tally@[k as int].0@ == v@,
                !found ==> forall|j: int| 0 <= j < k ==> tally@[j].0@ != v@,
            decreases tally@.len() - k, if found { 0int } else { 1int },
        {
            if tally[k].0 == *v {
                found = true;
            } else {
                k = k + 1;
            }
        }
        proof {
            lemma_occurrences_contains(prev, v@);
            assert forall|j: int| 0 <= j < k implies old_tally[j].0 != v@ by {
                assert(old_tally[j].0 == tally@[j].0@);
            }
        }
        if found {
            proof {
                assert(old_tally[k as int].0 == v@);
                lemma_occurrences_bound(prev, v@);
            }
            let c = tally[k].1;
            tally.set(k, (v.clone(), c + 1));
        } else {
            tally.push((v.clone(), 1));
        }
        proof {
            let now = prev.push(v@);
            let tv = tally_view(tally@);
            assert(tv.len() == tally@.len());
            if found {
                assert(tv =~= old_tally.update(k as int, (v@, (old_tally[k as int].1 + 1) as usize)));
            } else {
                assert(tv =~= old_tally.push((v@, 1usize)));
            }
            assert forall|j: int| 0 <= j < tv.len() implies #[trigger] tv[j].1 == occurrences(now, tv[j].0)
                && now.contains(tv[j].0) by {
                lemma_occurrences_push(prev, v@, tv[j].0);
                if j < old_tally.len() {
                    assert(old_tally[j] == old_tally[j]);
                    assert(prev.contains(old_tally[j].0));
                    let w = choose|w: int| 0 <= w < prev.len() && prev[w] == old_tally[j].0;
                    assert(now[w] == old_tally[j].0);
                } else {
                    assert(now[prev.len() as int] == v@);
                }
                if tv[j].0 == v@ {
                    assert(now[prev.len() as int] == v@);
                }
            }
            assert forall|x: Seq<char>| #[trigger] now.contains(x) implies exists|j: int| 0 <= j < tv.len() && tv[j].0 == x by {
                if x == v@ {
                    if found {
                        assert(tv[k as int].0 == v@);
                    } else {
                        assert(tv[old_tally.len() as int].0 == v@);
                    }
                } else {
                    let w = choose|w: int| 0 <= w < now.len() && now[w] == x;
                    assert(prev[w] == x);
                    assert(prev.contains(x));
                    let j = choose|j: int| 0 <= j < old_tally.len() && old_tally[j].0 == x;
                    assert(tv[j].0 == x);
                }
            }
            assert forall|a: int, b: int| 0 <= a < b < tv.len() implies tv[a].0 != tv[b].0 by {
                if b == old_tally.len() && !found {
                    assert(old_tally[a].0 != v@);
                }
            }
        }
        i = i + 1;
    }
    assert(votes@.take(n as int) =~= votes@);
    tally
}

/// The index of the last option that has at least `required` votes.
pub open spec fn last_passing<V>(tally: Seq<(V, usize)>, required: u32) -> Option<int>
    decreases tally.len(),
{
    if tally.len() == 0 {
        None
    } else if tally.last().1 >= required as usize {
        Some(tally.len() - 1)
    } else {
        last_passing(tally.drop_last(), required)
    }
}

proof fn lemma_last_passing_bounds<V>(tally: Seq<(V, usize)>, required: u32)
    ensures
        last_passing(tally, required) matches Some(i) ==> 0 <= i < tally.len() && tally[i].1 >= required,
    decreases tally.len(),
{
    if tally.len() > 0 {
        lemma_last_passing_bounds(tally.drop_last(), required);
    }
}

proof fn lemma_last_passing_push<V>(tally: Seq<(V, usize)>, x: (V, usize), required: u32)
    ensures
        last_passing(tally.push(x), required) == if x.1 >= required as usize { Some(tally.len() as int) } else { last_passing(tally, required) },
{
    assert(tally.push(x).drop_last() =~= tally);
}

/// The lines of a map vote: `\n<map>: <count>` for each option.
pub open spec fn map_vote_lines(tally: Seq<(Seq<char>, usize)>) -> Seq<char>
    decreases tally.len(),
{
    if tally.len() == 0 {
        Seq::empty()
    } else {
        map_vote_lines(tally.drop_last()) + "\n"@ + tally.last().0 + ": "@ + decimal(tally.last().1 as nat)
    }
}

/// The head of a map vote: `# Map Vote`, and when it ends if it has an end.
pub open spec fn map_vote_header(end_time: Option<u64>) -> Seq<char> {
    "# Map Vote"@ + match end_time {
        Some(t) => "\nEnds <t:"@ + decimal(t as nat) + ":R>"@,
        None => Seq::empty(),
    }
}

/// The head of a map vote message.
pub fn map_vote_header_text(end_time: Option<u64>) -> (s: String)
    ensures
        s@ == map_vote_header(end_time),
{
    let mut s = String::from_str("# Map Vote");
    match end_time {
        Some(t) => {
            s.append("\nEnds <t:");
            push_u64(&mut s, t);
            s.append(":R>");
        },
        None => {},
    }
    s
}

/// The map vote's message after a vote, and the map chosen once one has enough votes.
pub struct MapVoteUpdate {
    pub content: String,
    pub winner: Option<String>,
}

/// The map vote's message after a vote: the head and the counts, or `# Map: <map>` once a
/// map has `required` votes (the last such map, if several).
pub fn map_vote_update(tally: &Vec<(String, usize)>, end_time: Option<u64>, required: u32) -> (r: MapVoteUpdate)
    ensures
        match last_passing(tally_view(tally@), required) {
            Some(i) => r.winner matches Some(w) && w@ == tally@[i].0@ && r.content@ == "# Map: "@ + w@,
            None => r.winner is None && r.content@ == map_vote_header(end_time) + map_vote_lines(tally_view(tally@)),
        },
{
    let mut content = map_vote_header_text(end_time);
    let ghost head = content@;
    let mut winner: Option<usize> = None;
    let mut i: usize = 0;
    while i < tally.len()
        invariant
            i <= tally@.len(),
            content@ == head + map_vote_lines(tally_view(tally@.take(i as int))),
            match winner {
                Some(k) => last_passing(tally_view(tally@.take(i as int)), required) == Some(k as int),
                None => last_passing(tally_view(tally@.take(i as int)), required) is None,
            },
        decreases tally@.len() - i,
    {
        proof {
            assert(tally_view(tally@.take(i + 1)) =~= tally_view(tally@.take(i as int)).push((tally@[i as int].0@, tally@[i as int].1)));
            lemma_last_passing_push(tally_view(tally@.take(i as int)), (tally@[i as int].0@, tally@[i as int].1), required);
            assert(tally_view(tally@.take(i + 1)).drop_last() =~= tally_view(tally@.take(i as int)));
        }
        content.append("\n");
        content.append(tally[i].0.as_str());
        content.append(": ");
        push_u64(&mut content, tally[i].1 as u64);
        if tally[i].1 >= required as usize {
            winner = Some(i);
        }
        i = i + 1;
    }
    assert(tally@.take(i as int) =~= tally@);
    proof {
        lemma_last_passing_bounds(tally_view(tally@), required);
    }
    match winner {
        Some(k) => {
            let w = tally[k].0.clone();
            let mut c = String::from_str("# Map: ");
            c.append(w.as_str());
            MapVoteUpdate { content: c, winner: Some(w) }
        },
        None => MapVoteUpdate { content, winner: None },
    }
}

/// The lines of a result vote: `<result>: <count>\n` for each option.
pub open spec fn result_vote_lines(tally: Seq<(MatchResult, usize)>) -> Seq<char>
    decreases tally.len(),
{
    if tally.len() == 0 {
        Seq::empty()
    } else {
        result_vote_lines(tally.drop_last()) + result_label(tally.last().0) + ": "@ + decimal(tally.last().1 as nat) + "\n"@
    }
}

/// The result vote's message after a vote, and the result once one has enough votes.
pub struct ResultVoteUpdate {
    pub content: String,
    pub winner: Option<MatchResult>,
}

/// The result vote's message after a vote (a line per option), and the result once one has
/// `required` votes (the last such, if several).
pub fn result_vote_update(tally: &Vec<(MatchResult, usize)>, required: u32) -> (r: ResultVoteUpdate)
    requires
        forall|i: int| 0 <= i < tally@.len() ==> labelable(#[trigger] tally@[i].0),
    ensures
        r.content@ == result_vote_lines(tally@),
        match last_passing(tally@, required) {
            Some(i) => r.winner == Some(tally@[i].0),
            None => r.winner is None,
        },
{
    let mut content = String::new();
    let mut winner: Option<MatchResult> = None;
    let mut i: usize = 0;
    while i < tally.len()
        invariant
            i <= tally@.len(),
            forall|i: int| 0 <= i < tally@.len() ==> labelable(#[trigger] tally@[i].0),
            content@ == result_vote_lines(tally@.take(i as int)),
            match last_passing(tally@.take(i as int), required) {
                Some(k) => winner == Some(tally@[k].0),
                None => winner is None,
            },
        decreases tally@.len() - i,
    {
        proof {
            assert(tally@.take(i + 1) =~= tally@.take(i as int).push(tally@[i as int]));
            lemma_last_passing_push(tally@.take(i as int), tally@[i as int], required);
            assert(tally@.take(i + 1).drop_last() =~= tally@.take(i as int));
            assert(tally@[i as int] == tally@[i as int]);
        }
        let label = tally[i].0.label();
        content.append(label.as_str());
        content.append(": ");
        push_u64(&mut content, tally[i].1 as u64);
        content.append("\n");
        if tally[i].1 >= required as usize {
            winner = Some(tally[i].0);
        }
        i = i + 1;
    }
    assert(tally@.take(i as int) =~= tally@);
    ResultVoteUpdate { content, winner }
}

/// Whether option `i` has the most votes and no later option has as many.
pub open spec fn is_last_maximum<V>(tally: Seq<(V, usize)>, i: int) -> bool {
    &&& 0 <= i < tally.len()
    &&& forall|j: int| 0 <= j < tally.len() ==> #[trigger] tally[j].1 <= tally[i].1
    &&& forall|j: int| i < j < tally.len() ==> #[trigger] tally[j].1 < tally[i].1
}

/// The map chosen when a map vote times out: the map with the most votes (the last such),
/// or the first map offered when nobody voted.
pub fn timeout_map_choice(tally: &Vec<(String, usize)>, first_map: &String) -> (r: String)
    ensures
        tally@.len() == 0 ==> r@ == first_map@,
        tally@.len() > 0 ==> exists|i: int| is_last_maximum(tally@, i) && r@ == tally@[i].0@,
{
    if tally.len() == 0 {
        return first_map.clone();
    }
    let mut best: usize = 0;
    let mut i: usize = 1;
    while i < tally.len()
        invariant
            1 <= i <= tally@.len(),
            best < i,
            forall|j: int| 0 <= j < i ==> #[trigger] tally@[j].1 <= tally@[best as int].1,
            forall|j: int| best < j < i ==> #[trigger] tally@[j].1 < tally@[best as int].1,
        decreases tally@.len() - i,
    {
        if tally[i].1 >= tally[best].1 {
            best = i;
        }
        i = i + 1;
    }
    let r = tally[best].0.clone();
    assert(is_last_maximum(tally@, best as int));
    r
}

} // verus!
