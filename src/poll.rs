//! Closing a poll: reading the options off the poll message, counting the
//! votes of each option's reaction, ranking the options and writing the
//! results message.

use vstd::prelude::*;

use crate::table::texts;
use crate::text::{decimal, pieces, push_decimal, push_str, split_char, views};

verus! {

/// The number of options a poll can hold.
pub const MAX_OPTIONS: usize = 20;

/// The reaction of each option slot, in slot order.
pub open spec fn emoji_order() -> Seq<Seq<char>> {
    seq![
        "1️⃣"@, "2️⃣"@, "3️⃣"@, "4️⃣"@, "5️⃣"@, "6️⃣"@, "7️⃣"@, "8️⃣"@, "9️⃣"@, "🔟"@,
        "🇦"@, "🇧"@, "🇨"@, "🇩"@, "🇪"@, "🇫"@, "🇬"@, "🇭"@, "🇮"@, "🇯"@,
    ]
}

fn emoji_at(i: usize) -> (r: String)
    requires
        i < MAX_OPTIONS,
    ensures
        r@ == emoji_order()[i as int],
{
    let s = if i == 0 {
        "1️⃣"
    } else if i == 1 {
        "2️⃣"
    } else if i == 2 {
        "3️⃣"
    } else if i == 3 {
        "4️⃣"
    } else if i == 4 {
        "5️⃣"
    } else if i == 5 {
        "6️⃣"
    } else if i == 6 {
        "7️⃣"
    } else if i == 7 {
        "8️⃣"
    } else if i == 8 {
        "9️⃣"
    } else if i == 9 {
        "🔟"
    } else if i == 10 {
        "🇦"
    } else if i == 11 {
        "🇧"
    } else if i == 12 {
        "🇨"
    } else if i == 13 {
        "🇩"
    } else if i == 14 {
        "🇪"
    } else if i == 15 {
        "🇫"
    } else if i == 16 {
        "🇬"
    } else if i == 17 {
        "🇭"
    } else if i == 18 {
        "🇮"
    } else {
        "🇯"
    };
    String::from_str(s)
}

/// The first slot, from `i` on, whose reaction is `e`.
pub open spec fn slot_from(e: Seq<char>, i: int) -> Option<int>
    decreases MAX_OPTIONS - i,
{
    if i < 0 || i >= MAX_OPTIONS {
        None
    } else if emoji_order()[i] == e {
        Some(i)
    } else {
        slot_from(e, i + 1)
    }
}

/// The slot of the reaction `e`, if it is one of the option reactions.
pub open spec fn slot(e: Seq<char>) -> Option<int> {
    slot_from(e, 0)
}

/// The slot of the reaction `e`.
pub fn slot_of(e: &String) -> (r: Option<usize>)
    ensures
        r matches Some(i) ==> slot(e@) == Some(i as int),
        r is None ==> slot(e@) is None,
{
    let mut i: usize = 0;
    while i < MAX_OPTIONS
        invariant
            i <= MAX_OPTIONS,
            slot(e@) == slot_from(e@, i as int),
        decreases MAX_OPTIONS - i,
    {
        if emoji_at(i) == *e {
            return Some(i);
        }
        i = i + 1;
    }
    None
}

/// The option text of a rendered line, from `i` on: what follows the first
/// dot and the character after it; the whole line when there is no dot.
pub open spec fn option_from(line: Seq<char>, i: int) -> Seq<char>
    decreases line.len() - i,
{
    if i < 0 || i >= line.len() {
        line
    } else if line[i] == '.' {
        if i + 2 <= line.len() {
            line.subrange(i + 2, line.len() as int)
        } else {
            Seq::empty()
        }
    } else {
        option_from(line, i + 1)
    }
}

/// The option texts of a poll message's description, one per line.
pub open spec fn options_of(description: Seq<char>) -> Seq<Seq<char>> {
    pieces(description, '\n').map_values(|l: Seq<char>| option_from(l, 0))
}

fn option_text(line: &str) -> (r: String)
    ensures
        r@ == option_from(line@, 0),
{
    let n = line.unicode_len();
    let mut i: usize = 0;
    while i < n
        invariant
            n == line@.len(),
            i <= n,
            option_from(line@, 0) == option_from(line@, i as int),
        decreases n - i,
    {
        if line.get_char(i) == '.' {
            if n - i >= 2 {
                return String::from_str(line.substring_char(i + 2, n));
            } else {
                return String::new();
            }
        }
        i = i + 1;
    }
    String::from_str(line)
}

/// The option texts of a poll message's description.
pub fn parse_options(description: &str) -> (r: Vec<String>)
    ensures
        texts(r@) == options_of(description@),
{
    let lines = split_char(description, '\n');
    let mut out: Vec<String> = Vec::new();
    let mut i: usize = 0;
    while i < lines.len()
        invariant
            i <= lines@.len(),
            views(lines@) == pieces(description@, '\n'),
            texts(out@) == views(lines@).subrange(0, i as int).map_values(
                |l: Seq<char>| option_from(l, 0),
            ),
        decreases lines@.len() - i,
    {
        let o = option_text(lines[i].as_str());
        let ghost before = out@;
        out.push(o);
        proof {
            assert(texts(out@) =~= texts(before).push(o@));
            assert(views(lines@)[i as int] == lines@[i as int]@);
            assert(views(lines@).subrange(0, i + 1) =~= views(lines@).subrange(0, i as int).push(
                lines@[i as int]@,
            ));
            assert(texts(out@) =~= views(lines@).subrange(0, i + 1).map_values(
                |l: Seq<char>| option_from(l, 0),
            ));
        }
        i = i + 1;
    }
    proof {
        assert(views(lines@).subrange(0, lines@.len() as int) =~= views(lines@));
    }
    out
}

/// The votes a reaction count stands for: the bot's own seed reaction is not
/// a vote.
pub open spec fn votes(count: u64) -> u64 {
    if count == 0 {
        0
    } else {
        (count - 1) as u64
    }
}

/// The reactions as seen by the tally: each one's text and count.
pub open spec fn reactions_view(v: Seq<(String, u64)>) -> Seq<(Seq<char>, u64)> {
    v.map_values(|r: (String, u64)| (r.0@, r.1))
}

/// Tallies as texts with their votes.
pub open spec fn tallies_view(v: Seq<(u64, String)>) -> Seq<(u64, Seq<char>)> {
    v.map_values(|t: (u64, String)| (t.0, t.1@))
}

/// The tally of each reaction that stands for an option: its votes and the
/// option's text, in reaction order.
pub open spec fn tallies(reactions: Seq<(Seq<char>, u64)>, options: Seq<Seq<char>>) -> Seq<
    (u64, Seq<char>),
>
    decreases reactions.len(),
{
    if reactions.len() == 0 {
        Seq::empty()
    } else {
        let rest = tallies(reactions.drop_last(), options);
        let r = reactions.last();
        match slot(r.0) {
            Some(i) => if i < options.len() {
                rest.push((votes(r.1), options[i]))
            } else {
                rest
            },
            None => rest,
        }
    }
}

/// The tallies of `reactions` over `options`.
pub fn tally(reactions: &Vec<(String, u64)>, options: &Vec<String>) -> (r: Vec<(u64, String)>)
    ensures
        tallies_view(r@) == tallies(reactions_view(reactions@), texts(options@)),
{
    let mut r: Vec<(u64, String)> = Vec::new();
    let mut i: usize = 0;
    while i < reactions.len()
        invariant
            i <= reactions@.len(),
            tallies_view(r@) == tallies(
                reactions_view(reactions@.subrange(0, i as int)),
                texts(options@),
            ),
        decreases reactions@.len() - i,
    {
        let ghost before = r@;
        proof {
            assert(reactions_view(reactions@.subrange(0, i + 1)).drop_last() =~= reactions_view(
                reactions@.subrange(0, i as int),
            ));
        }
        let (emoji, count) = (&reactions[i].0, reactions[i].1);
        match slot_of(emoji) {
            Some(k) => {
                if k < options.len() {
                    let v = if count == 0 {
                        0
                    } else {
                        count - 1
                    };
                    r.push((v, options[k].clone()));
                    proof {
                        assert(tallies_view(r@) =~= tallies_view(before).push((v, options@[k as int]@)));
                    }
                }
            },
            None => {},
        }
        i = i + 1;
    }
    proof {
        assert(reactions@.subrange(0, reactions@.len() as int) =~= reactions@);
    }
    r
}

/// `a` comes before `b` in character order, comparing from position `i` on.
pub open spec fn text_less_from(a: Seq<char>, b: Seq<char>, i: int) -> bool
    decreases a.len() - i,
{
    if i < 0 {
        false
    } else if i >= a.len() {
        i < b.len()
    } else if i >= b.len() {
        false
    } else if a[i] != b[i] {
        (a[i] as u32) < (b[i] as u32)
    } else {
        text_less_from(a, b, i + 1)
    }
}

/// `a` comes before `b` in character order (the order of their UTF-8 bytes).
pub open spec fn text_less(a: Seq<char>, b: Seq<char>) -> bool {
    text_less_from(a, b, 0)
}

fn less_text(a: &String, b: &String) -> (r: bool)
    ensures
        r == text_less(a@, b@),
{
    let x = a.as_str();
    let y = b.as_str();
    let n = x.unicode_len();
    let m = y.unicode_len();
    let mut i: usize = 0;
    while i < n && i < m
        invariant
            n == x@.len(),
            m == y@.len(),
            x@ == a@,
            y@ == b@,
            i <= n,
            i <= m,
            text_less(a@, b@) == text_less_from(a@, b@, i as int),
        decreases n - i,
    {
        let c = x.get_char(i);
        let d = y.get_char(i);
        if c != d {
            return (c as u32) < (d as u32);
        }
        i = i + 1;
    }
    i >= n && i < m
}

/// `x` ranks strictly before `y`: more votes, or as many and a greater text.
pub open spec fn ranks_before(x: (u64, Seq<char>), y: (u64, Seq<char>)) -> bool {
    x.0 > y.0 || (x.0 == y.0 && text_less(y.1, x.1))
}

/// `x` put into the ranking `s` after every entry that it does not rank
/// before.
pub open spec fn insert_ranked(s: Seq<(u64, Seq<char>)>, x: (u64, Seq<char>)) -> Seq<
    (u64, Seq<char>),
>
    decreases s.len(),
{
    if s.len() == 0 {
        seq![x]
    } else if ranks_before(x, s[0]) {
        seq![x] + s
    } else {
        seq![s[0]] + insert_ranked(s.drop_first(), x)
    }
}

/// The tallies ranked by votes, then by text, both descending.
pub open spec fn ranked(t: Seq<(u64, Seq<char>)>) -> Seq<(u64, Seq<char>)>
    decreases t.len(),
{
    if t.len() == 0 {
        Seq::empty()
    } else {
        insert_ranked(ranked(t.drop_last()), t.last())
    }
}

proof fn lemma_insert_ranked(s: Seq<(u64, Seq<char>)>, x: (u64, Seq<char>), j: int)
    requires
        0 <= j <= s.len(),
        forall|k: int| 0 <= k < j ==> !ranks_before(x, #[trigger] s[k]),
        j < s.len() ==> ranks_before(x, s[j]),
    ensures
        insert_ranked(s, x) == s.insert(j, x),
    decreases s.len(),
{
    if s.len() == 0 {
        assert(s.insert(j, x) =~= seq![x]);
    } else if j == 0 {
        assert(s.insert(0, x) =~= seq![x] + s);
    } else {
        let d = s.drop_first();
        assert forall|k: int| 0 <= k < j - 1 implies !ranks_before(x, #[trigger] d[k]) by {
            assert(d[k] == s[k + 1]);
        }
        if j - 1 < d.len() {
            assert(d[j - 1] == s[j]);
        }
        lemma_insert_ranked(d, x, j - 1);
        assert(!ranks_before(x, s[0]));
        assert(seq![s[0]] + d.insert(j - 1, x) =~= s.insert(j, x));
    }
}

fn ranks_before_exec(x: &(u64, String), y: &(u64, String)) -> (r: bool)
    ensures
        r == ranks_before((x.0, x.1@), (y.0, y.1@)),
{
    x.0 > y.0 || (x.0 == y.0 && less_text(&y.1, &x.1))
}

/// The tallies ranked by votes, then by text, both descending.
pub fn rank(t: &Vec<(u64, String)>) -> (r: Vec<(u64, String)>)
    ensures
        tallies_view(r@) == ranked(tallies_view(t@)),
{
    let mut r: Vec<(u64, String)> = Vec::new();
    let mut k: usize = 0;
    proof {
        assert(tallies_view(t@).subrange(0, 0) =~= Seq::<(u64, Seq<char>)>::empty());
        assert(ranked(Seq::<(u64, Seq<char>)>::empty()) =~= tallies_view(r@));
    }
    while k < t.len()
        invariant
            k <= t@.len(),
            tallies_view(r@) == ranked(tallies_view(t@).subrange(0, k as int)),
        decreases t@.len() - k,
    {
        let x = &t[k];
        let mut j: usize = 0;
        let mut stop = false;
        while j < r.len() && !stop
            invariant
                j <= r@.len(),
                forall|q: int| 0 <= q < j ==> !ranks_before((x.0, x.1@), #[trigger] tallies_view(r@)[q]),
                stop ==> j < r@.len() && ranks_before((x.0, x.1@), tallies_view(r@)[j as int]),
            decreases r@.len() - j, if stop { 0int } else { 1int },
        {
            if ranks_before_exec(x, &r[j]) {
                stop = true;
            } else {
                j = j + 1;
            }
        }
        let ghost before = tallies_view(r@);
        r.insert(j, (x.0, x.1.clone()));
        proof {
            lemma_insert_ranked(before, (x.0, x.1@), j as int);
            assert(tallies_view(r@) =~= before.insert(j as int, (x.0, x.1@)));
            let p = tallies_view(t@).subrange(0, k + 1);
            assert(p.drop_last() =~= tallies_view(t@).subrange(0, k as int));
        }
        k = k + 1;
    }
    proof {
        assert(tallies_view(t@).subrange(0, t@.len() as int) =~= tallies_view(t@));
    }
    r
}

pub open spec fn vote_word(count: u64) -> Seq<char> {
    if count == 1 {
        "vote"@
    } else {
        "votes"@
    }
}

fn vote_str(count: u64) -> (r: &'static str)
    ensures
        r@ == vote_word(count),
{
    if count == 1 {
        "vote"
    } else {
        "votes"
    }
}

/// A number of votes, in words.
pub open spec fn count_text(n: u64) -> Seq<char> {
    decimal(n as nat) + " "@ + vote_word(n)
}

fn push_count(s: &mut String, n: u64)
    ensures
        final(s)@ == old(s)@ + count_text(n),
{
    push_decimal(s, n);
    push_str(s, " ");
    push_str(s, vote_str(n));
    assert(s@ =~= old(s)@ + count_text(n));
}

/// The number of leading entries of the ranking, from `i` on, that have as
/// many votes as the first.
pub open spec fn lead_from(r: Seq<(u64, Seq<char>)>, i: int) -> int
    decreases r.len() - i,
{
    if i < 1 || i >= r.len() || r[i].0 != r[0].0 {
        i
    } else {
        lead_from(r, i + 1)
    }
}

/// The texts joined with commas.
pub open spec fn joined(v: Seq<Seq<char>>) -> Seq<char>
    decreases v.len(),
{
    if v.len() == 0 {
        Seq::empty()
    } else if v.len() == 1 {
        v[0]
    } else {
        joined(v.drop_last()) + ", "@ + v.last()
    }
}

/// The line of a ranked option below the winners.
pub open spec fn entry_line(e: (u64, Seq<char>)) -> Seq<char> {
    "**"@ + e.1 + "** ("@ + count_text(e.0) + ")\n"@
}

/// The lines of the entries from `w` up to `k`.
pub open spec fn entry_lines(r: Seq<(u64, Seq<char>)>, w: int, k: int) -> Seq<char>
    decreases k - w,
{
    if k <= w {
        Seq::empty()
    } else {
        entry_lines(r, w, k - 1) + entry_line(r[k - 1])
    }
}

/// The results message of a poll on `topic` with the non-empty ranking `r`:
/// the winners (all options with the most votes), then the other options.
pub open spec fn results_text(topic: Seq<char>, r: Seq<(u64, Seq<char>)>) -> Seq<char> {
    let max = r[0].0;
    let w = lead_from(r, 1);
    let head = "results of "@ + topic + "\n"@;
    let verdict = if w > 1 {
        "**Tie between "@ + joined(r.subrange(0, w).map_values(|e: (u64, Seq<char>)| e.1))
            + "** ("@ + count_text(max) + " each)"@
    } else {
        "**"@ + r[0].1 + "** wins! ("@ + count_text(max) + ")"@
    };
    let tail = if r.len() > w {
        "\n\n>>> "@ + entry_lines(r, w, r.len() as int)
    } else {
        Seq::empty()
    };
    head + verdict + tail
}

/// The results message of a poll on `topic` with the non-empty ranking `r`.
pub fn results_message(topic: &String, r: &Vec<(u64, String)>) -> (m: String)
    requires
        r@.len() > 0,
    ensures
        m@ == results_text(topic@, tallies_view(r@)),
{
    let ghost rv = tallies_view(r@);
    let mut m = String::new();
    push_str(&mut m, "results of ");
    push_str(&mut m, topic.as_str());
    push_str(&mut m, "\n");
    let ghost head = m@;
    proof {
        assert(head =~= "results of "@ + topic@ + "\n"@);
    }
    let max = r[0].0;
    let mut w: usize = 1;
    while w < r.len() && r[w].0 == max
        invariant
            1 <= w <= r@.len(),
            rv == tallies_view(r@),
            max == rv[0].0,
            lead_from(rv, 1) == lead_from(rv, w as int),
        decreases r@.len() - w,
    {
        w = w + 1;
    }
    proof {
        assert(lead_from(rv, w as int) == w as int);
    }
    let ghost names = rv.subrange(0, w as int).map_values(|e: (u64, Seq<char>)| e.1);
    if w > 1 {
        push_str(&mut m, "**Tie between ");
        let ghost base = m@;
        let mut i: usize = 0;
        while i < w
            invariant
                i <= w <= r@.len(),
                rv == tallies_view(r@),
                names == rv.subrange(0, w as int).map_values(|e: (u64, Seq<char>)| e.1),
                m@ == base + joined(names.subrange(0, i as int)),
            decreases w - i,
        {
            proof {
                assert(names.subrange(0, i + 1).drop_last() =~= names.subrange(0, i as int));
                assert(names[i as int] == r@[i as int].1@);
            }
            if i > 0 {
                push_str(&mut m, ", ");
            }
            push_str(&mut m, r[i].1.as_str());
            proof {
                if i == 0 {
                    assert(names.subrange(0, 1) =~= seq![names[0]]);
                    assert(joined(names.subrange(0, 0)) =~= Seq::<char>::empty());
                }
                assert(m@ =~= base + joined(names.subrange(0, i + 1)));
            }
            i = i + 1;
        }
        proof {
            assert(names.subrange(0, w as int) =~= names);
        }
        push_str(&mut m, "** (");
        push_count(&mut m, max);
        push_str(&mut m, " each)");
    } else {
        push_str(&mut m, "**");
        push_str(&mut m, r[0].1.as_str());
        push_str(&mut m, "** wins! (");
        push_count(&mut m, max);
        push_str(&mut m, ")");
    }
    let ghost verdict = m@.subrange(head.len() as int, m@.len() as int);
    proof {
        assert(m@ =~= head + verdict);
    }
    if w < r.len() {
        push_str(&mut m, "\n\n>>> ");
        let ghost base = m@;
        let mut k: usize = w;
        proof {
            assert(entry_lines(rv, w as int, w as int) =~= Seq::<char>::empty());
        }
        while k < r.len()
            invariant
                w <= k <= r@.len(),
                rv == tallies_view(r@),
                m@ == base + entry_lines(rv, w as int, k as int),
            decreases r@.len() - k,
        {
            push_str(&mut m, "**");
            push_str(&mut m, r[k].1.as_str());
            push_str(&mut m, "** (");
            push_count(&mut m, r[k].0);
            push_str(&mut m, ")\n");
            proof {
                assert(rv[k as int] == (r@[k as int].0, r@[k as int].1@));
                assert(m@ =~= base + entry_lines(rv, w as int, k + 1));
            }
            k = k + 1;
        }
    }
    proof {
        let t = results_text(topic@, rv);
        assert(m@ =~= t);
    }
    m
}

/// The options a poll message shows: one per line of its description, none
/// without a description.
pub open spec fn options_shown(description: Option<String>) -> Seq<Seq<char>> {
    match description {
        Some(d) => options_of(d@),
        None => Seq::empty(),
    }
}

/// The ranking of the reactions on a poll message with this description.
pub open spec fn ranking(description: Option<String>, reactions: Seq<(Seq<char>, u64)>) -> Seq<
    (u64, Seq<char>),
> {
    ranked(tallies(reactions, options_shown(description)))
}

/// The results message of a poll on `topic` whose message has `description`
/// and carries `reactions`; none when no reaction stands for an option.
pub fn poll_results(topic: &String, description: &Option<String>, reactions: &Vec<(String, u64)>) -> (m:
    Option<String>)
    ensures
        ranking(*description, reactions_view(reactions@)).len() == 0 ==> m is None,
        ranking(*description, reactions_view(reactions@)).len() > 0 ==> (m matches Some(text)
            && text@ == results_text(topic@, ranking(*description, reactions_view(reactions@)))),
{
    let options = match description {
        Some(d) => parse_options(d.as_str()),
        None => Vec::new(),
    };
    proof {
        if description is None {
            assert(texts(options@) =~= Seq::<Seq<char>>::empty());
        }
    }
    let t = tally(reactions, &options);
    let r = rank(&t);
    if r.len() == 0 {
        None
    } else {
        Some(results_message(topic, &r))
    }
}

proof fn lemma_text_less_order(a: Seq<char>, b: Seq<char>, c: Seq<char>, i: int)
    requires
        i >= 0,
    ensures
        !text_less_from(a, a, i),
        text_less_from(a, b, i) ==> !text_less_from(b, a, i),
        text_less_from(a, b, i) && text_less_from(b, c, i) ==> text_less_from(a, c, i),
    decreases a.len() - i,
{
    if i < a.len() && i < b.len() && i < c.len() {
        lemma_text_less_order(a, b, c, i + 1);
    } else if i < a.len() && i < b.len() {
        lemma_text_less_order(a, b, c, i + 1);
    } else if i < a.len() {
        lemma_text_less_order(a, b, c, i + 1);
    }
}

proof fn lemma_ranks_before_order(x: (u64, Seq<char>), y: (u64, Seq<char>), z: (u64, Seq<char>))
    ensures
        !ranks_before(x, x),
        ranks_before(x, y) ==> !ranks_before(y, x),
        ranks_before(x, y) && ranks_before(y, z) ==> ranks_before(x, z),
{
    lemma_text_less_order(x.1, x.1, x.1, 0);
    lemma_text_less_order(y.1, x.1, z.1, 0);
    lemma_text_less_order(z.1, y.1, x.1, 0);
}

/// Where `insert_ranked` puts `x`: before the first entry that `x` ranks
/// before.
pub open spec fn insert_at(s: Seq<(u64, Seq<char>)>, x: (u64, Seq<char>)) -> int
    decreases s.len(),
{
    if s.len() == 0 || ranks_before(x, s[0]) {
        0
    } else {
        1 + insert_at(s.drop_first(), x)
    }
}

proof fn lemma_insert_at(s: Seq<(u64, Seq<char>)>, x: (u64, Seq<char>))
    ensures
        0 <= insert_at(s, x) <= s.len(),
        forall|k: int| 0 <= k < insert_at(s, x) ==> !ranks_before(x, #[trigger] s[k]),
        insert_at(s, x) < s.len() ==> ranks_before(x, s[insert_at(s, x)]),
        insert_ranked(s, x) == s.insert(insert_at(s, x), x),
    decreases s.len(),
{
    if s.len() > 0 && !ranks_before(x, s[0]) {
        let d = s.drop_first();
        lemma_insert_at(d, x);
        assert forall|k: int| 0 <= k < insert_at(s, x) implies !ranks_before(x, #[trigger] s[k]) by {
            if k > 0 {
                assert(s[k] == d[k - 1]);
            }
        }
        if insert_at(s, x) < s.len() {
            assert(s[insert_at(s, x)] == d[insert_at(d, x)]);
        }
    }
    lemma_insert_ranked(s, x, insert_at(s, x));
}

/// No entry ranks before an earlier one.
pub open spec fn is_ranked(r: Seq<(u64, Seq<char>)>) -> bool {
    forall|i: int, j: int| 0 <= i < j < r.len() ==> !ranks_before(#[trigger] r[j], #[trigger] r[i])
}

/// A ranking holds the same tallies as its input, ordered by votes and then
/// by text, both descending: no entry ranks before an earlier one.
pub proof fn law_ranking(t: Seq<(u64, Seq<char>)>)
    ensures
        ranked(t).to_multiset() == t.to_multiset(),
        is_ranked(ranked(t)),
    decreases t.len(),
{
    broadcast use vstd::seq_lib::to_multiset_insert, vstd::seq_lib::to_multiset_build;

    if t.len() == 0 {
        assert(ranked(t) =~= t);
    } else {
        let d = t.drop_last();
        let x = t.last();
        law_ranking(d);
        let s = ranked(d);
        let j = insert_at(s, x);
        lemma_insert_at(s, x);
        let r = s.insert(j, x);
        assert(t =~= d.push(x));
        assert forall|a: int, b: int| 0 <= a < b < r.len() implies !ranks_before(
            #[trigger] r[b],
            #[trigger] r[a],
        ) by {
            if b < j {
                assert(r[a] == s[a] && r[b] == s[b]);
            } else if b == j {
                assert(r[a] == s[a]);
                lemma_ranks_before_order(x, s[a], x);
            } else if a == j {
                assert(r[b] == s[b - 1]);
                if b - 1 == j {
                    lemma_ranks_before_order(x, s[j], x);
                } else {
                    assert(!ranks_before(s[b - 1], s[j]));
                    lemma_ranks_before_order(s[b - 1], x, s[j]);
                }
            } else if a < j {
                assert(r[a] == s[a] && r[b] == s[b - 1]);
            } else {
                assert(r[a] == s[a - 1] && r[b] == s[b - 1]);
            }
        }
    }
}

/// In a ranking, the winners (the leading entries with as many votes as the
/// first) are exactly the entries with the most votes.
pub proof fn law_winners(r: Seq<(u64, Seq<char>)>)
    requires
        r.len() > 0,
        is_ranked(r),
    ensures
        1 <= lead_from(r, 1) <= r.len(),
        forall|i: int| 0 <= i < r.len() ==> #[trigger] r[i].0 <= r[0].0,
        forall|i: int| 0 <= i < lead_from(r, 1) ==> #[trigger] r[i].0 == r[0].0,
        forall|i: int| lead_from(r, 1) <= i < r.len() ==> #[trigger] r[i].0 < r[0].0,
{
    lemma_lead_from(r, 1);
    assert forall|i: int| 0 <= i < r.len() implies #[trigger] r[i].0 <= r[0].0 by {
        if i > 0 {
            assert(!ranks_before(r[i], r[0]));
        }
    }
    let w = lead_from(r, 1);
    assert forall|i: int| w <= i < r.len() implies #[trigger] r[i].0 < r[0].0 by {
        if i > w {
            assert(!ranks_before(r[i], r[w]));
        }
    }
}

proof fn lemma_lead_from(r: Seq<(u64, Seq<char>)>, i: int)
    requires
        1 <= i <= r.len(),
        forall|k: int| 0 <= k < i ==> #[trigger] r[k].0 == r[0].0,
    ensures
        i <= lead_from(r, i) <= r.len(),
        forall|k: int| 0 <= k < lead_from(r, i) ==> #[trigger] r[k].0 == r[0].0,
        lead_from(r, i) < r.len() ==> r[lead_from(r, i)].0 != r[0].0,
    decreases r.len() - i,
{
    if i < r.len() && r[i].0 == r[0].0 {
        lemma_lead_from(r, i + 1);
    }
}

} // verus!
