use safety_scheduler::notify::{Action, MessageView, Outcome};
use safety_scheduler::poll::{parse_options, poll_results, rank, slot_of, tally};
use safety_scheduler::task::{Poll, Task};

fn lunch() -> Poll {
    Poll { author: 11, channel: 22, message: 33, others: false, topic: "lunch".to_string() }
}

fn reactions(v: &[(&str, u64)]) -> Vec<(String, u64)> {
    v.iter().map(|(e, c)| (e.to_string(), *c)).collect()
}

#[test]
fn tie_between_cats_and_dogs() {
    let d = Some(">>> :one:. cats\n:two:. dogs\n".to_string());
    let r = poll_results(&"lunch".to_string(), &d, &reactions(&[("1️⃣", 5), ("2️⃣", 5)]));
    assert_eq!(r, Some("results of lunch\n**Tie between dogs, cats** (4 votes each)".to_string()));
}

#[test]
fn single_winner_and_others() {
    let d = Some(">>> :one:. cats\n:two:. dogs\n:three:. fish\n".to_string());
    let r = poll_results(
        &"pets".to_string(),
        &d,
        &reactions(&[("1️⃣", 2), ("2️⃣", 4), ("3️⃣", 1), ("👍", 9)]),
    );
    assert_eq!(
        r,
        Some(
            "results of pets\n**dogs** wins! (3 votes)\n\n>>> **cats** (1 vote)\n**fish** (0 votes)\n"
                .to_string()
        )
    );
}

#[test]
fn no_option_reactions_no_results() {
    let d = Some(":one:. cats\n".to_string());
    assert_eq!(poll_results(&"x".to_string(), &d, &reactions(&[("👍", 3)])), None);
    assert_eq!(poll_results(&"x".to_string(), &None, &reactions(&[("1️⃣", 3)])), None);
}

#[test]
fn reaction_beyond_options_ignored() {
    let d = Some(":one:. cats".to_string());
    let r = poll_results(&"x".to_string(), &d, &reactions(&[("2️⃣", 7), ("1️⃣", 2)]));
    assert_eq!(r, Some("results of x\n**cats** wins! (1 vote)".to_string()));
}

#[test]
fn options_parsed_from_lines() {
    assert_eq!(
        parse_options(">>> :one:. cats\nplain\nend.\n"),
        vec!["cats".to_string(), "plain".to_string(), "".to_string(), "".to_string()]
    );
}

#[test]
fn slots_follow_emoji_order() {
    assert_eq!(slot_of(&"1️⃣".to_string()), Some(0));
    assert_eq!(slot_of(&"🔟".to_string()), Some(9));
    assert_eq!(slot_of(&"🇯".to_string()), Some(19));
    assert_eq!(slot_of(&"x".to_string()), None);
}

#[test]
fn ranking_by_votes_then_text() {
    let t = vec![(1u64, "b".to_string()), (3, "a".to_string()), (1, "c".to_string()), (3, "d".to_string())];
    assert_eq!(
        rank(&t),
        vec![(3u64, "d".to_string()), (3, "a".to_string()), (1, "c".to_string()), (1, "b".to_string())]
    );
}

#[test]
fn seed_reaction_not_counted() {
    let opts = vec!["a".to_string()];
    assert_eq!(tally(&reactions(&[("1️⃣", 1), ("1️⃣", 0)]), &opts), vec![(0u64, "a".to_string()), (0, "a".to_string())]);
}

#[test]
fn poll_steps() {
    let p = lunch();
    assert_eq!(p.step(&Outcome::Start), Action::Fetch(22, 33));
    assert_eq!(
        p.step(&Outcome::FetchFailed("gone".to_string())),
        Action::DirectMessage(11, "Failed to conclude poll lunch: gone".to_string())
    );
    let m = MessageView {
        description: Some(":one:. cats\n:two:. dogs".to_string()),
        reactions: reactions(&[("1️⃣", 3), ("2️⃣", 1)]),
    };
    assert_eq!(
        p.step(&Outcome::Fetched(m)),
        Action::Send(22, "results of lunch\n**cats** wins! (2 votes)\n\n>>> **dogs** (0 votes)\n".to_string())
    );
    assert_eq!(p.step(&Outcome::Sent), Action::Done);
    assert_eq!(p.step(&Outcome::SendFailed("x".to_string())), Action::Done);
    assert_eq!(Task::Poll(p).step(&Outcome::Start), Action::Fetch(22, 33));
}
