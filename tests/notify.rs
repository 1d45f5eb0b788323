use safety_scheduler::notify::{Action, Callable, Outcome};
use safety_scheduler::task::{Event, Task};

fn standup(members: Vec<u64>) -> Event {
    Event { author: 1, channel: 2, event: "standup".to_string(), members, time: "9am".to_string() }
}

#[test]
fn mentions_of_members() {
    assert_eq!(standup(vec![3, 40]).members(), "<@3>, <@40>");
    assert_eq!(standup(vec![]).members(), "");
    assert_eq!(standup(vec![3, 40]).members_and_author(), "<@1>, <@3>, <@40>");
    assert_eq!(standup(vec![]).members_and_author(), "<@1>");
}

#[test]
fn event_steps() {
    let e = standup(vec![3, 18446744073709551615]);
    assert_eq!(
        e.step(&Outcome::Start),
        Action::Send(2, "Time for **standup** by <@1>\n<@3>, <@18446744073709551615>".to_string())
    );
    assert_eq!(
        e.step(&Outcome::SendFailed("forbidden".to_string())),
        Action::DirectMessage(1, "Failed to hold event standup: forbidden".to_string())
    );
    assert_eq!(e.step(&Outcome::Sent), Action::Done);
    assert_eq!(e.call(&Outcome::Sent), Action::Done);
    assert_eq!(Task::Event(e).call(&Outcome::Start), Action::Send(2, "Time for **standup** by <@1>\n<@3>, <@18446744073709551615>".to_string()));
}

#[test]
fn zero_id_mention() {
    let e = Event { author: 0, channel: 5, event: "e".to_string(), members: vec![], time: String::new() };
    assert_eq!(e.step(&Outcome::Start), Action::Send(5, "Time for **e** by <@0>\n".to_string()));
}
