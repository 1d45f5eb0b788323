use safety_scheduler::scheduler::{
    plan_claim, plan_create, plan_create_fresh, plan_edit, plan_remove, plan_reserve, MyVec,
    Scheduler, SchedulerError,
};
use safety_scheduler::store::Command;
use safety_scheduler::task::{Event, Poll, Task};

const T: i64 = 1_700_000_000;

fn event(topic: &str) -> Task {
    Task::Event(Event {
        author: 11,
        channel: 22,
        event: topic.to_string(),
        members: vec![33, 44],
        time: "1/1/24 7:00 PM EDT".to_string(),
    })
}

fn poll(topic: &str, others: bool) -> Task {
    Task::Poll(Poll { author: 11, channel: 22, message: 55, others, topic: topic.to_string() })
}

fn id(s: &str) -> String {
    s.to_string()
}

#[test]
fn event_claimed_once_when_due() {
    let mut s = Scheduler::new();
    s.schedule_job(&event("standup"), &id("e1"), T + 60, None);
    assert_eq!(s.get_and_clear_ready_jobs(T + 30), Ok(vec![]));
    assert_eq!(s.get_and_clear_ready_jobs(T + 61), Ok(vec![event("standup")]));
    assert_eq!(s.get_job(&id("e1")), Err(SchedulerError::NotFound));
}

#[test]
fn reserved_ids_differ() {
    let mut s = Scheduler::new();
    let a = s.reserve_id().unwrap();
    let b = s.reserve_id().unwrap();
    assert_eq!(a.chars().count(), 6);
    assert_eq!(b.chars().count(), 6);
    assert!(a.chars().all(|c| c.is_ascii_alphanumeric()));
    assert!(b.chars().all(|c| c.is_ascii_alphanumeric()));
    assert_ne!(a, b);
}

#[test]
fn many_reserved_ids_are_unique() {
    let mut s = Scheduler::new();
    let mut seen = std::collections::HashSet::new();
    for _ in 0..500 {
        let r = s.reserve_id().unwrap();
        assert!(seen.insert(r));
    }
}

#[test]
fn poll_rescheduled_by_edit() {
    let mut s = Scheduler::new();
    s.schedule_job(&poll("lunch", false), &id("p1"), T + 3600, None);
    assert_eq!(s.edit_job(&poll("lunch", true), &id("p1"), Some(T + 7200)), Ok(()));
    assert_eq!(s.get_job(&id("p1")), Ok(poll("lunch", true)));
    assert_eq!(s.get_and_clear_ready_jobs(T + 3700), Ok(vec![]));
    assert_eq!(s.get_and_clear_ready_jobs(T + 7201), Ok(vec![poll("lunch", true)]));
}

#[test]
fn edit_of_missing_job_is_not_found() {
    let mut s = Scheduler::new();
    assert_eq!(s.edit_job(&event("anything"), &id("nope"), None), Err(SchedulerError::NotFound));
    assert_eq!(s.get_job(&id("nope")), Err(SchedulerError::NotFound));
}

#[test]
fn two_events_due_together_claimed_together() {
    let mut s = Scheduler::new();
    s.schedule_job(&event("a"), &id("x1"), T, None);
    s.schedule_job(&event("b"), &id("x2"), T, None);
    let first = s.get_and_clear_ready_jobs(T).unwrap();
    assert_eq!(first.len(), 2);
    assert!(first.contains(&event("a")));
    assert!(first.contains(&event("b")));
    assert_eq!(s.get_and_clear_ready_jobs(T), Ok(vec![]));
}

#[test]
fn created_job_reads_back() {
    let mut s = Scheduler::new();
    let t = Task::Event(Event {
        author: u64::MAX,
        channel: 0,
        event: "café ☕ 日本".to_string(),
        members: vec![],
        time: String::new(),
    });
    s.schedule_job(&t, &id("r1"), -5, None);
    assert_eq!(s.get_job(&id("r1")), Ok(t));
}

#[test]
fn second_claim_is_empty() {
    let mut s = Scheduler::new();
    s.schedule_job(&poll("q", false), &id("c1"), T, None);
    s.schedule_job(&poll("r", false), &id("c2"), T + 10, None);
    assert_eq!(s.get_and_clear_ready_jobs(T), Ok(vec![poll("q", false)]));
    assert_eq!(s.get_and_clear_ready_jobs(T), Ok(vec![]));
    assert_eq!(s.get_job(&id("c2")), Ok(poll("r", false)));
}

#[test]
fn peek_does_not_claim() {
    let mut s = Scheduler::new();
    s.schedule_job(&poll("q", false), &id("k1"), T, None);
    assert_eq!(s.get_ready_jobs(T), Ok(vec![poll("q", false)]));
    assert_eq!(s.get_ready_jobs(T), Ok(vec![poll("q", false)]));
    assert_eq!(s.get_ready_jobs(T - 1), Ok(vec![]));
    assert_eq!(s.get_and_clear_ready_jobs(T), Ok(vec![poll("q", false)]));
}

#[test]
fn removal_is_idempotent() {
    let mut s = Scheduler::new();
    s.remove_job(&id("ghost"));
    s.remove_job(&id("ghost"));
    s.schedule_job(&event("x"), &id("d1"), T, None);
    s.remove_job(&id("d1"));
    assert_eq!(s.get_job(&id("d1")), Err(SchedulerError::NotFound));
    s.remove_job(&id("d1"));
    assert_eq!(s.get_and_clear_ready_jobs(T), Ok(vec![]));
}

#[test]
fn edit_without_time_keeps_schedule() {
    let mut s = Scheduler::new();
    s.schedule_job(&event("t1"), &id("s1"), T, None);
    assert_eq!(s.edit_job(&event("t2"), &id("s1"), None), Ok(()));
    assert_eq!(s.get_and_clear_ready_jobs(T - 1), Ok(vec![]));
    assert_eq!(s.get_and_clear_ready_jobs(T), Ok(vec![event("t2")]));
}

#[test]
fn index_stays_consistent() {
    let mut s = Scheduler::new();
    s.schedule_job(&event("a"), &id("i1"), T, None);
    s.schedule_job(&event("b"), &id("i2"), T + 100, None);
    s.edit_job(&event("c"), &id("i2"), Some(T - 100)).unwrap();
    s.remove_job(&id("i1"));
    let claimed = s.get_and_clear_ready_jobs(T).unwrap();
    assert_eq!(claimed, vec![event("c")]);
    assert_eq!(s.get_job(&id("i1")), Err(SchedulerError::NotFound));
    assert_eq!(s.get_job(&id("i2")), Err(SchedulerError::NotFound));
    assert_eq!(s.get_and_clear_ready_jobs(i64::MAX), Ok(vec![]));
}

#[test]
fn pop_returns_and_removes() {
    let mut s = Scheduler::new();
    s.schedule_job(&poll("p", true), &id("o1"), T, None);
    assert_eq!(s.pop_job(&id("o1")), Ok(Some(poll("p", true))));
    assert_eq!(s.pop_job(&id("o1")), Ok(None));
    assert_eq!(s.get_job(&id("o1")), Err(SchedulerError::NotFound));
}

#[test]
fn clear_drops_every_job() {
    let mut s = Scheduler::new();
    s.schedule_job(&poll("p", true), &id("z1"), T, None);
    s.schedule_job(&poll("p", true), &id("z2"), T + 1, None);
    s.clear_jobs();
    assert_eq!(s.get_job(&id("z1")), Err(SchedulerError::NotFound));
    assert_eq!(s.get_and_clear_ready_jobs(i64::MAX), Ok(vec![]));
}

#[test]
fn link_points_at_job() {
    let mut s = Scheduler::new();
    s.schedule_job(&poll("p", true), &id("l1"), T, Some((55, 3600)));
    assert_eq!(s.linked_job(55), Some(&id("l1")));
    assert_eq!(s.linked_job(56), None);
}

#[test]
fn reserved_id_becomes_job() {
    let mut s = Scheduler::new();
    let r = s.reserve_id().unwrap();
    s.schedule_job(&event("later"), &r, T, None);
    assert_eq!(s.get_job(&r), Ok(event("later")));
    assert_eq!(s.get_and_clear_ready_jobs(T), Ok(vec![event("later")]));
}

#[test]
fn plans_hold_the_expected_commands() {
    let c = plan_create(&event("a"), &id("n1"), T, Some((7, 9)));
    assert_eq!(c.len(), 3);
    assert!(matches!(&c[0], Command::PutTime(i, t) if i == "n1" && *t == T));
    assert!(matches!(&c[2], Command::Link(7, i, 9) if i == "n1"));
    assert!(matches!(plan_edit(&event("a"), &id("n1"), None, false), Err(SchedulerError::NotFound)));
    assert_eq!(plan_edit(&event("a"), &id("n1"), Some(T), true).unwrap().len(), 2);
    assert_eq!(plan_remove(&id("n1"), false).len(), 0);
    assert_eq!(plan_remove(&id("n1"), true).len(), 3);
    assert_eq!(plan_claim(&vec![], T).len(), 0);
    assert!(matches!(plan_claim(&vec![id("n1")], T).last(), Some(Command::DropTimesUpTo(t)) if *t == T));
    assert!(plan_reserve(&id("n1"), true).is_none());
    assert_eq!(plan_reserve(&id("n1"), false).unwrap().len(), 1);
}

#[test]
fn corrupt_payload_fails_whole_batch() {
    let good = safety_scheduler::codec::encode(&event("ok"));
    let batch = MyVec { v: vec![good.clone(), vec![9, 9, 9]] };
    assert_eq!(batch.decode_all(), Err(SchedulerError::Codec));
    let fine = MyVec { v: vec![good] };
    assert_eq!(fine.decode_all(), Ok(vec![event("ok")]));
}

#[test]
fn job_under_fresh_id() {
    let mut s = Scheduler::new();
    let a = s.schedule_new_job(&event("x"), T).unwrap();
    let b = s.schedule_new_job(&event("y"), T + 1).unwrap();
    assert_ne!(a, b);
    assert_eq!(a.chars().count(), 6);
    assert_eq!(s.get_job(&a), Ok(event("x")));
    assert_eq!(s.get_and_clear_ready_jobs(T + 1).unwrap().len(), 2);
    assert!(plan_create_fresh(&event("x"), &id("f1"), T, true).is_none());
    assert_eq!(plan_create_fresh(&event("x"), &id("f1"), T, false).unwrap().len(), 2);
}
