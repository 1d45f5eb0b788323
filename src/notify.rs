//! What running a claimed task does: the messages it sends through the chat
//! service, decided one step at a time. The caller performs each action and
//! hands the outcome back; the next step depends only on the task and that
//! outcome.

use vstd::prelude::*;

use crate::poll::{poll_results, ranking, reactions_view, results_text};
use crate::task::{Event, EventView, Poll, PollView, Task, TaskView};
use crate::text::{decimal, push_decimal, push_str};

verus! {

/// What the chat service shows of a poll message: its description, if it has
/// one, and each emoji reaction with its count.
#[derive(Clone, Debug, PartialEq, Eq)]
pub struct MessageView {
    pub description: Option<String>,
    pub reactions: Vec<(String, u64)>,
}

/// What came of the last action.
#[derive(Clone, Debug, PartialEq, Eq)]
pub enum Outcome {
    /// Nothing was done yet.
    Start,
    /// The message was sent.
    Sent,
    /// Sending the message failed, for this reason.
    SendFailed(String),
    /// The message was fetched.
    Fetched(MessageView),
    /// Fetching the message failed, for this reason.
    FetchFailed(String),
}

/// The next thing to do.
#[derive(Clone, Debug, PartialEq, Eq)]
pub enum Action {
    /// Send a text to a channel.
    Send(u64, String),
    /// Send a text to a user directly.
    DirectMessage(u64, String),
    /// Fetch a message of a channel.
    Fetch(u64, u64),
    /// Nothing is left to do.
    Done,
}

pub enum ActionView {
    Send(u64, Seq<char>),
    DirectMessage(u64, Seq<char>),
    Fetch(u64, u64),
    Done,
}

impl View for Action {
    type V = ActionView;

    open spec fn view(&self) -> ActionView {
        match self {
            Action::Send(c, t) => ActionView::Send(*c, t@),
            Action::DirectMessage(u, t) => ActionView::DirectMessage(*u, t@),
            Action::Fetch(c, m) => ActionView::Fetch(*c, *m),
            Action::Done => ActionView::Done,
        }
    }
}

/// How a message names a user so that the user is notified.
pub open spec fn mention(id: u64) -> Seq<char> {
    "<@"@ + decimal(id as nat) + ">"@
}

/// The mentions of `ids`, joined with commas.
pub open spec fn mentions(ids: Seq<u64>) -> Seq<char>
    decreases ids.len(),
{
    if ids.len() == 0 {
        Seq::empty()
    } else if ids.len() == 1 {
        mention(ids[0])
    } else {
        mentions(ids.drop_last()) + ", "@ + mention(ids.last())
    }
}

/// The reminder an event sends to its channel.
pub open spec fn announcement(e: EventView) -> Seq<char> {
    "Time for **"@ + e.event + "** by "@ + mention(e.author) + "\n"@ + mentions(e.members)
}

/// The author and the members of an event, mentioned.
pub open spec fn author_and_members(e: EventView) -> Seq<char> {
    if e.members.len() == 0 {
        mention(e.author)
    } else {
        mention(e.author) + ", "@ + mentions(e.members)
    }
}

pub open spec fn event_step(e: EventView, o: Outcome) -> ActionView {
    match o {
        Outcome::Start => ActionView::Send(e.channel, announcement(e)),
        Outcome::SendFailed(reason) => ActionView::DirectMessage(
            e.author,
            "Failed to hold event "@ + e.event + ": "@ + reason@,
        ),
        _ => ActionView::Done,
    }
}

pub open spec fn poll_step(p: PollView, o: Outcome) -> ActionView {
    match o {
        Outcome::Start => ActionView::Fetch(p.channel, p.message),
        Outcome::FetchFailed(reason) => ActionView::DirectMessage(
            p.author,
            "Failed to conclude poll "@ + p.topic + ": "@ + reason@,
        ),
        Outcome::Fetched(m) => {
            let r = ranking(m.description, reactions_view(m.reactions@));
            if r.len() > 0 {
                ActionView::Send(p.channel, results_text(p.topic, r))
            } else {
                ActionView::Done
            }
        },
        _ => ActionView::Done,
    }
}

pub open spec fn task_step(t: TaskView, o: Outcome) -> ActionView {
    match t {
        TaskView::Event(e) => event_step(e, o),
        TaskView::Poll(p) => poll_step(p, o),
    }
}

fn push_mention(s: &mut String, id: u64)
    ensures
        final(s)@ == old(s)@ + mention(id),
{
    push_str(s, "<@");
    push_decimal(s, id);
    push_str(s, ">");
    assert(s@ =~= old(s)@ + mention(id));
}

fn push_mentions(s: &mut String, ids: &Vec<u64>)
    ensures
        final(s)@ == old(s)@ + mentions(ids@),
{
    let ghost base = s@;
    let mut i: usize = 0;
    proof {
        assert(mentions(ids@.subrange(0, 0)) =~= Seq::<char>::empty());
        assert(s@ =~= base + mentions(ids@.subrange(0, 0)));
    }
    while i < ids.len()
        invariant
            i <= ids@.len(),
            s@ == base + mentions(ids@.subrange(0, i as int)),
        decreases ids@.len() - i,
    {
        proof {
            assert(ids@.subrange(0, i + 1).drop_last() =~= ids@.subrange(0, i as int));
        }
        if i > 0 {
            push_str(s, ", ");
        }
        push_mention(s, ids[i]);
        proof {
            if i == 0 {
                assert(ids@.subrange(0, 1) =~= seq![ids@[0]]);
            }
            assert(s@ =~= base + mentions(ids@.subrange(0, i + 1)));
        }
        i = i + 1;
    }
    assert(ids@.subrange(0, ids@.len() as int) =~= ids@);
}

impl Event {
    /// The members, mentioned and joined with commas.
    pub fn members(&self) -> (r: String)
        ensures
            r@ == mentions(self.members@),
    {
        let mut r = String::new();
        push_mentions(&mut r, &self.members);
        assert(r@ =~= mentions(self.members@));
        r
    }

    /// The author and then the members, mentioned and joined with commas.
    pub fn members_and_author(&self) -> (r: String)
        ensures
            r@ == author_and_members(self@),
    {
        let mut r = String::new();
        push_mention(&mut r, self.author);
        if self.members.len() > 0 {
            push_str(&mut r, ", ");
            push_mentions(&mut r, &self.members);
        }
        assert(r@ =~= author_and_members(self@));
        r
    }

    /// The next action of this event's reminder after `o`.
    pub fn step(&self, o: &Outcome) -> (r: Action)
        ensures
            r@ == event_step(self@, *o),
    {
        match o {
            Outcome::Start => {
                let mut text = String::new();
                push_str(&mut text, "Time for **");
                push_str(&mut text, self.event.as_str());
                push_str(&mut text, "** by ");
                push_mention(&mut text, self.author);
                push_str(&mut text, "\n");
                push_mentions(&mut text, &self.members);
                assert(text@ =~= announcement(self@));
                Action::Send(self.channel, text)
            },
            Outcome::SendFailed(reason) => {
                let mut text = String::new();
                push_str(&mut text, "Failed to hold event ");
                push_str(&mut text, self.event.as_str());
                push_str(&mut text, ": ");
                push_str(&mut text, reason.as_str());
                assert(text@ =~= "Failed to hold event "@ + self.event@ + ": "@ + reason@);
                Action::DirectMessage(self.author, text)
            },
            _ => Action::Done,
        }
    }
}

impl Poll {
    /// The next action of closing this poll after `o`.
    pub fn step(&self, o: &Outcome) -> (r: Action)
        ensures
            r@ == poll_step(self@, *o),
    {
        match o {
            Outcome::Start => Action::Fetch(self.channel, self.message),
            Outcome::FetchFailed(reason) => {
                let mut text = String::new();
                push_str(&mut text, "Failed to conclude poll ");
                push_str(&mut text, self.topic.as_str());
                push_str(&mut text, ": ");
                push_str(&mut text, reason.as_str());
                assert(text@ =~= "Failed to conclude poll "@ + self.topic@ + ": "@ + reason@);
                Action::DirectMessage(self.author, text)
            },
            Outcome::Fetched(m) => {
                let results = poll_results(&self.topic, &m.description, &m.reactions);
                match results {
                    Some(text) => Action::Send(self.channel, text),
                    None => Action::Done,
                }
            },
            _ => Action::Done,
        }
    }
}

impl Task {
    /// The next action, given the outcome `o` of the last one.
    pub fn step(&self, o: &Outcome) -> (r: Action)
        ensures
            r@ == task_step(self@, *o),
    {
        match self {
            Task::Event(e) => e.step(o),
            Task::Poll(p) => p.step(o),
        }
    }
}

/// A task that runs as a sequence of steps, each decided from the outcome of
/// the last.
pub trait Callable<T> {
    fn call(&self, arg: &T) -> Action;
}

impl Callable<Outcome> for Event {
    fn call(&self, arg: &Outcome) -> (r: Action)
        ensures
            r@ == event_step(self@, *arg),
    {
        self.step(arg)
    }
}

impl Callable<Outcome> for Poll {
    fn call(&self, arg: &Outcome) -> (r: Action)
        ensures
            r@ == poll_step(self@, *arg),
    {
        self.step(arg)
    }
}

impl Callable<Outcome> for Task {
    fn call(&self, arg: &Outcome) -> (r: Action)
        ensures
            r@ == task_step(self@, *arg),
    {
        self.step(arg)
    }
}

} // verus!
