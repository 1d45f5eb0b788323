//! The tasks a job can carry, and their mathematical views.

use vstd::prelude::*;

verus! {

/// A reminder for an event: who set it up, where to announce it, what it is,
/// who signed up, and the time label shown to users.
#[derive(Clone, Debug, PartialEq, Eq)]
pub struct Event {
    pub author: u64,
    pub channel: u64,
    pub event: String,
    pub members: Vec<u64>,
    pub time: String,
}

/// The closing of a poll whose options and votes live on a chat message.
#[derive(Clone, Debug, PartialEq, Eq)]
pub struct Poll {
    pub author: u64,
    pub channel: u64,
    pub message: u64,
    pub others: bool,
    pub topic: String,
}

/// The payload of a job.
#[derive(Clone, Debug, PartialEq, Eq)]
pub enum Task {
    Event(Event),
    Poll(Poll),
}

pub struct EventView {
    pub author: u64,
    pub channel: u64,
    pub event: Seq<char>,
    pub members: Seq<u64>,
    pub time: Seq<char>,
}

pub struct PollView {
    pub author: u64,
    pub channel: u64,
    pub message: u64,
    pub others: bool,
    pub topic: Seq<char>,
}

pub enum TaskView {
    Event(EventView),
    Poll(PollView),
}

impl View for Event {
    type V = EventView;

    open spec fn view(&self) -> EventView {
        EventView {
            author: self.author,
            channel: self.channel,
            event: self.event@,
            members: self.members@,
            time: self.time@,
        }
    }
}

impl View for Poll {
    type V = PollView;

    open spec fn view(&self) -> PollView {
        PollView {
            author: self.author,
            channel: self.channel,
            message: self.message,
            others: self.others,
            topic: self.topic@,
        }
    }
}

impl View for Task {
    type V = TaskView;

    open spec fn view(&self) -> TaskView {
        match self {
            Task::Event(e) => TaskView::Event(e@),
            Task::Poll(p) => TaskView::Poll(p@),
        }
    }
}

} // verus!
