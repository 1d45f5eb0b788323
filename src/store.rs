//! The store that jobs live in: a content map (id to payload), a time index
//! (id to due time), a set of reserved ids and a reverse index (an outside
//! reference to a job id, with a time to live). Every change to it is one of
//! the commands below, so that a networked store and the in-memory one here
//! change in the same way.

use std::collections::HashMap;
use vstd::prelude::*;

use crate::table::{due_order, lemma_due_order, texts, Table};

verus! {

broadcast use vstd::std_specs::hash::group_hash_axioms;

/// What the store holds.
pub struct StoreView {
    pub jobs: Map<Seq<char>, Seq<u8>>,
    pub schedule: Map<Seq<char>, i64>,
    pub ids: Set<Seq<char>>,
    pub links: Map<u64, (Seq<char>, u64)>,
}

/// One write to the store.
pub enum Command {
    /// Sets the payload of a job.
    PutJob(String, Vec<u8>),
    /// Removes these jobs from the content map.
    DropJobs(Vec<String>),
    /// Sets the due time of a job in the time index.
    PutTime(String, i64),
    /// Removes a job from the time index.
    DropTime(String),
    /// Removes from the time index every job due at or before this time.
    DropTimesUpTo(i64),
    /// Adds an id to the reserved ids.
    Reserve(String),
    /// Removes these ids from the reserved ids.
    Release(Vec<String>),
    /// Points an outside reference at a job id for a number of seconds (a
    /// networked store lets the entry expire; the store in memory keeps it).
    Link(u64, String, u64),
    /// Empties the content map and the time index.
    ClearJobs,
}

pub open spec fn empty_view() -> StoreView {
    StoreView {
        jobs: Map::empty(),
        schedule: Map::empty(),
        ids: Set::empty(),
        links: Map::empty(),
    }
}

/// The time index without the jobs due at or before `now`.
pub open spec fn not_due(schedule: Map<Seq<char>, i64>, now: i64) -> Map<Seq<char>, i64> {
    schedule.restrict(schedule.dom().filter(|k: Seq<char>| schedule[k] > now))
}

/// The store after one command.
pub open spec fn apply(s: StoreView, c: Command) -> StoreView {
    match c {
        Command::PutJob(id, p) => StoreView { jobs: s.jobs.insert(id@, p@), ..s },
        Command::DropJobs(ids) => StoreView { jobs: s.jobs.remove_keys(texts(ids@).to_set()), ..s },
        Command::PutTime(id, t) => StoreView { schedule: s.schedule.insert(id@, t), ..s },
        Command::DropTime(id) => StoreView { schedule: s.schedule.remove(id@), ..s },
        Command::DropTimesUpTo(now) => StoreView { schedule: not_due(s.schedule, now), ..s },
        Command::Reserve(id) => StoreView { ids: s.ids.insert(id@), ..s },
        Command::Release(ids) => StoreView { ids: s.ids.difference(texts(ids@).to_set()), ..s },
        Command::Link(key, id, ttl) => StoreView { links: s.links.insert(key, (id@, ttl)), ..s },
        Command::ClearJobs => StoreView { jobs: Map::empty(), schedule: Map::empty(), ..s },
    }
}

/// The store after the commands, in order.
pub open spec fn apply_all(s: StoreView, cs: Seq<Command>) -> StoreView
    decreases cs.len(),
{
    if cs.len() == 0 {
        s
    } else {
        apply(apply_all(s, cs.drop_last()), cs.last())
    }
}

/// The result of a short pipeline, command by command.
pub proof fn lemma_apply_steps(s: StoreView, cs: Seq<Command>)
    ensures
        cs.len() == 0 ==> apply_all(s, cs) == s,
        cs.len() == 1 ==> apply_all(s, cs) == apply(s, cs[0]),
        cs.len() == 2 ==> apply_all(s, cs) == apply(apply(s, cs[0]), cs[1]),
        cs.len() == 3 ==> apply_all(s, cs) == apply(apply(apply(s, cs[0]), cs[1]), cs[2]),
{
    reveal_with_fuel(apply_all, 4);
    if cs.len() >= 1 {
        assert(cs.subrange(0, 1).drop_last() =~= Seq::<Command>::empty());
    }
    if cs.len() == 1 {
        assert(cs.drop_last() =~= Seq::<Command>::empty());
    }
    if cs.len() == 2 {
        assert(cs.drop_last().drop_last() =~= Seq::<Command>::empty());
    }
    if cs.len() == 3 {
        assert(cs.drop_last().drop_last().drop_last() =~= Seq::<Command>::empty());
    }
}

/// A store kept in memory.
pub struct MemoryStore {
    jobs: Table<Vec<u8>>,
    schedule: Table<i64>,
    ids: Table<u8>,
    links: HashMap<u64, (String, u64)>,
}

impl MemoryStore {
    pub closed spec fn wf(&self) -> bool {
        self.jobs.wf() && self.schedule.wf() && self.ids.wf()
    }

    pub closed spec fn view(&self) -> StoreView {
        StoreView {
            jobs: self.jobs@,
            schedule: self.schedule@,
            ids: self.ids@.dom(),
            links: Map::new(
                |k: u64| self.links@.contains_key(k),
                |k: u64| (self.links@[k].0@, self.links@[k].1),
            ),
        }
    }

    /// The ids due at or before `now`, in the order the time index keeps.
    pub closed spec fn due(&self, now: i64) -> Seq<Seq<char>> {
        due_order(self.schedule.pairs(), now)
    }

    /// The ids due at or before `now` are those of the time index with a due
    /// time at most `now`, each once.
    pub proof fn lemma_due(&self, now: i64)
        requires
            self.wf(),
        ensures
            self.due(now).no_duplicates(),
            forall|k: Seq<char>| #[trigger]
                self.due(now).contains(k) <==> self@.schedule.contains_key(k)
                    && self@.schedule[k] <= now,
    {
        self.schedule.lemma_pairs();
        lemma_due_order(self.schedule.pairs(), now);
        let p = self.schedule.pairs();
        assert forall|k: Seq<char>| #[trigger]
            self.due(now).contains(k) <==> self@.schedule.contains_key(k) && self@.schedule[k]
                <= now by {
            if self@.schedule.contains_key(k) {
                let i = choose|i: int| 0 <= i < p.len() && p[i].0 == k;
                assert(p[i].0 == k);
            }
        }
    }

    pub fn new() -> (r: MemoryStore)
        ensures
            r.wf(),
            r@ == empty_view(),
    {
        let r = MemoryStore {
            jobs: Table::new(),
            schedule: Table::new(),
            ids: Table::new(),
            links: HashMap::new(),
        };
        assert(r@.links =~= Map::<u64, (Seq<char>, u64)>::empty());
        assert(r@.ids =~= Set::<Seq<char>>::empty());
        r
    }

    /// Whether the content map holds `id`.
    pub fn has_job(&self, id: &String) -> (r: bool)
        requires
            self.wf(),
        ensures
            r == self@.jobs.contains_key(id@),
    {
        self.jobs.contains(id)
    }

    /// The payload of `id`.
    pub fn job(&self, id: &String) -> (r: Option<&Vec<u8>>)
        requires
            self.wf(),
        ensures
            r matches Some(p) ==> self@.jobs.contains_key(id@) && p@ == self@.jobs[id@],
            r is None ==> !self@.jobs.contains_key(id@),
    {
        self.jobs.get(id)
    }

    /// The due time of `id`.
    pub fn time_of(&self, id: &String) -> (r: Option<i64>)
        requires
            self.wf(),
        ensures
            r matches Some(t) ==> self@.schedule.contains_key(id@) && t == self@.schedule[id@],
            r is None ==> !self@.schedule.contains_key(id@),
    {
        match self.schedule.get(id) {
            Some(t) => Some(*t),
            None => None,
        }
    }

    /// Whether `id` is reserved.
    pub fn is_reserved(&self, id: &String) -> (r: bool)
        requires
            self.wf(),
        ensures
            r == self@.ids.contains(id@),
    {
        self.ids.contains(id)
    }

    /// The job id that the outside reference `key` points at.
    pub fn link_of(&self, key: u64) -> (r: Option<&String>)
        ensures
            r matches Some(id) ==> self@.links.contains_key(key) && id@ == self@.links[key].0,
            r is None ==> !self@.links.contains_key(key),
    {
        match self.links.get(&key) {
            Some(entry) => Some(&entry.0),
            None => None,
        }
    }

    /// The ids due at or before `now`.
    pub fn due_ids(&self, now: i64) -> (r: Vec<String>)
        requires
            self.wf(),
        ensures
            texts(r@) == self.due(now),
    {
        self.schedule.due_keys(now)
    }

    /// The payloads of `ids`, in order.
    pub fn fetch(&self, ids: &Vec<String>) -> (r: Vec<Vec<u8>>)
        requires
            self.wf(),
            forall|i: int| 0 <= i < ids@.len() ==> self@.jobs.contains_key(#[trigger] ids@[i]@),
        ensures
            r@.len() == ids@.len(),
            forall|i: int| 0 <= i < ids@.len() ==> #[trigger] r@[i]@ == self@.jobs[ids@[i]@],
    {
        let mut r: Vec<Vec<u8>> = Vec::new();
        let mut i: usize = 0;
        while i < ids.len()
            invariant
                self.wf(),
                i <= ids@.len(),
                r@.len() == i,
                forall|i: int| 0 <= i < ids@.len() ==> self@.jobs.contains_key(#[trigger] ids@[i]@),
                forall|j: int| 0 <= j < i ==> #[trigger] r@[j]@ == self@.jobs[ids@[j]@],
            decreases ids@.len() - i,
        {
            match self.jobs.get(&ids[i]) {
                Some(p) => r.push(p.clone()),
                None => r.push(Vec::new()),
            }
            i = i + 1;
        }
        r
    }

    fn drop_jobs(&mut self, ids: &Vec<String>)
        requires
            old(self).wf(),
        ensures
            final(self).wf(),
            final(self)@ == (StoreView { jobs: old(self)@.jobs.remove_keys(texts(ids@).to_set()), ..old(self)@ }),
    {
        proof {
            assert(texts(ids@.subrange(0, 0)).to_set() =~= Set::<Seq<char>>::empty());
            assert(self@.jobs.remove_keys(Set::<Seq<char>>::empty()) =~= self@.jobs);
        }
        let mut i: usize = 0;
        while i < ids.len()
            invariant
                self.wf(),
                i <= ids@.len(),
                self@ == (StoreView { jobs: old(self)@.jobs.remove_keys(texts(ids@.subrange(0, i as int)).to_set()), ..old(self)@ }),
            decreases ids@.len() - i,
        {
            self.jobs.remove(&ids[i]);
            proof {
                assert(texts(ids@.subrange(0, i + 1)).to_set() =~= texts(ids@.subrange(0, i as int)).to_set().insert(ids@[i as int]@)) by {
                    assert(texts(ids@.subrange(0, i + 1)) =~= texts(ids@.subrange(0, i as int)).push(ids@[i as int]@));
                    texts(ids@.subrange(0, i as int)).lemma_push_to_set_commute(ids@[i as int]@);
                }
                assert(self@.jobs =~= old(self)@.jobs.remove_keys(texts(ids@.subrange(0, i + 1)).to_set()));
            }
            i = i + 1;
        }
        assert(ids@.subrange(0, ids@.len() as int) =~= ids@);
    }

    fn release(&mut self, ids: &Vec<String>)
        requires
            old(self).wf(),
        ensures
            final(self).wf(),
            final(self)@ == (StoreView { ids: old(self)@.ids.difference(texts(ids@).to_set()), ..old(self)@ }),
    {
        proof {
            assert(texts(ids@.subrange(0, 0)).to_set() =~= Set::<Seq<char>>::empty());
            assert(self@.ids.difference(Set::<Seq<char>>::empty()) =~= self@.ids);
        }
        let mut i: usize = 0;
        while i < ids.len()
            invariant
                self.wf(),
                i <= ids@.len(),
                self@ == (StoreView { ids: old(self)@.ids.difference(texts(ids@.subrange(0, i as int)).to_set()), ..old(self)@ }),
            decreases ids@.len() - i,
        {
            self.ids.remove(&ids[i]);
            proof {
                assert(texts(ids@.subrange(0, i + 1)).to_set() =~= texts(ids@.subrange(0, i as int)).to_set().insert(ids@[i as int]@)) by {
                    assert(texts(ids@.subrange(0, i + 1)) =~= texts(ids@.subrange(0, i as int)).push(ids@[i as int]@));
                    texts(ids@.subrange(0, i as int)).lemma_push_to_set_commute(ids@[i as int]@);
                }
                assert(self@.ids =~= old(self)@.ids.difference(texts(ids@.subrange(0, i + 1)).to_set()));
            }
            i = i + 1;
        }
        assert(ids@.subrange(0, ids@.len() as int) =~= ids@);
    }

    fn drop_times_up_to(&mut self, now: i64)
        requires
            old(self).wf(),
        ensures
            final(self).wf(),
            final(self)@ == (StoreView { schedule: not_due(old(self)@.schedule, now), ..old(self)@ }),
    {
        let due = self.schedule.due_keys(now);
        proof {
            self.lemma_due(now);
        }
        let ghost gone = texts(due@).to_set();
        proof {
            assert(texts(due@.subrange(0, 0)).to_set() =~= Set::<Seq<char>>::empty());
            assert(self@.schedule.remove_keys(Set::<Seq<char>>::empty()) =~= self@.schedule);
        }
        let mut i: usize = 0;
        while i < due.len()
            invariant
                self.wf(),
                i <= due@.len(),
                gone == texts(due@).to_set(),
                self@ == (StoreView { schedule: old(self)@.schedule.remove_keys(texts(due@.subrange(0, i as int)).to_set()), ..old(self)@ }),
            decreases due@.len() - i,
        {
            self.schedule.remove(&due[i]);
            proof {
                assert(texts(due@.subrange(0, i + 1)).to_set() =~= texts(due@.subrange(0, i as int)).to_set().insert(due@[i as int]@)) by {
                    assert(texts(due@.subrange(0, i + 1)) =~= texts(due@.subrange(0, i as int)).push(due@[i as int]@));
                    texts(due@.subrange(0, i as int)).lemma_push_to_set_commute(due@[i as int]@);
                }
                assert(self@.schedule =~= old(self)@.schedule.remove_keys(texts(due@.subrange(0, i + 1)).to_set()));
            }
            i = i + 1;
        }
        proof {
            assert(due@.subrange(0, due@.len() as int) =~= due@);
            let o = old(self)@.schedule;
            assert forall|k: Seq<char>| gone.contains(k) <==> o.contains_key(k) && o[k] <= now by {
                assert(gone.contains(k) <==> old(self).due(now).contains(k));
            }
            assert(self@.schedule =~= not_due(o, now));
        }
    }

    /// Carries out one command.
    pub fn apply(&mut self, c: &Command)
        requires
            old(self).wf(),
        ensures
            final(self).wf(),
            final(self)@ == apply(old(self)@, *c),
    {
        match c {
            Command::PutJob(id, p) => {
                self.jobs.insert(id.clone(), p.clone());
                assert(self@.links =~= old(self)@.links);
            },
            Command::DropJobs(ids) => self.drop_jobs(ids),
            Command::PutTime(id, t) => {
                self.schedule.insert(id.clone(), *t);
            },
            Command::DropTime(id) => self.schedule.remove(id),
            Command::DropTimesUpTo(now) => self.drop_times_up_to(*now),
            Command::Reserve(id) => {
                self.ids.insert(id.clone(), 0u8);
                assert(self@.ids =~= old(self)@.ids.insert(id@));
            },
            Command::Release(ids) => self.release(ids),
            Command::Link(key, id, ttl) => {
                self.links.insert(*key, (id.clone(), *ttl));
                assert(self@.links =~= old(self)@.links.insert(*key, (id@, *ttl)));
            },
            Command::ClearJobs => {
                self.jobs.clear();
                self.schedule.clear();
            },
        }
    }

    /// Carries out the commands, in order.
    pub fn apply_all(&mut self, cs: &Vec<Command>)
        requires
            old(self).wf(),
        ensures
            final(self).wf(),
            final(self)@ == apply_all(old(self)@, cs@),
    {
        let mut i: usize = 0;
        while i < cs.len()
            invariant
                self.wf(),
                i <= cs@.len(),
                self@ == apply_all(old(self)@, cs@.subrange(0, i as int)),
            decreases cs@.len() - i,
        {
            self.apply(&cs[i]);
            proof {
                assert(cs@.subrange(0, i + 1).drop_last() =~= cs@.subrange(0, i as int));
            }
            i = i + 1;
        }
        assert(cs@.subrange(0, cs@.len() as int) =~= cs@);
    }
}

} // verus!
