//! The scheduler: jobs kept consistently in a content map and a time index,
//! created, read, edited, removed and claimed when due.
//!
//! Every operation is split in two. A plan function decides, from what was
//! read under watch, which commands to commit; it is what a networked store
//! runs inside its optimistic transaction. `Scheduler` runs the same plans on
//! a `MemoryStore`, where each operation is atomic by construction.

use vstd::prelude::*;

use crate::codec::{decode, encodable, encode, task_bytes};
use crate::rng::{is_alphanumeric, random_id, ID_LEN};
use crate::store::{apply, apply_all, lemma_apply_steps, empty_view, not_due, Command, MemoryStore, StoreView};
use crate::table::texts;
use crate::task::{Task, TaskView};

verus! {

/// Why an operation of the scheduler failed.
#[derive(PartialEq, Eq, Structural, Clone, Copy, Debug)]
pub enum SchedulerError {
    /// No job has the id.
    NotFound,
    /// A payload is not the stored form of any task.
    Codec,
    /// The store could not complete the operation (for instance, no free id
    /// was found within the allowed attempts).
    Transport,
}

/// Payloads fetched from the content map, in the order of the ids asked for.
#[derive(Clone, Debug, PartialEq, Eq)]
pub struct MyVec {
    pub v: Vec<Vec<u8>>,
}

/// `b` is the stored form of some task.
pub open spec fn decodes(b: Seq<u8>) -> bool {
    exists|tv: TaskView| task_bytes(tv) == b && encodable(tv)
}

/// The content map and the time index hold the same ids.
pub open spec fn consistent(s: StoreView) -> bool {
    s.jobs.dom() == s.schedule.dom()
}

/// The ids of the time index due at or before `now`.
pub open spec fn due_set(s: StoreView, now: i64) -> Set<Seq<char>> {
    s.schedule.dom().filter(|k: Seq<char>| s.schedule[k] <= now)
}

/// An id that a reservation may hand out: neither reserved nor in use.
pub open spec fn free_id(s: StoreView, id: Seq<char>) -> bool {
    !s.ids.contains(id) && !s.jobs.contains_key(id)
}

/// The store after a job is created.
pub open spec fn created(
    s: StoreView,
    t: TaskView,
    id: Seq<char>,
    due: i64,
    link: Option<(u64, u64)>,
) -> StoreView {
    StoreView {
        jobs: s.jobs.insert(id, task_bytes(t)),
        schedule: s.schedule.insert(id, due),
        ids: s.ids,
        links: match link {
            Some((key, ttl)) => s.links.insert(key, (id, ttl)),
            None => s.links,
        },
    }
}

/// The store after a job's payload, and its due time if one is given, are
/// replaced.
pub open spec fn edited(s: StoreView, t: TaskView, id: Seq<char>, due: Option<i64>) -> StoreView {
    StoreView {
        jobs: s.jobs.insert(id, task_bytes(t)),
        schedule: match due {
            Some(d) => s.schedule.insert(id, d),
            None => s.schedule,
        },
        ..s
    }
}

/// The store after a removal: a job of the time index leaves the content map,
/// the time index and the reserved ids; otherwise nothing changes.
pub open spec fn removed(s: StoreView, id: Seq<char>) -> StoreView {
    if s.schedule.contains_key(id) {
        StoreView {
            jobs: s.jobs.remove(id),
            schedule: s.schedule.remove(id),
            ids: s.ids.remove(id),
            ..s
        }
    } else {
        s
    }
}

/// The store after the jobs due at or before `now` are claimed.
pub open spec fn claimed(s: StoreView, now: i64) -> StoreView {
    StoreView {
        jobs: s.jobs.remove_keys(due_set(s, now)),
        schedule: not_due(s.schedule, now),
        ids: s.ids.difference(due_set(s, now)),
        ..s
    }
}

/// Every id a draw can give (`ID_LEN` ASCII letters and digits) is neither
/// reserved nor in use, so the first draw is free.
pub open spec fn all_draws_free(s: StoreView) -> bool {
    forall|c: Seq<char>|
        c.len() == ID_LEN && (forall|i: int| 0 <= i < c.len() ==> is_alphanumeric(#[trigger] c[i]))
            ==> #[trigger] free_id(s, c)
}

/// The store after an id is reserved.
pub open spec fn reserved(s: StoreView, id: Seq<char>) -> StoreView {
    StoreView { ids: s.ids.insert(id), ..s }
}

proof fn lemma_one(id: String)
    ensures
        texts(seq![id]).to_set() == set![id@],
{
    assert(texts(seq![id]) =~= seq![id@]);
    assert(seq![id@].to_set() =~= set![id@]) by {
        assert(seq![id@].contains(id@)) by {
            assert(seq![id@][0] == id@);
        }
    }
}

/// The commands that create a job: its due time, its payload and, if asked,
/// a reverse-index entry, all in one pipeline.
pub fn plan_create(task: &Task, id: &String, due: i64, link: Option<(u64, u64)>) -> (r: Vec<
    Command,
>)
    ensures
        forall|s: StoreView| #[trigger] apply_all(s, r@) == created(s, task@, id@, due, link),
{
    let mut r: Vec<Command> = Vec::new();
    r.push(Command::PutTime(id.clone(), due));
    r.push(Command::PutJob(id.clone(), encode(task)));
    match link {
        Some((key, ttl)) => r.push(Command::Link(key, id.clone(), ttl)),
        None => {},
    }
    proof {
        assert forall|s: StoreView| #[trigger] apply_all(s, r@) == created(s, task@, id@, due, link) by {
            lemma_apply_steps(s, r@);
        }
    }
    r
}

/// The commands that replace a job's payload (and due time, if given), or
/// `NotFound` when the content map does not hold the id.
pub fn plan_edit(task: &Task, id: &String, due: Option<i64>, exists: bool) -> (r: Result<
    Vec<Command>,
    SchedulerError,
>)
    ensures
        !exists ==> r == Err::<Vec<Command>, SchedulerError>(SchedulerError::NotFound),
        exists ==> (r matches Ok(cs) && forall|s: StoreView| #[trigger]
            apply_all(s, cs@) == edited(s, task@, id@, due)),
{
    if !exists {
        return Err(SchedulerError::NotFound);
    }
    let mut r: Vec<Command> = Vec::new();
    r.push(Command::PutJob(id.clone(), encode(task)));
    match due {
        Some(d) => r.push(Command::PutTime(id.clone(), d)),
        None => {},
    }
    proof {
        assert forall|s: StoreView| #[trigger] apply_all(s, r@) == edited(s, task@, id@, due) by {
            lemma_apply_steps(s, r@);
        }
    }
    Ok(r)
}

/// The commands that remove a job, given whether the time index holds it; a
/// job that is not there needs none.
pub fn plan_remove(id: &String, scheduled: bool) -> (r: Vec<Command>)
    ensures
        forall|s: StoreView|
            s.schedule.contains_key(id@) == scheduled ==> #[trigger] apply_all(s, r@) == removed(
                s,
                id@,
            ),
        !scheduled ==> r@.len() == 0,
{
    let mut r: Vec<Command> = Vec::new();
    if scheduled {
        let mut one: Vec<String> = Vec::new();
        one.push(id.clone());
        let mut two: Vec<String> = Vec::new();
        two.push(id.clone());
        r.push(Command::Release(one));
        r.push(Command::DropJobs(two));
        r.push(Command::DropTime(id.clone()));
        proof {
            lemma_one(*id);
            assert forall|s: StoreView| s.schedule.contains_key(id@) implies #[trigger]
                apply_all(s, r@) == removed(s, id@) by {
                lemma_apply_steps(s, r@);
                assert(r@[0] matches Command::Release(v) && v@ =~= seq![*id]);
                assert(r@[1] matches Command::DropJobs(v) && v@ =~= seq![*id]);
                let s3 = apply_all(s, r@);
                assert(s3.jobs =~= s.jobs.remove(id@));
                assert(s3.ids =~= s.ids.remove(id@));
            }
        }
    }
    r
}

/// The commands that claim the jobs due at or before `now`, given the ids the
/// time index reported as due: they leave the content map, the reserved ids
/// and the time index in one pipeline. Nothing is due, nothing is written.
pub fn plan_claim(ready: &Vec<String>, now: i64) -> (r: Vec<Command>)
    ensures
        forall|s: StoreView|
            texts(ready@).to_set() == due_set(s, now) ==> #[trigger] apply_all(s, r@) == claimed(
                s,
                now,
            ),
        ready@.len() == 0 <==> r@.len() == 0,
{
    let mut r: Vec<Command> = Vec::new();
    if ready.len() == 0 {
        proof {
            assert forall|s: StoreView|
                texts(ready@).to_set() == due_set(s, now) implies #[trigger] apply_all(s, r@)
                == claimed(s, now) by {
                lemma_apply_steps(s, r@);
                assert(texts(ready@).to_set() =~= Set::<Seq<char>>::empty());
                let c = claimed(s, now);
                assert(c.jobs =~= s.jobs);
                assert(c.ids =~= s.ids);
                assert forall|k: Seq<char>| s.schedule.contains_key(k) implies s.schedule[k] > now by {
                    assert(!due_set(s, now).contains(k));
                }
                assert(c.schedule =~= s.schedule);
            }
        }
        return r;
    }
    let gone = ready.clone();
    let released = ready.clone();
    proof {
        assert(gone@ =~= ready@);
        assert(released@ =~= ready@);
    }
    r.push(Command::DropJobs(gone));
    r.push(Command::Release(released));
    r.push(Command::DropTimesUpTo(now));
    proof {
        assert forall|s: StoreView|
            texts(ready@).to_set() == due_set(s, now) implies #[trigger] apply_all(s, r@)
            == claimed(s, now) by {
            lemma_apply_steps(s, r@);
        }
    }
    r
}

/// The command that reserves `candidate`, or none when it is taken (reserved
/// or in use) and another candidate must be drawn.
pub fn plan_reserve(candidate: &String, taken: bool) -> (r: Option<Vec<Command>>)
    ensures
        taken ==> r is None,
        !taken ==> (r matches Some(cs) && forall|s: StoreView| #[trigger]
            apply_all(s, cs@) == reserved(s, candidate@)),
{
    if taken {
        return None;
    }
    let mut r: Vec<Command> = Vec::new();
    r.push(Command::Reserve(candidate.clone()));
    proof {
        assert forall|s: StoreView| #[trigger] apply_all(s, r@) == reserved(s, candidate@) by {
            lemma_apply_steps(s, r@);
        }
    }
    Some(r)
}

/// The commands that create a job under a freshly drawn id, or none when the
/// id is taken (reserved or in use) and another must be drawn.
pub fn plan_create_fresh(task: &Task, candidate: &String, due: i64, taken: bool) -> (r: Option<
    Vec<Command>,
>)
    ensures
        taken ==> r is None,
        !taken ==> (r matches Some(cs) && forall|s: StoreView| #[trigger]
            apply_all(s, cs@) == created(s, task@, candidate@, due, None)),
{
    if taken {
        None
    } else {
        Some(plan_create(task, candidate, due, None))
    }
}

impl MyVec {
    /// The tasks the payloads hold, in order; refused as a whole when one of
    /// them holds none.
    pub fn decode_all(&self) -> (r: Result<Vec<Task>, SchedulerError>)
        ensures
            r is Ok <==> forall|i: int| 0 <= i < self.v@.len() ==> decodes(#[trigger] self.v@[i]@),
            r matches Err(e) ==> e == SchedulerError::Codec,
            r matches Ok(ts) ==> ts@.len() == self.v@.len() && forall|i: int|
                0 <= i < ts@.len() ==> task_bytes(#[trigger] ts@[i]@) == self.v@[i]@ && encodable(
                    ts@[i]@,
                ),
    {
        let mut ts: Vec<Task> = Vec::new();
        let mut i: usize = 0;
        while i < self.v.len()
            invariant
                i <= self.v@.len(),
                ts@.len() == i,
                forall|j: int| 0 <= j < i ==> decodes(#[trigger] self.v@[j]@),
                forall|j: int|
                    0 <= j < i ==> task_bytes(#[trigger] ts@[j]@) == self.v@[j]@ && encodable(
                        ts@[j]@,
                    ),
            decreases self.v@.len() - i,
        {
            match decode(self.v[i].as_slice()) {
                Ok(t) => {
                    ts.push(t);
                },
                Err(_) => {
                    return Err(SchedulerError::Codec);
                },
            }
            i = i + 1;
        }
        Ok(ts)
    }
}

/// A scheduler whose store is kept in memory.
pub struct Scheduler {
    store: MemoryStore,
}

/// How many ids a reservation draws before it gives up.
pub const RESERVE_ATTEMPTS: u32 = 64;

impl Scheduler {
    /// The store is well formed and the content map and the time index hold
    /// the same ids.
    pub closed spec fn wf(&self) -> bool {
        self.store.wf() && consistent(self.store@)
    }

    pub closed spec fn view(&self) -> StoreView {
        self.store@
    }

    /// The ids due at or before `now`, in the order a claim returns them.
    pub closed spec fn due(&self, now: i64) -> Seq<Seq<char>> {
        self.store.due(now)
    }

    /// The ids due at or before `now` are the due set, each once.
    pub proof fn lemma_due(&self, now: i64)
        requires
            self.wf(),
        ensures
            self.due(now).no_duplicates(),
            self.due(now).to_set() == due_set(self@, now),
            self.due(now).len() == 0 <==> due_set(self@, now) == Set::<Seq<char>>::empty(),
            consistent(self@),
    {
        self.store.lemma_due(now);
        let d = self.due(now);
        assert(d.to_set() =~= due_set(self@, now));
        if d.len() != 0 {
            assert(d.to_set().contains(d[0]));
        } else {
            assert(d.to_set() =~= Set::<Seq<char>>::empty());
        }
    }

    /// A well-formed scheduler's content map and time index hold the same ids.
    pub proof fn lemma_consistent(&self)
        requires
            self.wf(),
        ensures
            consistent(self@),
    {
    }

    pub fn new() -> (r: Scheduler)
        ensures
            r.wf(),
            r@ == empty_view(),
    {
        let r = Scheduler { store: MemoryStore::new() };
        assert(r@.jobs.dom() =~= r@.schedule.dom());
        r
    }

    /// Empties the content map and the time index.
    pub fn clear_jobs(&mut self)
        requires
            old(self).wf(),
        ensures
            final(self).wf(),
            final(self)@ == apply(old(self)@, Command::ClearJobs),
    {
        self.store.apply(&Command::ClearJobs);
        assert(self@.jobs.dom() =~= self@.schedule.dom());
    }

    /// Creates the job `task_id` for `task`, due at `timestamp`; with `link`,
    /// the outside reference `link.0` points at the job for `link.1` seconds.
    pub fn schedule_job(
        &mut self,
        task: &Task,
        task_id: &String,
        timestamp: i64,
        link: Option<(u64, u64)>,
    )
        requires
            old(self).wf(),
        ensures
            final(self).wf(),
            final(self)@ == created(old(self)@, task@, task_id@, timestamp, link),
    {
        let cs = plan_create(task, task_id, timestamp, link);
        self.store.apply_all(&cs);
        assert(self@.jobs.dom() =~= self@.schedule.dom());
    }

    /// The task of job `id`.
    pub fn get_job(&self, id: &String) -> (r: Result<Task, SchedulerError>)
        requires
            self.wf(),
        ensures
            !self@.jobs.contains_key(id@) ==> r == Err::<Task, SchedulerError>(
                SchedulerError::NotFound,
            ),
            self@.jobs.contains_key(id@) ==> (r is Ok <==> decodes(self@.jobs[id@])),
            r matches Ok(t) ==> self@.jobs.contains_key(id@) && task_bytes(t@) == self@.jobs[id@]
                && encodable(t@),
            self@.jobs.contains_key(id@) && !decodes(self@.jobs[id@]) ==> r == Err::<
                Task,
                SchedulerError,
            >(SchedulerError::Codec),
            r matches Err(e) ==> e == SchedulerError::NotFound || e == SchedulerError::Codec,
    {
        match self.store.job(id) {
            None => Err(SchedulerError::NotFound),
            Some(p) => match decode(p.as_slice()) {
                Ok(t) => Ok(t),
                Err(_) => Err(SchedulerError::Codec),
            },
        }
    }

    /// Replaces the task of job `id`, and its due time when `time` is given.
    pub fn edit_job(&mut self, task: &Task, id: &String, time: Option<i64>) -> (r: Result<
        (),
        SchedulerError,
    >)
        requires
            old(self).wf(),
        ensures
            final(self).wf(),
            !old(self)@.jobs.contains_key(id@) ==> r == Err::<(), SchedulerError>(
                SchedulerError::NotFound,
            ) && final(self)@ == old(self)@,
            old(self)@.jobs.contains_key(id@) ==> r is Ok && final(self)@ == edited(
                old(self)@,
                task@,
                id@,
                time,
            ),
    {
        let exists = self.store.has_job(id);
        match plan_edit(task, id, time, exists) {
            Err(e) => Err(e),
            Ok(cs) => {
                self.store.apply_all(&cs);
                assert(self@.jobs.dom() =~= self@.schedule.dom());
                Ok(())
            },
        }
    }

    /// Removes job `id`; removing a job that is not there changes nothing.
    pub fn remove_job(&mut self, job_id: &String)
        requires
            old(self).wf(),
        ensures
            final(self).wf(),
            final(self)@ == removed(old(self)@, job_id@),
    {
        let scheduled = match self.store.time_of(job_id) {
            Some(_) => true,
            None => false,
        };
        let cs = plan_remove(job_id, scheduled);
        self.store.apply_all(&cs);
        assert(self@.jobs.dom() =~= self@.schedule.dom());
    }

    /// Removes job `job_id` and returns its task; `None` when there is no such
    /// job. A payload that holds no task is reported and left in place.
    pub fn pop_job(&mut self, job_id: &String) -> (r: Result<Option<Task>, SchedulerError>)
        requires
            old(self).wf(),
        ensures
            final(self).wf(),
            !old(self)@.schedule.contains_key(job_id@) ==> r == Ok::<
                Option<Task>,
                SchedulerError,
            >(None) && final(self)@ == old(self)@,
            old(self)@.schedule.contains_key(job_id@) && !decodes(old(self)@.jobs[job_id@]) ==> r
                == Err::<Option<Task>, SchedulerError>(SchedulerError::Codec) && final(self)@ == old(
                self,
            )@,
            old(self)@.schedule.contains_key(job_id@) && decodes(old(self)@.jobs[job_id@]) ==> (
            r matches Ok(Some(t)) && task_bytes(t@) == old(self)@.jobs[job_id@] && encodable(t@))
                && final(self)@ == removed(old(self)@, job_id@),
    {
        if self.store.time_of(job_id).is_none() {
            return Ok(None);
        }
        let t = match self.store.job(job_id) {
            Some(p) => match decode(p.as_slice()) {
                Ok(t) => t,
                Err(_) => {
                    return Err(SchedulerError::Codec);
                },
            },
            None => {
                return Err(SchedulerError::NotFound);
            },
        };
        let cs = plan_remove(job_id, true);
        self.store.apply_all(&cs);
        assert(self@.jobs.dom() =~= self@.schedule.dom());
        Ok(Some(t))
    }

    /// The tasks of the jobs due at or before `timestamp`, without claiming
    /// them.
    pub fn get_ready_jobs(&self, timestamp: i64) -> (r: Result<Vec<Task>, SchedulerError>)
        requires
            self.wf(),
        ensures
            r is Ok <==> forall|i: int|
                0 <= i < self.due(timestamp).len() ==> decodes(
                    #[trigger] self@.jobs[self.due(timestamp)[i]],
                ),
            r matches Err(e) ==> e == SchedulerError::Codec,
            r matches Ok(ts) ==> ts@.len() == self.due(timestamp).len() && forall|i: int|
                0 <= i < ts@.len() ==> task_bytes(#[trigger] ts@[i]@) == self@.jobs[self.due(
                    timestamp,
                )[i]] && encodable(ts@[i]@),
    {
        let ready = self.store.due_ids(timestamp);
        proof {
            self.store.lemma_due(timestamp);
            assert forall|i: int| 0 <= i < ready@.len() implies self.store@.jobs.contains_key(
                #[trigger] ready@[i]@,
            ) by {
                assert(texts(ready@)[i] == ready@[i]@);
                assert(self.due(timestamp).contains(ready@[i]@));
            }
        }
        let fetched = MyVec { v: self.store.fetch(&ready) };
        proof {
            assert forall|i: int| 0 <= i < fetched.v@.len() implies fetched.v@[i]@ == self@.jobs[self.due(
                timestamp,
            )[i]] by {
                assert(texts(ready@)[i] == ready@[i]@);
            }
        }
        fetched.decode_all()
    }

    /// Claims the jobs due at or before `timestamp`: returns their tasks and
    /// removes them from the store in one step. When one payload holds no task
    /// the claim fails as a whole and the store is left as it was.
    pub fn get_and_clear_ready_jobs(&mut self, timestamp: i64) -> (r: Result<
        Vec<Task>,
        SchedulerError,
    >)
        requires
            old(self).wf(),
        ensures
            final(self).wf(),
            r is Ok <==> forall|i: int|
                0 <= i < old(self).due(timestamp).len() ==> decodes(
                    #[trigger] old(self)@.jobs[old(self).due(timestamp)[i]],
                ),
            r matches Err(e) ==> e == SchedulerError::Codec && final(self)@ == old(self)@,
            r matches Ok(ts) ==> ts@.len() == old(self).due(timestamp).len() && (forall|i: int|
                0 <= i < ts@.len() ==> task_bytes(#[trigger] ts@[i]@) == old(self)@.jobs[old(
                    self,
                ).due(timestamp)[i]] && encodable(ts@[i]@)) && final(self)@ == claimed(
                old(self)@,
                timestamp,
            ),
    {
        let ready = self.store.due_ids(timestamp);
        proof {
            self.store.lemma_due(timestamp);
            assert forall|i: int| 0 <= i < ready@.len() implies self.store@.jobs.contains_key(
                #[trigger] ready@[i]@,
            ) by {
                assert(texts(ready@)[i] == ready@[i]@);
                assert(self.due(timestamp).contains(ready@[i]@));
            }
        }
        let fetched = MyVec { v: self.store.fetch(&ready) };
        proof {
            assert forall|i: int| 0 <= i < fetched.v@.len() implies fetched.v@[i]@ == self@.jobs[self.due(
                timestamp,
            )[i]] by {
                assert(texts(ready@)[i] == ready@[i]@);
            }
        }
        let tasks = match fetched.decode_all() {
            Ok(ts) => ts,
            Err(e) => {
                return Err(e);
            },
        };
        let cs = plan_claim(&ready, timestamp);
        proof {
            assert(texts(ready@).to_set() =~= due_set(self@, timestamp));
            assert forall|i: int| 0 <= i < self.due(timestamp).len() implies decodes(
                #[trigger] self@.jobs[self.due(timestamp)[i]],
            ) by {
                assert(decodes(fetched.v@[i]@));
            }
        }
        self.store.apply_all(&cs);
        proof {
            let o = old(self)@;
            let d = due_set(o, timestamp);
            assert(self@.jobs.dom() =~= self@.schedule.dom()) by {
                assert forall|k: Seq<char>| self@.jobs.dom().contains(k) <==> self@.schedule.dom().contains(k) by {
                    if o.schedule.contains_key(k) && o.schedule[k] <= timestamp {
                        assert(d.contains(k));
                    }
                }
            }
        }
        Ok(tasks)
    }

    /// Reserves a fresh id: one that is neither reserved nor in use. Gives up
    /// with `Transport` after `RESERVE_ATTEMPTS` taken draws.
    pub fn reserve_id(&mut self) -> (r: Result<String, SchedulerError>)
        requires
            old(self).wf(),
        ensures
            final(self).wf(),
            r matches Ok(id) ==> free_id(old(self)@, id@) && final(self)@ == reserved(
                old(self)@,
                id@,
            ) && id@.len() == ID_LEN && forall|i: int|
                0 <= i < id@.len() ==> is_alphanumeric(#[trigger] id@[i]),
            r matches Err(e) ==> e == SchedulerError::Transport && final(self)@ == old(self)@,
            all_draws_free(old(self)@) ==> r is Ok,
    {
        let mut attempts: u32 = 0;
        while attempts < RESERVE_ATTEMPTS
            invariant
                self.wf(),
                self@ == old(self)@,
                all_draws_free(old(self)@) ==> attempts == 0,
            decreases RESERVE_ATTEMPTS - attempts,
        {
            let candidate = random_id();
            let taken = self.store.is_reserved(&candidate) || self.store.has_job(&candidate);
            proof {
                if all_draws_free(old(self)@) {
                    assert(free_id(old(self)@, candidate@));
                }
            }
            match plan_reserve(&candidate, taken) {
                Some(cs) => {
                    self.store.apply_all(&cs);
                    return Ok(candidate);
                },
                None => {},
            }
            attempts = attempts + 1;
        }
        Err(SchedulerError::Transport)
    }

    /// Creates a job for `task`, due at `due`, under a fresh id (neither
    /// reserved nor in use), and returns the id. Gives up with `Transport`
    /// after `RESERVE_ATTEMPTS` taken draws.
    pub fn schedule_new_job(&mut self, task: &Task, due: i64) -> (r: Result<String, SchedulerError>)
        requires
            old(self).wf(),
        ensures
            final(self).wf(),
            r matches Ok(id) ==> free_id(old(self)@, id@) && final(self)@ == created(
                old(self)@,
                task@,
                id@,
                due,
                None,
            ),
            r matches Err(e) ==> e == SchedulerError::Transport && final(self)@ == old(self)@,
            all_draws_free(old(self)@) ==> r is Ok,
    {
        let mut attempts: u32 = 0;
        while attempts < RESERVE_ATTEMPTS
            invariant
                self.wf(),
                self@ == old(self)@,
                all_draws_free(old(self)@) ==> attempts == 0,
            decreases RESERVE_ATTEMPTS - attempts,
        {
            let candidate = random_id();
            let taken = self.store.is_reserved(&candidate) || self.store.has_job(&candidate);
            proof {
                if all_draws_free(old(self)@) {
                    assert(free_id(old(self)@, candidate@));
                }
            }
            match plan_create_fresh(task, &candidate, due, taken) {
                Some(cs) => {
                    self.store.apply_all(&cs);
                    assert(self@.jobs.dom() =~= self@.schedule.dom());
                    return Ok(candidate);
                },
                None => {},
            }
            attempts = attempts + 1;
        }
        Err(SchedulerError::Transport)
    }

    /// The job id that the outside reference `key` points at.
    pub fn linked_job(&self, key: u64) -> (r: Option<&String>)
        ensures
            r matches Some(id) ==> self@.links.contains_key(key) && id@ == self@.links[key].0,
            r is None ==> !self@.links.contains_key(key),
    {
        self.store.link_of(key)
    }
}

} // verus!
