//! The queue of work that requests leave for the background worker, and the
//! worker's decisions: which task to take next, what to do with it, and how
//! long to pause before looking again.

use vstd::prelude::*;

verus! {

/// A piece of work for the background worker.
#[derive(Debug, Clone, PartialEq, Eq)]
pub enum IdunnTask {
    Ping { address: String },
    Introduce { keyid: String, address: String },
    WhereIs { keyid: String },
    PeerList,
}

/// What the worker does with a task it takes from the queue.
#[derive(Debug, Clone, PartialEq, Eq)]
pub enum Dispatch {
    /// Note that `address` should be pinged (nothing is sent).
    NotePing { address: String },
    /// Introduce this node to the peer `keyid` at `address`.
    Introduce { keyid: String, address: String },
    /// The task needs no work.
    Ignore,
}

/// What `dispatch` makes of a task.
pub open spec fn dispatch_of(it: IdunnTask) -> Dispatch {
    match it {
        IdunnTask::Ping { address } => Dispatch::NotePing { address },
        IdunnTask::Introduce { keyid, address } => Dispatch::Introduce { keyid, address },
        _ => Dispatch::Ignore,
    }
}

/// Decides what the worker does with a task.
pub fn dispatch(it: IdunnTask) -> (r: Dispatch)
    ensures
        r == dispatch_of(it),
{
    match it {
        IdunnTask::Ping { address } => Dispatch::NotePing { address },
        IdunnTask::Introduce { keyid, address } => Dispatch::Introduce { keyid, address },
        _ => Dispatch::Ignore,
    }
}

/// Milliseconds the worker pauses after handling a task.
pub const BUSY_PAUSE_MS: u32 = 10;

/// Milliseconds the worker pauses when the queue was empty.
pub const IDLE_PAUSE_MS: u32 = 3000;

/// One round of the worker: the task it took and dispatched, if any, and
/// how long it pauses afterwards.
#[derive(Debug)]
pub struct WorkerStep {
    pub dispatch: Option<Dispatch>,
    pub pause_ms: u32,
}

/// One round of the worker on a queue: the queue afterwards, what was
/// dispatched, and the pause. The newest task is taken first.
pub open spec fn worker_step_of(q: Seq<IdunnTask>) -> (Seq<IdunnTask>, Option<Dispatch>, u32) {
    if q.len() == 0 {
        (q, None, IDLE_PAUSE_MS)
    } else {
        (q.drop_last(), Some(dispatch_of(q.last())), BUSY_PAUSE_MS)
    }
}

/// The work that requests leave for the worker.
#[derive(Debug)]
pub struct WorkQueue {
    pub queue: Vec<IdunnTask>,
}

impl WorkQueue {
    pub fn new() -> (r: WorkQueue)
        ensures
            r.queue@ == Seq::<IdunnTask>::empty(),
    {
        WorkQueue { queue: Vec::new() }
    }

    /// Adds a task; it is the next one the worker takes.
    pub fn insert(&mut self, it: IdunnTask)
        ensures
            final(self).queue@ == old(self).queue@.push(it),
    {
        self.queue.push(it);
    }

    /// One round of the worker: takes the newest task, if any, and decides
    /// what to do with it and how long to pause.
    pub fn worker_step(&mut self) -> (r: WorkerStep)
        ensures
            (final(self).queue@, r.dispatch, r.pause_ms) == worker_step_of(old(self).queue@),
    {
        match self.queue.pop() {
            Some(item) => WorkerStep { dispatch: Some(dispatch(item)), pause_ms: BUSY_PAUSE_MS },
            None => WorkerStep { dispatch: None, pause_ms: IDLE_PAUSE_MS },
        }
    }
}

/// The worker takes the task inserted last first: a round on a queue to
/// which `it` was just added dispatches `it`, pauses briefly, and leaves the
/// queue as it was before.
pub proof fn law_last_in_first_out(q: Seq<IdunnTask>, it: IdunnTask)
    ensures
        worker_step_of(q.push(it)) == (q, Some(dispatch_of(it)), BUSY_PAUSE_MS),
{
    assert(q.push(it).drop_last() =~= q);
}

/// A round on an empty queue dispatches nothing and pauses long.
pub proof fn law_idle_round()
    ensures
        worker_step_of(Seq::<IdunnTask>::empty()) == (Seq::<IdunnTask>::empty(), None::<Dispatch>, IDLE_PAUSE_MS),
{
}

} // verus!
