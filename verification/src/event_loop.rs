//! The worker pool's verified core: the command vocabulary, the decision
//! a worker takes on each message, and the admission model that bounds
//! how many connections run at once.
use vstd::prelude::*;

verus! {

/// What can be sent to the pool: a unit of work, or the order for one
/// worker to stop.
#[derive(Debug, PartialEq, Eq)]
pub enum Command<T> {
    Task(T),
    Shutdown,
}

/// What a worker does with one received message.
#[derive(Debug, PartialEq, Eq)]
pub enum WorkerStep<T> {
    /// Run the received unit of work to completion; the worker is
    /// pinned to it until it returns.
    Run(T),
    /// Stop the worker loop.
    Exit,
    /// A failed receive: keep looping rather than crash.
    Wait,
}

/// The decision a worker takes on one receive: a task is run, a
/// shutdown ends the loop, and a failed receive leaves the worker
/// waiting for the next message.
pub fn worker_decide<T, E>(msg: Result<Command<T>, E>) -> (s: WorkerStep<T>)
    ensures
        msg matches Ok(Command::Task(t)) ==> s == WorkerStep::Run(t),
        msg matches Ok(Command::Shutdown) ==> s == WorkerStep::<T>::Exit,
        msg is Err ==> s == WorkerStep::<T>::Wait,
{
    match msg {
        Ok(Command::Task(t)) => WorkerStep::Run(t),
        Ok(Command::Shutdown) => WorkerStep::Exit,
        Err(_) => WorkerStep::Wait,
    }
}

/// The admission state of a pool: how many workers it has, how many
/// connections run on them now, and how many wait in the queue. A
/// worker is pinned to a connection for that connection's whole life,
/// so the pool admits at most `size` connections at once and any
/// further ones wait.
#[derive(Debug, Clone, Copy, PartialEq, Eq)]
pub struct PoolState {
    pub size: usize,
    pub running: usize,
    pub waiting: usize,
}

/// One thing that can happen to the pool.
#[derive(Debug, Clone, Copy)]
pub enum PoolEvent {
    /// A connection is accepted and queued.
    Submit,
    /// An idle worker picks up a queued connection.
    Begin,
    /// A running connection ends and frees its worker.
    Finish,
}

impl PoolState {
    /// The pool's invariant: never more connections running than
    /// workers.
    pub open spec fn inv(self) -> bool {
        self.running <= self.size
    }

    /// A fresh pool: all workers idle, nothing queued.
    pub fn new(size: usize) -> (s: PoolState)
        ensures
            s == (PoolState { size, running: 0, waiting: 0 }),
            s.inv(),
    {
        PoolState { size, running: 0, waiting: 0 }
    }

    /// A connection arrives and is queued.
    pub fn submit(&mut self)
        requires
            old(self).inv(),
        ensures
            *final(self) == pool_step(*old(self), PoolEvent::Submit),
            final(self).inv(),
    {
        if self.waiting < usize::MAX {
            self.waiting = self.waiting + 1;
        }
    }

    /// An idle worker picks up a queued connection, if the pool has
    /// both; otherwise nothing changes.
    pub fn begin(&mut self)
        requires
            old(self).inv(),
        ensures
            *final(self) == pool_step(*old(self), PoolEvent::Begin),
            final(self).inv(),
    {
        if self.running < self.size && self.waiting > 0 {
            self.running = self.running + 1;
            self.waiting = self.waiting - 1;
        }
    }

    /// A running connection ends and frees its worker.
    pub fn finish(&mut self)
        requires
            old(self).inv(),
        ensures
            *final(self) == pool_step(*old(self), PoolEvent::Finish),
            final(self).inv(),
    {
        if self.running > 0 {
            self.running = self.running - 1;
        }
    }
}

/// The pool state after one event.
pub open spec fn pool_step(s: PoolState, e: PoolEvent) -> PoolState {
    match e {
        PoolEvent::Submit => if s.waiting < usize::MAX {
            PoolState { waiting: (s.waiting + 1) as usize, ..s }
        } else {
            s
        },
        PoolEvent::Begin => if s.running < s.size && s.waiting > 0 {
            PoolState {
                running: (s.running + 1) as usize,
                waiting: (s.waiting - 1) as usize,
                ..s
            }
        } else {
            s
        },
        PoolEvent::Finish => if s.running > 0 {
            PoolState { running: (s.running - 1) as usize, ..s }
        } else {
            s
        },
    }
}

/// The pool state after a whole run of events, oldest first.
pub open spec fn pool_run(s: PoolState, evs: Seq<PoolEvent>) -> PoolState
    decreases evs.len(),
{
    if evs.len() == 0 {
        s
    } else {
        pool_run(pool_step(s, evs[0]), evs.skip(1))
    }
}

/// Concurrency bound: however submissions, pick-ups and completions
/// interleave, a pool with `size` workers never runs more than `size`
/// connections at once.
pub proof fn lemma_concurrency_bound(s: PoolState, evs: Seq<PoolEvent>)
    requires
        s.inv(),
    ensures
        pool_run(s, evs).inv(),
        pool_run(s, evs).size == s.size,
    decreases evs.len(),
{
    if evs.len() > 0 {
        lemma_concurrency_bound(pool_step(s, evs[0]), evs.skip(1));
    }
}

/// With every worker pinned to a live connection, one more waiting
/// connection is not admitted; as soon as one connection finishes, the
/// next pick-up admits exactly one waiter and the pool is full again.
pub proof fn lemma_extra_connection_waits(s: PoolState)
    requires
        s.inv(),
        s.size >= 1,
        s.running == s.size,
        s.waiting >= 1,
    ensures
        pool_step(s, PoolEvent::Begin) == s,
        pool_run(s, seq![PoolEvent::Finish, PoolEvent::Begin]) == (PoolState {
            size: s.size,
            running: s.size,
            waiting: (s.waiting - 1) as usize,
        }),
{
    let s1 = pool_step(s, PoolEvent::Finish);
    let s2 = pool_step(s1, PoolEvent::Begin);
    let evs = seq![PoolEvent::Finish, PoolEvent::Begin];
    assert(evs[0] == PoolEvent::Finish);
    assert(evs.skip(1) =~= seq![PoolEvent::Begin]);
    assert(seq![PoolEvent::Begin][0] == PoolEvent::Begin);
    assert(seq![PoolEvent::Begin].skip(1) =~= Seq::<PoolEvent>::empty());
    assert(pool_run(s2, Seq::<PoolEvent>::empty()) == s2);
    assert(pool_run(s1, seq![PoolEvent::Begin]) == s2);
    assert(pool_run(s, evs) == pool_run(s1, evs.skip(1)));
}

} // verus!
