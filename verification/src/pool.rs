//! The bookkeeping of a fixed pool of workers with a completion barrier.
//!
//! The pool is the state that the threads of a running pool share under one
//! lock: the queue of tasks that wait, the count of tasks that were submitted
//! and have not finished, and what each worker is doing. Every operation is
//! one step that a thread takes while it holds the lock. The functions here
//! decide; to block, to wake and to run a task is left to the caller.

use vstd::prelude::*;
use std::collections::VecDeque;
use crate::error::EngineError;

verus! {

/// What a worker is doing.
#[derive(Debug, Clone, Copy, PartialEq, Eq, Structural)]
pub enum WorkerState {
    /// It waits for a task or is about to ask for one.
    Idle,
    /// It runs a task.
    Busy,
    /// It has left its loop and takes no further task.
    Stopped,
}

/// One worker of the pool.
#[derive(Debug, Clone, Copy, PartialEq, Eq, Structural)]
pub struct Worker {
    pub id: usize,
    pub state: WorkerState,
}

impl Worker {
    /// Worker `id`, idle.
    pub fn new(id: usize) -> (worker: Worker)
        ensures
            worker.id == id,
            worker.state == WorkerState::Idle,
    {
        Worker { id, state: WorkerState::Idle }
    }
}

/// How a task ended.
#[derive(Debug, Clone, Copy, PartialEq, Eq, Structural)]
pub enum Outcome {
    /// The task ran to its end.
    Completed,
    /// The task aborted the worker that ran it.
    Failed,
}

/// What the caller of the barrier does next.
#[derive(Debug, Clone, Copy, PartialEq, Eq, Structural)]
pub enum Wait {
    /// No submitted task is unfinished: go on.
    Ready,
    /// Some submitted task is unfinished: block until a worker wakes the
    /// waiters, then ask again.
    Blocked,
}

/// What a worker does next.
pub enum Step<T> {
    /// Run the task that is handed over, then say how it ended.
    Run(T),
    /// The queue is empty and open: block until a task is submitted or the
    /// pool is closed, then ask again.
    Park,
    /// Leave the loop.
    Exit,
}

/// The pool as a mathematical value.
pub ghost struct PoolState<T> {
    /// What each worker is doing, by worker id.
    pub workers: Seq<WorkerState>,
    /// The tasks that wait, the oldest first.
    pub queue: Seq<T>,
    /// Tasks that were submitted and have not finished.
    pub pending: nat,
    /// Whether submission has been closed.
    pub closed: bool,
    /// Tasks that aborted their worker.
    pub failed: nat,
}

/// One step of a thread on the pool.
pub ghost enum Event<T> {
    /// The driver submits a task.
    Submit(T),
    /// A worker asks for its next task.
    Take(int),
    /// A worker reports how its task ended.
    Finish(int, Outcome),
    /// The driver closes submission.
    Close,
}

/// How many of `workers` are in `state`.
pub open spec fn count_in(workers: Seq<WorkerState>, state: WorkerState) -> nat
    decreases workers.len(),
{
    if workers.len() == 0 {
        0
    } else {
        count_in(workers.drop_last(), state) + if workers.last() == state {
            1nat
        } else {
            0nat
        }
    }
}

impl<T> PoolState<T> {
    /// A pool of `size` idle workers with nothing submitted.
    pub open spec fn fresh(size: nat) -> PoolState<T> {
        PoolState {
            workers: Seq::new(size, |i: int| WorkerState::Idle),
            queue: Seq::empty(),
            pending: 0,
            closed: false,
            failed: 0,
        }
    }

    /// Number of workers that run a task.
    pub open spec fn busy(self) -> nat {
        count_in(self.workers, WorkerState::Busy)
    }

    /// Every unfinished task either waits in the queue or runs on a worker,
    /// and every failed task has stopped a worker.
    pub open spec fn inv(self) -> bool {
        &&& self.workers.len() > 0
        &&& self.pending == self.queue.len() + self.busy()
        &&& self.failed <= count_in(self.workers, WorkerState::Stopped)
    }

    /// Whether the barrier lets its caller pass.
    pub open spec fn idle(self) -> bool {
        self.pending == 0
    }

    /// The pool after `task` was submitted.
    pub open spec fn submit(self, task: T) -> PoolState<T> {
        PoolState { queue: self.queue.push(task), pending: self.pending + 1, ..self }
    }

    /// What worker `w` is told when it asks for a task.
    pub open spec fn take_step(self, w: int) -> Step<T> {
        if self.workers[w] == WorkerState::Stopped {
            Step::Exit
        } else if self.queue.len() > 0 {
            Step::Run(self.queue[0])
        } else if self.closed {
            Step::Exit
        } else {
            Step::Park
        }
    }

    /// The pool after worker `w` asked for a task.
    pub open spec fn take(self, w: int) -> PoolState<T> {
        if self.workers[w] == WorkerState::Stopped {
            self
        } else if self.queue.len() > 0 {
            PoolState {
                workers: self.workers.update(w, WorkerState::Busy),
                queue: self.queue.subrange(1, self.queue.len() as int),
                ..self
            }
        } else if self.closed {
            PoolState { workers: self.workers.update(w, WorkerState::Stopped), ..self }
        } else {
            self
        }
    }

    /// The pool after worker `w` reported the end of its task.
    pub open spec fn finish(self, w: int, outcome: Outcome) -> PoolState<T> {
        match outcome {
            Outcome::Completed => PoolState {
                workers: self.workers.update(w, WorkerState::Idle),
                pending: (self.pending - 1) as nat,
                ..self
            },
            Outcome::Failed => PoolState {
                workers: self.workers.update(w, WorkerState::Stopped),
                pending: (self.pending - 1) as nat,
                failed: self.failed + 1,
                ..self
            },
        }
    }

    /// The pool after submission was closed.
    pub open spec fn close(self) -> PoolState<T> {
        PoolState { closed: true, ..self }
    }

    /// Whether `event` may happen in this state: nothing is submitted to a
    /// closed pool, only a worker that runs no task asks for one, and only a
    /// worker that runs a task reports its end.
    pub open spec fn enabled(self, event: Event<T>) -> bool {
        match event {
            Event::Submit(_) => !self.closed,
            Event::Take(w) => 0 <= w < self.workers.len() && self.workers[w] != WorkerState::Busy,
            Event::Finish(w, _) => 0 <= w < self.workers.len() && self.workers[w]
                == WorkerState::Busy,
            Event::Close => true,
        }
    }

    /// The pool after `event`.
    pub open spec fn step(self, event: Event<T>) -> PoolState<T> {
        match event {
            Event::Submit(task) => self.submit(task),
            Event::Take(w) => self.take(w),
            Event::Finish(w, outcome) => self.finish(w, outcome),
            Event::Close => self.close(),
        }
    }

    /// The pool after all of `events`, in order.
    pub open spec fn run(self, events: Seq<Event<T>>) -> PoolState<T>
        decreases events.len(),
    {
        if events.len() == 0 {
            self
        } else {
            self.run(events.drop_last()).step(events.last())
        }
    }

    /// Whether each of `events` may happen in the state that it meets.
    pub open spec fn admits(self, events: Seq<Event<T>>) -> bool
        decreases events.len(),
    {
        events.len() == 0 || (self.admits(events.drop_last()) && self.run(
            events.drop_last(),
        ).enabled(events.last()))
    }

    /// The tasks that `events` hand to workers, in the order in which they
    /// are handed out.
    pub open spec fn started(self, events: Seq<Event<T>>) -> Seq<T>
        decreases events.len(),
    {
        if events.len() == 0 {
            Seq::empty()
        } else {
            let before = self.run(events.drop_last());
            let earlier = self.started(events.drop_last());
            match events.last() {
                Event::Take(w) => match before.take_step(w) {
                    Step::Run(task) => earlier.push(task),
                    _ => earlier,
                },
                _ => earlier,
            }
        }
    }
}

/// The tasks that `events` submit, in order.
pub open spec fn submitted<T>(events: Seq<Event<T>>) -> Seq<T>
    decreases events.len(),
{
    if events.len() == 0 {
        Seq::empty()
    } else {
        match events.last() {
            Event::Submit(task) => submitted(events.drop_last()).push(task),
            _ => submitted(events.drop_last()),
        }
    }
}

/// How many tasks `events` report as ended.
pub open spec fn finishes<T>(events: Seq<Event<T>>) -> nat
    decreases events.len(),
{
    if events.len() == 0 {
        0
    } else {
        finishes(events.drop_last()) + if events.last() is Finish {
            1nat
        } else {
            0nat
        }
    }
}

/// A count is at most the number of workers, and where a worker is in the
/// state that is counted, the count is not zero.
pub proof fn lemma_count_bounds(workers: Seq<WorkerState>, state: WorkerState)
    ensures
        count_in(workers, state) <= workers.len(),
        forall|i: int|
            0 <= i < workers.len() && workers[i] == state ==> count_in(workers, state) > 0,
        count_in(workers, state) > 0 ==> exists|i: int|
            0 <= i < workers.len() && workers[i] == state,
    decreases workers.len(),
{
    if workers.len() > 0 {
        let rest = workers.drop_last();
        lemma_count_bounds(rest, state);
        assert forall|i: int| 0 <= i < workers.len() && workers[i] == state implies count_in(
            workers,
            state,
        ) > 0 by {
            if i < rest.len() {
                assert(rest[i] == state);
            }
        }
        if count_in(workers, state) > 0 {
            if workers.last() == state {
                assert(workers[workers.len() - 1] == state);
            } else {
                let i = choose|i: int| 0 <= i < rest.len() && rest[i] == state;
                assert(workers[i] == state);
            }
        }
    }
}

/// A worker that changes its state leaves the count of the old state and
/// enters the count of the new one.
pub proof fn lemma_count_update(
    workers: Seq<WorkerState>,
    w: int,
    next: WorkerState,
    state: WorkerState,
)
    requires
        0 <= w < workers.len(),
    ensures
        count_in(workers.update(w, next), state) + (if workers[w] == state {
            1int
        } else {
            0int
        }) == count_in(workers, state) + (if next == state {
            1int
        } else {
            0int
        }),
    decreases workers.len(),
{
    let after = workers.update(w, next);
    if w == workers.len() - 1 {
        assert(after.drop_last() =~= workers.drop_last());
    } else {
        lemma_count_update(workers.drop_last(), w, next, state);
        assert(after.drop_last() =~= workers.drop_last().update(w, next));
    }
}

/// No worker of a fresh pool is busy or stopped.
pub proof fn lemma_fresh_counts(size: nat, state: WorkerState)
    ensures
        state != WorkerState::Idle ==> count_in(
            Seq::new(size, |i: int| WorkerState::Idle),
            state,
        ) == 0,
    decreases size,
{
    if size > 0 {
        lemma_fresh_counts((size - 1) as nat, state);
        assert(Seq::new(size, |i: int| WorkerState::Idle).drop_last() =~= Seq::new(
            (size - 1) as nat,
            |i: int| WorkerState::Idle,
        ));
    }
}

/// A fresh pool keeps its books: nothing is pending, waiting or running.
pub proof fn lemma_fresh_inv<T>(size: nat)
    requires
        size > 0,
    ensures
        PoolState::<T>::fresh(size).inv(),
        PoolState::<T>::fresh(size).idle(),
{
    lemma_fresh_counts(size, WorkerState::Busy);
    lemma_fresh_counts(size, WorkerState::Stopped);
}

/// Every step that may happen keeps the books, and changes the pending count
/// by the submission or the report that it is, and by nothing else.
pub proof fn lemma_step_keeps_inv<T>(s: PoolState<T>, event: Event<T>)
    requires
        s.inv(),
        s.enabled(event),
    ensures
        s.step(event).inv(),
        s.step(event).workers.len() == s.workers.len(),
        s.step(event).pending == s.pending + (if event is Submit {
            1int
        } else {
            0int
        }) - (if event is Finish {
            1int
        } else {
            0int
        }),
{
    match event {
        Event::Submit(task) => {},
        Event::Take(w) => {
            lemma_count_update(s.workers, w, WorkerState::Busy, WorkerState::Busy);
            lemma_count_update(s.workers, w, WorkerState::Busy, WorkerState::Stopped);
            lemma_count_update(s.workers, w, WorkerState::Stopped, WorkerState::Busy);
            lemma_count_update(s.workers, w, WorkerState::Stopped, WorkerState::Stopped);
        },
        Event::Finish(w, outcome) => {
            lemma_count_bounds(s.workers, WorkerState::Busy);
            lemma_count_update(s.workers, w, WorkerState::Idle, WorkerState::Busy);
            lemma_count_update(s.workers, w, WorkerState::Idle, WorkerState::Stopped);
            lemma_count_update(s.workers, w, WorkerState::Stopped, WorkerState::Busy);
            lemma_count_update(s.workers, w, WorkerState::Stopped, WorkerState::Stopped);
        },
        Event::Close => {},
    }
}

/// The barrier is open exactly when the pool has drained: no task waits in
/// the queue and no worker runs one.
pub proof fn lemma_idle_means_drained<T>(s: PoolState<T>)
    requires
        s.inv(),
    ensures
        s.idle() <==> s.queue.len() == 0 && forall|w: int|
            0 <= w < s.workers.len() ==> s.workers[w] != WorkerState::Busy,
{
    lemma_count_bounds(s.workers, WorkerState::Busy);
}

/// A pool with unfinished tasks and a worker that has not stopped is never
/// stuck: either some worker runs a task and can report its end, or a task
/// waits and an idle worker can take it.
pub proof fn lemma_progress<T>(s: PoolState<T>)
    requires
        s.inv(),
        !s.idle(),
        exists|w: int| 0 <= w < s.workers.len() && s.workers[w] != WorkerState::Stopped,
    ensures
        exists|w: int|
            0 <= w < s.workers.len() && (s.workers[w] == WorkerState::Busy || (s.workers[w]
                == WorkerState::Idle && s.queue.len() > 0)),
{
    lemma_count_bounds(s.workers, WorkerState::Busy);
    if s.busy() > 0 {
        let w = choose|w: int| 0 <= w < s.workers.len() && s.workers[w] == WorkerState::Busy;
        assert(s.workers[w] == WorkerState::Busy);
    } else {
        let w = choose|w: int| 0 <= w < s.workers.len() && s.workers[w] != WorkerState::Stopped;
        assert(s.workers[w] == WorkerState::Idle && s.queue.len() > 0);
    }
}

/// However the steps of the driver and of the workers interleave: the books
/// are kept; the pending count is what it was, plus the tasks submitted,
/// minus the tasks that ended; and the tasks handed to workers, followed by
/// those that still wait, are the tasks that waited at the start followed by
/// those submitted since, each once and in the order of submission.
pub proof fn lemma_trace<T>(s: PoolState<T>, events: Seq<Event<T>>)
    requires
        s.inv(),
        s.admits(events),
    ensures
        s.run(events).inv(),
        s.run(events).workers.len() == s.workers.len(),
        s.run(events).pending == s.pending + submitted(events).len() - finishes(events),
        s.started(events) + s.run(events).queue == s.queue + submitted(events),
    decreases events.len(),
{
    if events.len() == 0 {
        assert(s.started(events) + s.queue =~= s.queue + submitted(events));
    } else {
        let earlier = events.drop_last();
        let before = s.run(earlier);
        let after = s.run(events);
        lemma_trace(s, earlier);
        lemma_step_keeps_inv(before, events.last());
        match events.last() {
            Event::Submit(task) => {
                assert(s.started(events) + after.queue =~= (s.started(earlier) + before.queue).push(
                    task,
                ));
                assert(s.queue + submitted(events) =~= (s.queue + submitted(earlier)).push(task));
            },
            Event::Take(w) => {
                assert(s.started(events) + after.queue =~= s.started(earlier) + before.queue);
            },
            _ => {},
        }
    }
}

/// A wave on an idle pool: when `k` tasks have been submitted since the pool
/// was idle, the barrier opens exactly when `k` tasks have ended, however
/// many workers there are; and then every task of the wave was handed to a
/// worker once, in the order of submission.
pub proof fn lemma_wave_barrier<T>(s: PoolState<T>, events: Seq<Event<T>>)
    requires
        s.inv(),
        s.idle(),
        s.admits(events),
    ensures
        s.run(events).idle() <==> finishes(events) == submitted(events).len(),
        finishes(events) <= submitted(events).len(),
        s.run(events).idle() ==> s.started(events) == submitted(events),
        s.run(events).idle() ==> forall|w: int|
            0 <= w < s.workers.len() ==> s.run(events).workers[w] != WorkerState::Busy,
{
    lemma_trace(s, events);
    lemma_idle_means_drained(s);
    lemma_idle_means_drained(s.run(events));
    if s.run(events).idle() {
        assert(s.queue =~= Seq::<T>::empty());
        assert(s.run(events).queue =~= Seq::<T>::empty());
        assert(s.started(events) + s.run(events).queue =~= s.started(events));
        assert(s.queue + submitted(events) =~= submitted(events));
    }
}

/// The shared state of a pool whose tasks are of type `T`.
pub struct ThreadPool<T> {
    workers: Vec<Worker>,
    queue: VecDeque<T>,
    pending: usize,
    closed: bool,
    failed: usize,
}

impl<T> View for ThreadPool<T> {
    type V = PoolState<T>;

    closed spec fn view(&self) -> PoolState<T> {
        PoolState {
            workers: Seq::new(self.workers@.len(), |i: int| self.workers@[i].state),
            queue: self.queue@,
            pending: self.pending as nat,
            closed: self.closed,
            failed: self.failed as nat,
        }
    }
}

impl<T> ThreadPool<T> {
    /// Every worker carries its place in the line as its id.
    pub closed spec fn roster_in_order(&self) -> bool {
        forall|i: int| 0 <= i < self.workers@.len() ==> (#[trigger] self.workers@[i]).id == i
    }

    /// The pool keeps its books and its workers are numbered in order.
    pub open spec fn wf(&self) -> bool {
        self@.inv() && self.roster_in_order()
    }

    /// A pool of `size` idle workers with nothing submitted. It fails with
    /// `InvalidConfiguration` where `size` is zero.
    pub fn new(size: usize) -> (res: Result<ThreadPool<T>, EngineError>)
        ensures
            res is Err <==> size == 0,
            res matches Err(e) ==> e == EngineError::InvalidConfiguration,
            res matches Ok(pool) ==> pool.wf() && pool@ == PoolState::<T>::fresh(size as nat),
    {
        if size == 0 {
            return Err(EngineError::InvalidConfiguration);
        }
        let mut workers: Vec<Worker> = Vec::new();
        let mut id: usize = 0;
        while id < size
            invariant
                id <= size,
                workers@.len() == id,
                forall|i: int|
                    0 <= i < id ==> (#[trigger] workers@[i]).id == i && workers@[i].state
                        == WorkerState::Idle,
            decreases size - id,
        {
            workers.push(Worker::new(id));
            id += 1;
        }
        let pool = ThreadPool { workers, queue: VecDeque::new(), pending: 0, closed: false, failed: 0 };
        proof {
            assert(pool@.workers =~= PoolState::<T>::fresh(size as nat).workers);
            assert(pool@.queue =~= PoolState::<T>::fresh(size as nat).queue);
            lemma_fresh_inv::<T>(size as nat);
        }
        Ok(pool)
    }

    /// Number of workers.
    pub fn size(&self) -> (n: usize)
        ensures
            n == self@.workers.len(),
    {
        self.workers.len()
    }

    /// Tasks that were submitted and have not finished.
    pub fn pending(&self) -> (n: usize)
        ensures
            n == self@.pending,
    {
        self.pending
    }

    /// Tasks that wait in the queue.
    pub fn queued(&self) -> (n: usize)
        ensures
            n == self@.queue.len(),
    {
        self.queue.len()
    }

    /// Tasks that aborted their worker.
    pub fn failed(&self) -> (n: usize)
        ensures
            n == self@.failed,
    {
        self.failed
    }

    /// Whether submission has been closed.
    pub fn is_closed(&self) -> (b: bool)
        ensures
            b == self@.closed,
    {
        self.closed
    }

    /// Worker `index`, with its id and what it is doing.
    pub fn worker(&self, index: usize) -> (w: Worker)
        requires
            self.wf(),
            index < self@.workers.len(),
        ensures
            w.id == index,
            w.state == self@.workers[index as int],
    {
        self.workers[index]
    }

    /// Submits `task`: it joins the end of the queue, and the pending count
    /// goes up by one in the same step, so that no barrier can pass between
    /// the two. The caller then wakes one parked worker.
    pub fn execute(&mut self, task: T)
        requires
            old(self).wf(),
            !old(self)@.closed,
            old(self)@.pending < usize::MAX,
        ensures
            final(self).wf(),
            final(self)@ == old(self)@.submit(task),
    {
        self.pending = self.pending + 1;
        self.queue.push_back(task);
        proof {
            assert(self@.workers =~= old(self)@.workers);
            lemma_step_keeps_inv(old(self)@, Event::Submit(task));
        }
    }

    /// The barrier: `Ready` exactly when no submitted task is unfinished.
    /// On `Blocked` the caller blocks until a worker wakes it, and asks again.
    pub fn wait_for_completion(&self) -> (w: Wait)
        ensures
            w == Wait::Ready <==> self@.idle(),
            w == Wait::Blocked <==> !self@.idle(),
    {
        if self.pending == 0 {
            Wait::Ready
        } else {
            Wait::Blocked
        }
    }

    /// What worker `worker` does next. Where a task waits, the oldest one
    /// leaves the queue and the worker is busy with it; where none waits, the
    /// worker parks, or leaves for good once the pool is closed. A stopped
    /// worker is told to leave whatever waits.
    pub fn next_task(&mut self, worker: usize) -> (step: Step<T>)
        requires
            old(self).wf(),
            worker < old(self)@.workers.len(),
            old(self)@.workers[worker as int] != WorkerState::Busy,
        ensures
            final(self).wf(),
            final(self)@ == old(self)@.take(worker as int),
            step == old(self)@.take_step(worker as int),
    {
        proof {
            lemma_step_keeps_inv(old(self)@, Event::Take(worker as int));
        }
        let w = self.workers[worker];
        if w.state == WorkerState::Stopped {
            return Step::Exit;
        }
        match self.queue.pop_front() {
            Some(task) => {
                self.workers.set(worker, Worker { id: w.id, state: WorkerState::Busy });
                proof {
                    assert(self@.workers =~= old(self)@.take(worker as int).workers);
                }
                Step::Run(task)
            },
            None => {
                if self.closed {
                    self.workers.set(worker, Worker { id: w.id, state: WorkerState::Stopped });
                    proof {
                        assert(self@.workers =~= old(self)@.take(worker as int).workers);
                    }
                    Step::Exit
                } else {
                    proof {
                        assert(self@.workers =~= old(self)@.workers);
                    }
                    Step::Park
                }
            },
        }
    }

    /// Worker `worker` reports the end of its task. The pending count goes
    /// down by one however the task ended, so a failed task cannot hold the
    /// barrier shut; a worker whose task failed is stopped and the failure is
    /// counted. The result says whether the barrier is open now; the caller
    /// wakes the waiters.
    pub fn finish(&mut self, worker: usize, outcome: Outcome) -> (w: Wait)
        requires
            old(self).wf(),
            worker < old(self)@.workers.len(),
            old(self)@.workers[worker as int] == WorkerState::Busy,
        ensures
            final(self).wf(),
            final(self)@ == old(self)@.finish(worker as int, outcome),
            w == Wait::Ready <==> final(self)@.idle(),
            w == Wait::Blocked <==> !final(self)@.idle(),
    {
        proof {
            lemma_step_keeps_inv(old(self)@, Event::Finish(worker as int, outcome));
            lemma_count_bounds(old(self)@.workers, WorkerState::Busy);
            lemma_count_bounds(old(self)@.workers, WorkerState::Stopped);
            lemma_count_update(
                old(self)@.workers,
                worker as int,
                WorkerState::Stopped,
                WorkerState::Stopped,
            );
            lemma_count_bounds(
                old(self)@.workers.update(worker as int, WorkerState::Stopped),
                WorkerState::Stopped,
            );
        }
        let size = self.workers.len();
        assert(self.failed < size) by {
            assert(old(self)@.workers.update(worker as int, WorkerState::Stopped).len() == size);
        }
        let id = self.workers[worker].id;
        self.pending = self.pending - 1;
        match outcome {
            Outcome::Completed => {
                self.workers.set(worker, Worker { id, state: WorkerState::Idle });
            },
            Outcome::Failed => {
                self.workers.set(worker, Worker { id, state: WorkerState::Stopped });
                self.failed = self.failed + 1;
            },
        }
        proof {
            assert(self@.workers =~= old(self)@.finish(worker as int, outcome).workers);
        }
        self.wait_for_completion()
    }

    /// Closes submission. The tasks that wait are still handed out; a worker
    /// that then finds the queue empty leaves its loop.
    pub fn close(&mut self)
        requires
            old(self).wf(),
        ensures
            final(self).wf(),
            final(self)@ == old(self)@.close(),
    {
        self.closed = true;
        proof {
            assert(self@.workers =~= old(self)@.workers);
        }
    }
}

} // verus!
