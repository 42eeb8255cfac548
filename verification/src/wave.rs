//! One wave: the tasks of one simulation step, one task per worker.
//!
//! A task is a plain record. It names the worker, the region of the particle
//! buffers that the worker may write, its slice of the counter buffer, and
//! the values that all tasks of the step share. Whether two tasks could touch
//! the same scalar can be read off the records.

use vstd::prelude::*;
use crate::error::EngineError;
use crate::partition::{
    Region,
    region_at,
    region_for,
    plane_region_for,
    owner,
    lemma_regions_split_buffer,
};
use crate::pool::{ThreadPool, PoolState, lemma_idle_means_drained};

verus! {

/// The work of one worker in one step.
#[derive(Debug)]
pub struct Task<P> {
    /// The worker that the task is meant for.
    pub worker: usize,
    /// The scalars of the position and velocity buffers that the task updates.
    pub particles: Region,
    /// The counters that the task increments.
    pub cells: Region,
    /// What all tasks of the step share: time step, friction, pointer.
    pub params: P,
}

impl<P: Copy> Clone for Task<P> {
    fn clone(&self) -> (copy: Self)
        ensures
            copy == *self,
    {
        *self
    }
}

impl<P: Copy> Copy for Task<P> {

}

/// The task of `worker` in a step over `items` particles of `stride` scalars
/// and a counter plane of `cells` cells per worker.
pub open spec fn task_at<P>(
    worker: int,
    workers: int,
    items: int,
    stride: int,
    cells: int,
    params: P,
) -> Task<P> {
    Task {
        worker: worker as usize,
        particles: region_at(worker, workers, items, stride),
        cells: region_at(worker, workers, workers, cells),
        params,
    }
}

/// Whether `tasks` are the tasks of one step, in worker order.
pub open spec fn is_wave<P>(
    tasks: Seq<Task<P>>,
    workers: int,
    items: int,
    stride: int,
    cells: int,
    params: P,
) -> bool {
    &&& tasks.len() == workers
    &&& forall|t: int|
        0 <= t < workers ==> #[trigger] tasks[t] == task_at(
            t,
            workers,
            items,
            stride,
            cells,
            params,
        )
}

/// The tasks of one step, in worker order. It fails with
/// `InvalidConfiguration` where there is no worker, or the particle buffer or
/// the counter buffer would be larger than `usize` can count.
pub fn plan_wave<P: Copy>(
    items: usize,
    workers: usize,
    stride: usize,
    cells: usize,
    params: P,
) -> (res: Result<Vec<Task<P>>, EngineError>)
    ensures
        res is Err <==> workers == 0 || items * stride > usize::MAX || workers * cells
            > usize::MAX,
        res matches Err(e) ==> e == EngineError::InvalidConfiguration,
        res matches Ok(tasks) ==> is_wave(
            tasks@,
            workers as int,
            items as int,
            stride as int,
            cells as int,
            params,
        ),
{
    if workers == 0 {
        return Err(EngineError::InvalidConfiguration);
    }
    if items.checked_mul(stride).is_none() {
        return Err(EngineError::InvalidConfiguration);
    }
    if workers.checked_mul(cells).is_none() {
        return Err(EngineError::InvalidConfiguration);
    }
    let mut tasks: Vec<Task<P>> = Vec::new();
    let mut t: usize = 0;
    while t < workers
        invariant
            t <= workers,
            items * stride <= usize::MAX,
            workers * cells <= usize::MAX,
            tasks@.len() == t,
            forall|k: int|
                0 <= k < t ==> #[trigger] tasks@[k] == task_at(
                    k,
                    workers as int,
                    items as int,
                    stride as int,
                    cells as int,
                    params,
                ),
        decreases workers - t,
    {
        let particles = region_for(t, workers, items, stride);
        let plane = plane_region_for(t, workers, cells);
        tasks.push(Task { worker: t, particles, cells: plane, params });
        t += 1;
    }
    Ok(tasks)
}

/// Submits the tasks of one step, in worker order, to a pool that is open and
/// idle, and says whether it did. Where a wave is still under way or the pool
/// is closed, nothing is submitted: waves never overlap.
pub fn begin_wave<P: Copy>(pool: &mut ThreadPool<Task<P>>, tasks: &Vec<Task<P>>) -> (begun: bool)
    requires
        old(pool).wf(),
    ensures
        final(pool).wf(),
        begun <==> old(pool)@.idle() && !old(pool)@.closed,
        begun ==> final(pool)@ == (PoolState {
            queue: tasks@,
            pending: tasks@.len(),
            ..old(pool)@
        }),
        !begun ==> final(pool)@ == old(pool)@,
{
    if pool.is_closed() || pool.pending() != 0 {
        return false;
    }
    proof {
        lemma_idle_means_drained(old(pool)@);
        assert(old(pool)@.queue =~= tasks@.take(0));
    }
    let n = tasks.len();
    let mut k: usize = 0;
    while k < n
        invariant
            k <= n,
            n == tasks@.len(),
            pool.wf(),
            pool@ == (PoolState {
                queue: tasks@.take(k as int),
                pending: k as nat,
                ..old(pool)@
            }),
            !old(pool)@.closed,
        decreases n - k,
    {
        let task = tasks[k];
        pool.execute(task);
        proof {
            assert(tasks@.take(k as int).push(task) =~= tasks@.take(k + 1));
        }
        k += 1;
    }
    proof {
        assert(tasks@.take(n as int) =~= tasks@);
    }
    true
}

/// No two tasks of a wave share a scalar of the particle buffers or a
/// counter: scalar `i` of the particle buffers belongs to the task of exactly
/// one worker, and so does counter `c` of the counter buffer.
pub proof fn lemma_wave_tasks_disjoint<P>(
    tasks: Seq<Task<P>>,
    workers: int,
    items: int,
    stride: int,
    cells: int,
    params: P,
    i: int,
    c: int,
)
    requires
        0 < workers,
        0 <= items,
        0 <= stride,
        0 <= cells,
        items * stride <= usize::MAX,
        workers * cells <= usize::MAX,
        is_wave(tasks, workers, items, stride, cells, params),
    ensures
        0 <= i < items * stride ==> tasks[owner(workers, items, stride, i)].particles.holds(i),
        0 <= c < workers * cells ==> tasks[owner(workers, workers, cells, c)].cells.holds(c),
        forall|t: int|
            0 <= t < workers && (#[trigger] tasks[t]).particles.holds(i) ==> 0 <= i < items
                * stride && t == owner(workers, items, stride, i),
        forall|t: int|
            0 <= t < workers && (#[trigger] tasks[t]).cells.holds(c) ==> 0 <= c < workers * cells
                && t == owner(workers, workers, cells, c),
{
    lemma_regions_split_buffer(workers, items, stride, i);
    lemma_regions_split_buffer(workers, workers, cells, c);
    assert forall|t: int| 0 <= t < workers && (#[trigger] tasks[t]).particles.holds(i) implies 0
        <= i < items * stride && t == owner(workers, items, stride, i) by {
        assert(tasks[t].particles == region_at(t, workers, items, stride));
    }
    assert forall|t: int| 0 <= t < workers && (#[trigger] tasks[t]).cells.holds(c) implies 0 <= c
        < workers * cells && t == owner(workers, workers, cells, c) by {
        assert(tasks[t].cells == region_at(t, workers, workers, cells));
    }
}

} // verus!
