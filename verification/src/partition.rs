//! The static split of one flat buffer among the workers.
//!
//! A buffer holds `items` records of `stride` scalars each. Every step it is
//! cut into one contiguous region per worker: each worker gets
//! `items / workers` records, and the last worker also takes the records that
//! the division leaves over. The regions are computed from the four numbers
//! alone, so every step cuts the buffer in the same places.

use vstd::prelude::*;
use crate::error::EngineError;

verus! {

/// Scalars that the update kernel handles together.
pub const LANES: usize = 8;

/// Scalars per particle in the position and in the velocity buffer.
pub const PARTICLE_STRIDE: usize = 2;

/// A half-open range `[start, end)` of scalar indices.
#[derive(Debug, Clone, Copy, PartialEq, Eq, Structural)]
pub struct Region {
    pub start: usize,
    pub end: usize,
}

impl Region {
    /// The start does not lie behind the end.
    pub open spec fn wf(self) -> bool {
        self.start <= self.end
    }

    /// Whether scalar `i` lies in the region.
    pub open spec fn holds(self, i: int) -> bool {
        self.start <= i < self.end
    }

    /// Number of whole lane groups in the region.
    pub open spec fn group_count(self) -> int {
        (self.end - self.start) / (LANES as int)
    }

    /// Number of scalars in the region.
    pub fn len(&self) -> (n: usize)
        requires
            self.wf(),
        ensures
            n == self.end - self.start,
    {
        self.end - self.start
    }

    /// Whether the region holds no scalar.
    pub fn is_empty(&self) -> (b: bool)
        ensures
            b <==> self.end <= self.start,
    {
        self.end <= self.start
    }

    /// Whether scalar `index` lies in the region.
    pub fn contains(&self, index: usize) -> (b: bool)
        ensures
            b <==> self.holds(index as int),
    {
        self.start <= index && index < self.end
    }

    /// Number of whole lane groups in the region. The scalars that are left
    /// behind the last whole group, fewer than `LANES`, belong to no group.
    pub fn lane_groups(&self) -> (n: usize)
        requires
            self.wf(),
        ensures
            n == self.group_count(),
            self.start + n * LANES <= self.end,
            self.end - (self.start + n * LANES) < LANES,
    {
        (self.end - self.start) / LANES
    }

    /// The scalars of lane group `group`: `LANES` of them, starting `group`
    /// groups behind the start of the region.
    pub fn lane_group(&self, group: usize) -> (r: Region)
        requires
            self.wf(),
            group < self.group_count(),
        ensures
            r.start == self.start + group * LANES,
            r.end == r.start + LANES,
            self.start <= r.start,
            r.end <= self.end,
    {
        let start: usize = self.start + group * LANES;
        Region { start, end: start + LANES }
    }
}

/// The region of `worker` as a value.
pub open spec fn region_at(worker: int, workers: int, items: int, stride: int) -> Region {
    Region {
        start: region_start(worker, workers, items, stride) as usize,
        end: region_end(worker, workers, items, stride) as usize,
    }
}

/// First scalar of the region of `worker`.
pub open spec fn region_start(worker: int, workers: int, items: int, stride: int) -> int {
    worker * (items / workers) * stride
}

/// One past the last scalar of the region of `worker`.
pub open spec fn region_end(worker: int, workers: int, items: int, stride: int) -> int {
    if worker == workers - 1 {
        items * stride
    } else {
        (worker + 1) * (items / workers) * stride
    }
}

/// Whether scalar `i` belongs to the region of `worker`.
pub open spec fn in_region(worker: int, workers: int, items: int, stride: int, i: int) -> bool {
    region_start(worker, workers, items, stride) <= i < region_end(worker, workers, items, stride)
}

/// The worker whose region holds scalar `i` of the buffer.
pub open spec fn owner(workers: int, items: int, stride: int, i: int) -> int {
    let span = (items / workers) * stride;
    if span > 0 && i / span < workers - 1 {
        i / span
    } else {
        workers - 1
    }
}

/// `k` whole chunks, for `k` up to the number of workers, never reach past the
/// buffer, and more chunks reach at least as far as fewer.
pub proof fn lemma_chunks_fit(k: int, workers: int, items: int, stride: int)
    requires
        0 <= k <= workers,
        0 < workers,
        0 <= items,
        0 <= stride,
    ensures
        0 <= k * (items / workers) <= items,
        0 <= k * (items / workers) * stride <= items * stride,
        k < workers ==> k * (items / workers) * stride <= (k + 1) * (items / workers) * stride,
{
    let c = items / workers;
    assert(0 <= c && c * workers <= items) by (nonlinear_arith)
        requires
            c == items / workers,
            0 < workers,
            0 <= items,
    ;
    assert(0 <= k * c <= c * workers) by (nonlinear_arith)
        requires
            0 <= k <= workers,
            0 <= c,
    ;
    assert(0 <= k * c * stride <= items * stride) by (nonlinear_arith)
        requires
            0 <= k * c <= items,
            0 <= stride,
    ;
    assert(k * c * stride <= (k + 1) * c * stride) by (nonlinear_arith)
        requires
            0 <= k,
            0 <= c,
            0 <= stride,
    ;
}

/// Regions of workers further on in the line lie further on in the buffer.
pub proof fn lemma_regions_ordered(t: int, u: int, workers: int, items: int, stride: int)
    requires
        0 <= t < u < workers,
        0 <= items,
        0 <= stride,
    ensures
        region_start(t, workers, items, stride) <= region_end(t, workers, items, stride),
        region_end(t, workers, items, stride) <= region_start(u, workers, items, stride),
        region_start(u, workers, items, stride) <= region_end(u, workers, items, stride),
        region_end(u, workers, items, stride) <= items * stride,
{
    let c = items / workers;
    lemma_chunks_fit(t, workers, items, stride);
    lemma_chunks_fit(u, workers, items, stride);
    lemma_chunks_fit(u + 1, workers, items, stride);
    assert(0 <= c) by {
        lemma_chunks_fit(1, workers, items, stride);
    }
    assert((t + 1) * c * stride <= u * c * stride) by (nonlinear_arith)
        requires
            t + 1 <= u,
            0 <= c,
            0 <= stride,
    ;
}

/// The regions tile the buffer: they follow one another without a gap, the
/// first starts at scalar 0 and the last ends with the buffer.
pub proof fn lemma_regions_adjacent(workers: int, items: int, stride: int)
    requires
        0 < workers,
        0 <= items,
        0 <= stride,
    ensures
        region_start(0, workers, items, stride) == 0,
        region_end(workers - 1, workers, items, stride) == items * stride,
        forall|t: int|
            0 <= t < workers ==> #[trigger] region_start(t, workers, items, stride) <= region_end(
                t,
                workers,
                items,
                stride,
            ),
        forall|t: int|
            0 <= t < workers - 1 ==> #[trigger] region_end(t, workers, items, stride)
                == region_start(t + 1, workers, items, stride),
{
    assert(0 * (items / workers) * stride == 0) by (nonlinear_arith);
    assert forall|t: int| 0 <= t < workers implies #[trigger] region_start(
        t,
        workers,
        items,
        stride,
    ) <= region_end(t, workers, items, stride) by {
        lemma_chunks_fit(t, workers, items, stride);
    }
}

/// Every scalar of the buffer lies in the region of exactly one worker, the
/// one that `owner` names, and no region holds anything else.
pub proof fn lemma_partition_exact(workers: int, items: int, stride: int, i: int)
    requires
        0 < workers,
        0 <= items,
        0 <= stride,
    ensures
        0 <= i < items * stride ==> 0 <= owner(workers, items, stride, i) < workers && in_region(
            owner(workers, items, stride, i),
            workers,
            items,
            stride,
            i,
        ),
        forall|t: int|
            0 <= t < workers && #[trigger] in_region(t, workers, items, stride, i) ==> 0 <= i
                < items * stride && t == owner(workers, items, stride, i),
{
    let c = items / workers;
    let span = c * stride;
    let o = owner(workers, items, stride, i);
    lemma_chunks_fit(1, workers, items, stride);
    assert(0 <= span) by (nonlinear_arith)
        requires
            span == c * stride,
            0 <= c,
            0 <= stride,
    ;
    if 0 <= i < items * stride {
        if span > 0 && i / span < workers - 1 {
            assert(0 <= o && o * span <= i < (o + 1) * span) by (nonlinear_arith)
                requires
                    o == i / span,
                    span > 0,
                    0 <= i,
            ;
            assert(o * c * stride == o * span && (o + 1) * c * stride == (o + 1) * span)
                by (nonlinear_arith)
                requires
                    span == c * stride,
            ;
        } else {
            assert((workers - 1) * c * stride <= i) by {
                if span > 0 {
                    let q = i / span;
                    assert(q * span <= i && (workers - 1) * span <= q * span) by (nonlinear_arith)
                        requires
                            q == i / span,
                            span > 0,
                            0 <= i,
                            workers - 1 <= q,
                    ;
                    assert((workers - 1) * c * stride == (workers - 1) * span)
                        by (nonlinear_arith)
                        requires
                            span == c * stride,
                    ;
                } else {
                    assert((workers - 1) * c * stride == 0) by (nonlinear_arith)
                        requires
                            c * stride == 0,
                    ;
                }
            }
        }
    }
    assert forall|t: int|
        0 <= t < workers && #[trigger] in_region(t, workers, items, stride, i) implies 0 <= i
        < items * stride && t == o by {
        lemma_chunks_fit(t, workers, items, stride);
        lemma_chunks_fit(t + 1, workers, items, stride);
        assert(0 <= i < items * stride);
        if t < o {
            lemma_regions_ordered(t, o, workers, items, stride);
        } else if o < t {
            lemma_regions_ordered(o, t, workers, items, stride);
        }
    }
}

/// The regions as `partition` hands them out split the buffer exactly: every
/// scalar of the buffer lies in the region of the worker that `owner` names
/// and in no other, and no region holds a scalar from beyond the buffer.
pub proof fn lemma_regions_split_buffer(workers: int, items: int, stride: int, i: int)
    requires
        0 < workers,
        0 <= items,
        0 <= stride,
        items * stride <= usize::MAX,
    ensures
        0 <= i < items * stride ==> 0 <= owner(workers, items, stride, i) < workers && region_at(
            owner(workers, items, stride, i),
            workers,
            items,
            stride,
        ).holds(i),
        forall|t: int|
            0 <= t < workers && (#[trigger] region_at(t, workers, items, stride)).holds(i) ==> 0
                <= i < items * stride && t == owner(workers, items, stride, i),
        forall|t: int|
            0 <= t < workers ==> (#[trigger] region_at(t, workers, items, stride)).holds(i)
                == in_region(t, workers, items, stride, i),
{
    lemma_partition_exact(workers, items, stride, i);
    assert forall|t: int| 0 <= t < workers implies (#[trigger] region_at(
        t,
        workers,
        items,
        stride,
    )).holds(i) == in_region(t, workers, items, stride, i) by {
        lemma_chunks_fit(t, workers, items, stride);
        lemma_chunks_fit(t + 1, workers, items, stride);
    }
    if 0 <= i < items * stride {
        let o = owner(workers, items, stride, i);
        assert(region_at(o, workers, items, stride).holds(i) == in_region(
            o,
            workers,
            items,
            stride,
            i,
        ));
    }
}

/// The region of `worker` in a buffer of `items` records of `stride` scalars
/// that `workers` workers share.
pub fn region_for(worker: usize, workers: usize, items: usize, stride: usize) -> (r: Region)
    requires
        worker < workers,
        items * stride <= usize::MAX,
    ensures
        r.start == region_start(worker as int, workers as int, items as int, stride as int),
        r.end == region_end(worker as int, workers as int, items as int, stride as int),
        r == region_at(worker as int, workers as int, items as int, stride as int),
        r.start <= r.end <= items * stride,
{
    let chunk: usize = items / workers;
    proof {
        lemma_chunks_fit(worker as int, workers as int, items as int, stride as int);
        lemma_chunks_fit(worker + 1, workers as int, items as int, stride as int);
    }
    let start: usize = worker * chunk * stride;
    let end: usize = if worker == workers - 1 {
        items * stride
    } else {
        (worker + 1) * chunk * stride
    };
    Region { start, end }
}

/// The slice of `worker` in a counter buffer that holds one plane of `cells`
/// counters per worker, the planes one behind the other. It is the region of
/// `worker` in a buffer of `workers` records of `cells` scalars.
pub fn plane_region_for(worker: usize, workers: usize, cells: usize) -> (r: Region)
    requires
        worker < workers,
        workers * cells <= usize::MAX,
    ensures
        r == region_at(worker as int, workers as int, workers as int, cells as int),
        r.start == worker * cells,
        r.end == (worker + 1) * cells,
        r.end <= workers * cells,
{
    proof {
        assert(workers as int / workers as int == 1) by (nonlinear_arith)
            requires
                workers > 0,
        ;
        assert(worker * 1 * cells == worker * cells && (worker + 1) * 1 * cells == (worker + 1)
            * cells) by (nonlinear_arith);
    }
    region_for(worker, workers, workers, cells)
}

/// The worker whose region holds scalar `index`.
pub fn owner_of(index: usize, workers: usize, items: usize, stride: usize) -> (w: usize)
    requires
        workers > 0,
        index < items * stride <= usize::MAX,
    ensures
        w == owner(workers as int, items as int, stride as int, index as int),
        w < workers,
        in_region(w as int, workers as int, items as int, stride as int, index as int),
{
    proof {
        lemma_chunks_fit(1, workers as int, items as int, stride as int);
        lemma_partition_exact(workers as int, items as int, stride as int, index as int);
        assert(1 * (items as int / workers as int) * stride == (items as int / workers as int)
            * stride) by (nonlinear_arith);
    }
    let span: usize = (items / workers) * stride;
    if span > 0 && index / span < workers - 1 {
        index / span
    } else {
        workers - 1
    }
}

/// The regions of all workers, in worker order. It fails with
/// `InvalidConfiguration` where there is no worker or the buffer's size does
/// not fit in `usize`.
pub fn partition(items: usize, workers: usize, stride: usize) -> (res: Result<
    Vec<Region>,
    EngineError,
>)
    ensures
        res is Err <==> workers == 0 || items * stride > usize::MAX,
        res matches Err(e) ==> e == EngineError::InvalidConfiguration,
        res matches Ok(v) ==> v.len() == workers && forall|t: int|
            0 <= t < workers ==> #[trigger] v[t] == region_at(
                t,
                workers as int,
                items as int,
                stride as int,
            ),
{
    if workers == 0 {
        return Err(EngineError::InvalidConfiguration);
    }
    if items.checked_mul(stride).is_none() {
        return Err(EngineError::InvalidConfiguration);
    }
    let mut regions: Vec<Region> = Vec::new();
    let mut t: usize = 0;
    while t < workers
        invariant
            t <= workers,
            items * stride <= usize::MAX,
            regions.len() == t,
            forall|k: int|
                0 <= k < t ==> #[trigger] regions[k] == region_at(
                    k,
                    workers as int,
                    items as int,
                    stride as int,
                ),
        decreases workers - t,
    {
        regions.push(region_for(t, workers, items, stride));
        t += 1;
    }
    Ok(regions)
}

} // verus!
