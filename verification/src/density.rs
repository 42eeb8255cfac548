//! Density grids: one saturating 8-bit counter per cell.
//!
//! Every worker fills a grid of its own while it moves its particles, and the
//! driver folds the workers' grids into one. A counter that has reached 255
//! stays there, whatever is added to it.

use vstd::prelude::*;
use crate::error::EngineError;

verus! {

/// A cell position as the kernel hands it over: column, then row.
pub type Point = (usize, usize);

/// The counter that stands for a true count of `n`.
pub open spec fn saturate(n: int) -> u8 {
    if n >= 255 {
        255u8
    } else if n <= 0 {
        0u8
    } else {
        n as u8
    }
}

/// The cell that position `(x, y)` counts for in a grid of `width` columns
/// and `height` rows: the position is clamped into the grid first.
pub open spec fn clamped_index(x: int, y: int, width: int, height: int) -> int {
    let cx = if x < width {
        x
    } else {
        width - 1
    };
    let cy = if y < height {
        y
    } else {
        height - 1
    };
    cy * width + cx
}

/// How many of `points` count for `cell`.
pub open spec fn hits(points: Seq<Point>, width: int, height: int, cell: int) -> int
    decreases points.len(),
{
    if points.len() == 0 {
        0
    } else {
        let p = points.last();
        hits(points.drop_last(), width, height, cell) + if clamped_index(
            p.0 as int,
            p.1 as int,
            width,
            height,
        ) == cell {
            1int
        } else {
            0int
        }
    }
}

/// Sum of the counters that the planes hold at `cell`.
pub open spec fn cell_total(planes: Seq<Seq<u8>>, cell: int) -> int
    decreases planes.len(),
{
    if planes.len() == 0 {
        0
    } else {
        cell_total(planes.drop_last(), cell) + planes.last()[cell] as int
    }
}

/// Two planes folded into one, cell by cell.
pub open spec fn merged(a: Seq<u8>, b: Seq<u8>) -> Seq<u8> {
    Seq::new(a.len(), |c: int| saturate(a[c] + b[c]))
}

/// All planes folded into one of `cells` cells.
pub open spec fn merged_all(planes: Seq<Seq<u8>>, cells: nat) -> Seq<u8> {
    Seq::new(cells, |c: int| saturate(cell_total(planes, c)))
}

/// The plane that `points` leave in a grid that was clear.
pub open spec fn tally(points: Seq<Point>, width: int, height: int) -> Seq<u8> {
    Seq::new((width * height) as nat, |c: int| saturate(hits(points, width, height, c)))
}

/// The batches of all workers, one behind the other in worker order.
pub open spec fn all_points(batches: Seq<Seq<Point>>) -> Seq<Point>
    decreases batches.len(),
{
    if batches.len() == 0 {
        Seq::empty()
    } else {
        all_points(batches.drop_last()) + batches.last()
    }
}

/// The planes that the workers leave, each after recording its own batch into
/// a grid that was clear.
pub open spec fn tallies(batches: Seq<Seq<Point>>, width: int, height: int) -> Seq<Seq<u8>> {
    Seq::new(batches.len(), |t: int| tally(batches[t], width, height))
}

/// A clamped position names a cell of the grid.
pub proof fn lemma_clamped_index_in_grid(x: int, y: int, width: int, height: int)
    requires
        0 <= x,
        0 <= y,
        0 < width,
        0 < height,
    ensures
        0 <= clamped_index(x, y, width, height) < width * height,
{
    let cx = if x < width {
        x
    } else {
        width - 1
    };
    let cy = if y < height {
        y
    } else {
        height - 1
    };
    assert(0 <= cy * width && cy * width + width <= height * width) by (nonlinear_arith)
        requires
            0 <= cy <= height - 1,
            0 < width,
    ;
}

/// Saturating early changes nothing: a counter that was saturated on the way
/// shows what one saturated at the end shows.
pub proof fn lemma_saturate_absorbs(a: int, b: int)
    requires
        0 <= a,
        0 <= b,
    ensures
        saturate(saturate(a) + b) == saturate(a + b),
        saturate(a + saturate(b)) == saturate(a + b),
        saturate(saturate(a) + saturate(b)) == saturate(a + b),
{
}

/// No number of hits takes a counter past 255, and below 255 the counter
/// shows the true count.
pub proof fn lemma_counter_caps(start: u8, n: int)
    requires
        0 <= n,
    ensures
        saturate(start + n) <= 255,
        start + n >= 255 ==> saturate(start + n) == 255,
        start + n < 255 ==> saturate(start + n) == start + n,
{
}

/// Hits are counted, so there are never fewer than none, nor more than points.
pub proof fn lemma_hits_bounds(points: Seq<Point>, width: int, height: int, cell: int)
    ensures
        0 <= hits(points, width, height, cell) <= points.len(),
    decreases points.len(),
{
    if points.len() > 0 {
        lemma_hits_bounds(points.drop_last(), width, height, cell);
    }
}

/// The hits of two batches, one recorded behind the other, add up.
pub proof fn lemma_hits_concat(a: Seq<Point>, b: Seq<Point>, width: int, height: int, cell: int)
    ensures
        hits(a + b, width, height, cell) == hits(a, width, height, cell) + hits(
            b,
            width,
            height,
            cell,
        ),
    decreases b.len(),
{
    if b.len() == 0 {
        assert(a + b =~= a);
    } else {
        assert((a + b).drop_last() =~= a + b.drop_last());
        assert((a + b).last() == b.last());
        lemma_hits_concat(a, b.drop_last(), width, height, cell);
    }
}

/// A sum of counters is not negative.
pub proof fn lemma_cell_total_nonnegative(planes: Seq<Seq<u8>>, cell: int)
    ensures
        0 <= cell_total(planes, cell),
    decreases planes.len(),
{
    if planes.len() > 0 {
        lemma_cell_total_nonnegative(planes.drop_last(), cell);
    }
}

/// Taking one plane out of the line takes its counter out of the sum.
pub proof fn lemma_cell_total_remove(planes: Seq<Seq<u8>>, k: int, cell: int)
    requires
        0 <= k < planes.len(),
    ensures
        cell_total(planes, cell) == cell_total(planes.remove(k), cell) + planes[k][cell] as int,
    decreases planes.len(),
{
    if k == planes.len() - 1 {
        assert(planes.remove(k) =~= planes.drop_last());
    } else {
        lemma_cell_total_remove(planes.drop_last(), k, cell);
        assert(planes.remove(k).drop_last() =~= planes.drop_last().remove(k));
        assert(planes.remove(k).last() == planes.last());
    }
}

/// The sum at a cell does not depend on the order of the planes.
pub proof fn lemma_cell_total_any_order(p: Seq<Seq<u8>>, q: Seq<Seq<u8>>, cell: int)
    requires
        p.to_multiset() == q.to_multiset(),
    ensures
        cell_total(p, cell) == cell_total(q, cell),
    decreases p.len(),
{
    broadcast use vstd::seq_lib::group_to_multiset_ensures;

    p.to_multiset_ensures();
    q.to_multiset_ensures();
    if p.len() == 0 {
        assert(q.len() == 0);
    } else {
        let x = p.last();
        assert(p.to_multiset().count(x) > 0);
        assert(q.contains(x));
        let k = choose|k: int| 0 <= k < q.len() && q[k] == x;
        assert(p.drop_last() =~= p.remove(p.len() - 1));
        vstd::seq_lib::to_multiset_remove(p, p.len() - 1);
        vstd::seq_lib::to_multiset_remove(q, k);
        lemma_cell_total_any_order(p.drop_last(), q.remove(k), cell);
        lemma_cell_total_remove(q, k, cell);
    }
}

/// Folding two planes gives the same plane whichever comes first.
pub proof fn lemma_merge_commutes(a: Seq<u8>, b: Seq<u8>)
    requires
        a.len() == b.len(),
    ensures
        merged(a, b) == merged(b, a),
{
    assert(merged(a, b) =~= merged(b, a));
}

/// Folding three planes gives the same plane however they are grouped.
pub proof fn lemma_merge_associates(a: Seq<u8>, b: Seq<u8>, c: Seq<u8>)
    requires
        a.len() == b.len(),
        b.len() == c.len(),
    ensures
        merged(merged(a, b), c) == merged(a, merged(b, c)),
{
    assert forall|i: int| 0 <= i < a.len() implies merged(merged(a, b), c)[i] == merged(
        a,
        merged(b, c),
    )[i] by {
        lemma_saturate_absorbs(a[i] + b[i], c[i] as int);
        lemma_saturate_absorbs(a[i] as int, b[i] + c[i]);
    }
    assert(merged(merged(a, b), c) =~= merged(a, merged(b, c)));
}

/// Folding one more plane into the fold of some planes gives the fold of all
/// of them.
pub proof fn lemma_merge_step(planes: Seq<Seq<u8>>, next: Seq<u8>, cells: nat)
    requires
        next.len() == cells,
    ensures
        merged(merged_all(planes, cells), next) == merged_all(planes.push(next), cells),
{
    assert forall|c: int| 0 <= c < cells implies merged(merged_all(planes, cells), next)[c]
        == merged_all(planes.push(next), cells)[c] by {
        lemma_cell_total_nonnegative(planes, c);
        lemma_saturate_absorbs(cell_total(planes, c), next[c] as int);
        assert(planes.push(next).drop_last() =~= planes);
    }
    assert(merged(merged_all(planes, cells), next) =~= merged_all(planes.push(next), cells));
}

/// The fold of the workers' planes does not depend on the order in which the
/// planes are taken.
pub proof fn lemma_merge_any_order(p: Seq<Seq<u8>>, q: Seq<Seq<u8>>, cells: nat)
    requires
        p.to_multiset() == q.to_multiset(),
    ensures
        merged_all(p, cells) == merged_all(q, cells),
{
    assert forall|c: int| 0 <= c < cells implies merged_all(p, cells)[c] == merged_all(q, cells)[c] by {
        lemma_cell_total_any_order(p, q, c);
    }
    assert(merged_all(p, cells) =~= merged_all(q, cells));
}

/// Two workers that record two batches of particles, each into a clear grid
/// of its own, leave planes whose fold is the plane that one worker would
/// leave after recording both batches.
pub proof fn lemma_merge_of_tallies(a: Seq<Point>, b: Seq<Point>, width: int, height: int)
    requires
        0 < width,
        0 < height,
    ensures
        merged(tally(a, width, height), tally(b, width, height)) == tally(a + b, width, height),
{
    let cells = width * height;
    assert(0 < cells) by (nonlinear_arith)
        requires
            cells == width * height,
            0 < width,
            0 < height,
    ;
    assert forall|c: int| 0 <= c < cells implies merged(
        tally(a, width, height),
        tally(b, width, height),
    )[c] == tally(a + b, width, height)[c] by {
        lemma_hits_bounds(a, width, height, c);
        lemma_hits_bounds(b, width, height, c);
        lemma_hits_concat(a, b, width, height, c);
        lemma_saturate_absorbs(hits(a, width, height, c), hits(b, width, height, c));
    }
    assert(merged(tally(a, width, height), tally(b, width, height)) =~= tally(
        a + b,
        width,
        height,
    ));
}

/// At one cell: the saturated sum of the workers' counters is the saturated
/// number of hits among all particles.
pub proof fn lemma_total_of_tallies(batches: Seq<Seq<Point>>, width: int, height: int, c: int)
    requires
        0 <= c < width * height,
    ensures
        0 <= cell_total(tallies(batches, width, height), c),
        saturate(cell_total(tallies(batches, width, height), c)) == saturate(
            hits(all_points(batches), width, height, c),
        ),
    decreases batches.len(),
{
    let planes = tallies(batches, width, height);
    lemma_cell_total_nonnegative(planes, c);
    if batches.len() > 0 {
        let rest = batches.drop_last();
        lemma_total_of_tallies(rest, width, height, c);
        assert(planes.drop_last() =~= tallies(rest, width, height));
        lemma_hits_concat(all_points(rest), batches.last(), width, height, c);
        lemma_hits_bounds(all_points(rest), width, height, c);
        lemma_hits_bounds(batches.last(), width, height, c);
        let before = cell_total(tallies(rest, width, height), c);
        let h_rest = hits(all_points(rest), width, height, c);
        let h_last = hits(batches.last(), width, height, c);
        assert(planes.last()[c] == saturate(h_last));
        lemma_saturate_absorbs(before, saturate(h_last) as int);
        lemma_saturate_absorbs(h_rest, saturate(h_last) as int);
        lemma_saturate_absorbs(h_rest, h_last);
    }
}

/// Any number of workers that record their batches of particles, each into a
/// clear grid of its own, leave planes whose fold is the plane that one
/// worker would leave after recording every particle: in each cell the sum of
/// the workers' counts, or 255 where that is more.
pub proof fn lemma_merge_all_of_tallies(batches: Seq<Seq<Point>>, width: int, height: int)
    requires
        0 < width,
        0 < height,
    ensures
        merged_all(tallies(batches, width, height), (width * height) as nat) == tally(
            all_points(batches),
            width,
            height,
        ),
{
    let cells = (width * height) as nat;
    assert forall|c: int| 0 <= c < cells implies merged_all(
        tallies(batches, width, height),
        cells,
    )[c] == tally(all_points(batches), width, height)[c] by {
        lemma_total_of_tallies(batches, width, height, c);
    }
    assert(merged_all(tallies(batches, width, height), cells) =~= tally(
        all_points(batches),
        width,
        height,
    ));
}

/// A grid of `width` columns and `height` rows of saturating counters, stored
/// row by row.
pub struct DensityGrid {
    width: usize,
    height: usize,
    cells: Vec<u8>,
}

impl View for DensityGrid {
    type V = Seq<u8>;

    /// The counters, row by row.
    closed spec fn view(&self) -> Seq<u8> {
        self.cells@
    }
}

/// The planes of a line of grids.
pub open spec fn planes_of(grids: Seq<DensityGrid>) -> Seq<Seq<u8>> {
    Seq::new(grids.len(), |t: int| grids[t]@)
}

impl DensityGrid {
    /// Number of columns.
    pub closed spec fn spec_width(&self) -> usize {
        self.width
    }

    /// Number of rows.
    pub closed spec fn spec_height(&self) -> usize {
        self.height
    }

    /// The grid has at least one cell, and one counter for every cell.
    pub open spec fn wf(&self) -> bool {
        &&& 0 < self.spec_width()
        &&& 0 < self.spec_height()
        &&& self.spec_width() * self.spec_height() <= usize::MAX
        &&& self@.len() == self.spec_width() * self.spec_height()
    }

    /// Whether `other` has the same number of columns and of rows.
    pub open spec fn same_shape(&self, other: &DensityGrid) -> bool {
        self.spec_width() == other.spec_width() && self.spec_height() == other.spec_height()
    }

    /// A clear grid. It fails with `InvalidConfiguration` where the grid would
    /// have no cell or more cells than `usize` can count.
    pub fn new(width: usize, height: usize) -> (res: Result<DensityGrid, EngineError>)
        ensures
            res is Err <==> width == 0 || height == 0 || width * height > usize::MAX,
            res matches Err(e) ==> e == EngineError::InvalidConfiguration,
            res matches Ok(g) ==> g.wf() && g.spec_width() == width && g.spec_height() == height
                && forall|c: int| 0 <= c < width * height ==> g@[c] == 0,
    {
        if width == 0 || height == 0 {
            return Err(EngineError::InvalidConfiguration);
        }
        match width.checked_mul(height) {
            None => Err(EngineError::InvalidConfiguration),
            Some(count) => {
                let cells: Vec<u8> = vec![0u8; count];
                Ok(DensityGrid { width, height, cells })
            },
        }
    }

    /// Number of columns.
    #[verifier::when_used_as_spec(spec_width)]
    pub fn width(&self) -> (w: usize)
        ensures
            w == self.spec_width(),
    {
        self.width
    }

    /// Number of rows.
    #[verifier::when_used_as_spec(spec_height)]
    pub fn height(&self) -> (h: usize)
        ensures
            h == self.spec_height(),
    {
        self.height
    }

    /// Number of cells.
    pub fn cell_count(&self) -> (n: usize)
        requires
            self.wf(),
        ensures
            n == self.spec_width() * self.spec_height(),
            n == self@.len(),
    {
        self.cells.len()
    }

    /// The counters, row by row.
    pub fn cells(&self) -> (cells: &Vec<u8>)
        ensures
            cells@ == self@,
    {
        &self.cells
    }

    /// The cell that position `(x, y)` counts for. A position beyond the last
    /// column or row counts for the last column or row.
    pub fn cell_index(&self, x: usize, y: usize) -> (index: usize)
        requires
            self.wf(),
        ensures
            index == clamped_index(
                x as int,
                y as int,
                self.spec_width() as int,
                self.spec_height() as int,
            ),
            index < self@.len(),
    {
        proof {
            lemma_clamped_index_in_grid(
                x as int,
                y as int,
                self.width as int,
                self.height as int,
            );
        }
        let cx: usize = if x < self.width {
            x
        } else {
            self.width - 1
        };
        let cy: usize = if y < self.height {
            y
        } else {
            self.height - 1
        };
        assert(0 <= cy * self.width <= cy * self.width + cx) by (nonlinear_arith)
            requires
                0 <= cy,
                0 <= cx,
                0 <= self.width,
        ;
        cy * self.width + cx
    }

    /// The counter of the cell that position `(x, y)` counts for.
    pub fn count_at(&self, x: usize, y: usize) -> (count: u8)
        requires
            self.wf(),
        ensures
            count == self@[clamped_index(
                x as int,
                y as int,
                self.spec_width() as int,
                self.spec_height() as int,
            )],
    {
        let index = self.cell_index(x, y);
        self.cells[index]
    }

    /// Sets every counter to zero.
    pub fn clear(&mut self)
        requires
            old(self).wf(),
        ensures
            final(self).wf(),
            final(self).same_shape(old(self)),
            forall|c: int| 0 <= c < final(self)@.len() ==> final(self)@[c] == 0,
    {
        let n = self.cells.len();
        let mut i: usize = 0;
        while i < n
            invariant
                i <= n,
                n == self.cells.len(),
                self.width == old(self).width,
                self.height == old(self).height,
                forall|c: int| 0 <= c < i ==> self.cells@[c] == 0,
            decreases n - i,
        {
            self.cells.set(i, 0);
            i += 1;
        }
    }

    /// Counts one particle at position `(x, y)`: the counter of its cell goes
    /// up by one unless it stands at 255.
    pub fn record(&mut self, x: usize, y: usize)
        requires
            old(self).wf(),
        ensures
            final(self).wf(),
            final(self).same_shape(old(self)),
            final(self)@ == old(self)@.update(
                clamped_index(
                    x as int,
                    y as int,
                    old(self).spec_width() as int,
                    old(self).spec_height() as int,
                ),
                saturate(
                    old(self)@[clamped_index(
                        x as int,
                        y as int,
                        old(self).spec_width() as int,
                        old(self).spec_height() as int,
                    )] + 1,
                ),
            ),
    {
        let index = self.cell_index(x, y);
        let count = self.cells[index];
        self.cells.set(index, count.saturating_add(1));
    }

    /// Counts one particle at each of `points`. Afterwards every counter shows
    /// what it showed before plus the number of points that count for its
    /// cell, or 255 where that is more.
    pub fn record_all(&mut self, points: &Vec<Point>)
        requires
            old(self).wf(),
        ensures
            final(self).wf(),
            final(self).same_shape(old(self)),
            forall|c: int|
                0 <= c < final(self)@.len() ==> final(self)@[c] == saturate(
                    old(self)@[c] + hits(
                        points@,
                        old(self).spec_width() as int,
                        old(self).spec_height() as int,
                        c,
                    ),
                ),
            (forall|c: int| 0 <= c < old(self)@.len() ==> old(self)@[c] == 0) ==> final(self)@
                == tally(
                points@,
                old(self).spec_width() as int,
                old(self).spec_height() as int,
            ),
    {
        let ghost w = self.width as int;
        let ghost h = self.height as int;
        let n = points.len();
        let mut k: usize = 0;
        while k < n
            invariant
                k <= n,
                n == points.len(),
                self.wf(),
                old(self).wf(),
                self.same_shape(old(self)),
                w == old(self).spec_width(),
                h == old(self).spec_height(),
                forall|c: int|
                    0 <= c < self@.len() ==> self@[c] == saturate(
                        old(self)@[c] + hits(points@.take(k as int), w, h, c),
                    ),
            decreases n - k,
        {
            let p = points[k];
            let ghost before = self@;
            self.record(p.0, p.1);
            proof {
                let done = points@.take(k as int);
                let next = points@.take(k + 1);
                assert(next.drop_last() =~= done);
                assert(next.last() == p);
                assert forall|c: int| 0 <= c < self@.len() implies self@[c] == saturate(
                    old(self)@[c] + hits(next, w, h, c),
                ) by {
                    lemma_hits_bounds(done, w, h, c);
                    lemma_clamped_index_in_grid(p.0 as int, p.1 as int, w, h);
                    assert(before[c] == saturate(old(self)@[c] + hits(done, w, h, c)));
                    lemma_saturate_absorbs(old(self)@[c] + hits(done, w, h, c), 1);
                }
            }
            k += 1;
        }
        assert(points@.take(n as int) =~= points@);
        proof {
            if forall|c: int| 0 <= c < old(self)@.len() ==> old(self)@[c] == 0 {
                assert(self@ =~= tally(points@, w, h));
            }
        }
    }

    /// Folds the counters of `other` into this grid, cell by cell.
    pub fn merge(&mut self, other: &DensityGrid)
        requires
            old(self).wf(),
            other.wf(),
            old(self).same_shape(other),
        ensures
            final(self).wf(),
            final(self).same_shape(old(self)),
            final(self)@ == merged(old(self)@, other@),
    {
        let n = self.cells.len();
        let mut i: usize = 0;
        while i < n
            invariant
                i <= n,
                n == self.cells.len(),
                n == other.cells.len(),
                n == old(self).cells.len(),
                self.width == old(self).width,
                self.height == old(self).height,
                forall|c: int| 0 <= c < i ==> self.cells@[c] == saturate(
                    old(self).cells@[c] + other.cells@[c],
                ),
                forall|c: int| i <= c < n ==> self.cells@[c] == old(self).cells@[c],
            decreases n - i,
        {
            let sum = self.cells[i].saturating_add(other.cells[i]);
            self.cells.set(i, sum);
            i += 1;
        }
        assert(self@ =~= merged(old(self)@, other@));
    }

    /// Overwrites this grid with the fold of the workers' grids, taken in
    /// worker order: every counter shows the sum of the workers' counters for
    /// its cell, or 255 where that is more.
    pub fn merge_all(&mut self, parts: &Vec<DensityGrid>)
        requires
            old(self).wf(),
            forall|t: int|
                0 <= t < parts.len() ==> (#[trigger] parts[t]).wf() && parts[t].same_shape(
                    old(self),
                ),
        ensures
            final(self).wf(),
            final(self).same_shape(old(self)),
            final(self)@ == merged_all(planes_of(parts@), old(self)@.len()),
    {
        self.clear();
        let ghost cells = self@.len();
        assert(self@ =~= merged_all(planes_of(parts@.take(0)), cells));
        let n = parts.len();
        let mut t: usize = 0;
        while t < n
            invariant
                t <= n,
                n == parts.len(),
                self.wf(),
                self.same_shape(old(self)),
                cells == old(self)@.len(),
                cells == self@.len(),
                forall|u: int|
                    0 <= u < parts.len() ==> (#[trigger] parts[u]).wf() && parts[u].same_shape(
                        old(self),
                    ),
                self@ == merged_all(planes_of(parts@.take(t as int)), cells),
            decreases n - t,
        {
            self.merge(&parts[t]);
            proof {
                let done = planes_of(parts@.take(t as int));
                lemma_merge_step(done, parts[t as int]@, cells);
                assert(planes_of(parts@.take(t + 1)) =~= done.push(parts[t as int]@));
            }
            t += 1;
        }
        assert(parts@.take(n as int) =~= parts@);
    }
}

} // verus!
