//! The accelerator for points with integer coordinates.
use crate::error::AccelError;
use crate::geometry::{cell_at, cells_at, near, quantize, within};
use crate::grid::{buckets_of, moved, other_than, CellGrid, Occupancy, MAX_POINTS};
use crate::vecn::{coords_of, VecN};
use vstd::arithmetic::power::pow;
use vstd::prelude::*;

verus! {

/// Answers which points lie within a fixed radius of a position.
///
/// Positions are points of the integer lattice, in whatever unit the caller
/// counts in. Space is cut into cubical cells whose side is the radius, and
/// every point index is kept in the bucket of its cell. The accelerator never
/// holds the points themselves: it is told where they are when it is built and
/// whenever one of them moves.
pub struct QueryAccelerator<const D: usize> {
    grid: CellGrid<D>,
    radius: i32,
    radius_sq: u64,
}

impl<const D: usize> QueryAccelerator<D> {
    /// The grid of buckets.
    pub closed spec fn grid(&self) -> CellGrid<D> {
        self.grid
    }

    /// The query radius, which is also the side of a cell.
    pub closed spec fn radius(&self) -> int {
        self.radius as int
    }

    /// What holds of every accelerator between calls.
    pub closed spec fn wf(&self) -> bool {
        &&& self.grid.wf()
        &&& self.radius > 0
        &&& self.radius_sq == self.radius * self.radius
    }

    /// For each tracked index, the cell in which the accelerator keeps it.
    pub open spec fn cells(&self) -> Seq<Seq<int>> {
        self.grid().homes()
    }

    /// The number of points that are tracked.
    pub open spec fn len(&self) -> nat {
        self.cells().len()
    }

    /// True if the accelerator keeps every point in the cell of the position
    /// that `positions` gives for it.
    pub open spec fn tracks(&self, positions: Seq<Seq<int>>) -> bool {
        self.cells() == cells_at(positions, self.radius())
    }

    /// What the approximate query returns: every index but `query_idx` from
    /// the cell of `q` and the cells that touch it.
    pub open spec fn fast_result(&self, query_idx: usize, q: Seq<int>) -> Seq<usize> {
        self.grid().candidates(cell_at(q, self.radius())).filter(other_than(query_idx))
    }

    /// What the exact query returns: of the approximate result, the indices
    /// whose position is no further than the radius from `q`.
    pub open spec fn exact_result(
        &self,
        positions: Seq<Seq<int>>,
        query_idx: usize,
        q: Seq<int>,
    ) -> Seq<usize> {
        self.fast_result(query_idx, q).filter(near(positions, q, self.radius()))
    }

    /// A well-formed accelerator has a well-formed grid and a positive radius.
    pub proof fn lemma_wf(&self)
        requires
            self.wf(),
        ensures
            self.grid().wf(),
            self.radius() > 0,
    {
    }

    /// Builds the accelerator for `points`, which get the indices
    /// `0..points.len()`, with cells of side `radius`. A radius that is not
    /// positive is refused.
    pub fn new(points: &[VecN<D, i32>], radius: i32) -> (made: Result<Self, AccelError>)
        requires
            points@.len() <= MAX_POINTS,
            pow(3, D as nat) <= usize::MAX,
        ensures
            match made {
                Ok(acc) => {
                    &&& radius > 0
                    &&& acc.wf()
                    &&& acc.radius() == radius
                    &&& acc.tracks(coords_of(points@))
                    &&& acc.grid()@ == buckets_of(acc.cells())
                    &&& acc.grid().partitioned()
                },
                Err(e) => radius <= 0 && e == AccelError::InvalidRadius,
            },
    {
        if radius <= 0 {
            return Err(AccelError::InvalidRadius);
        }
        let mut cells: Vec<VecN<D, i32>> = Vec::new();
        let mut i: usize = 0;
        while i < points.len()
            invariant
                radius > 0,
                i <= points@.len(),
                cells@.len() == i,
                forall|j: int|
                    0 <= j < i ==> (#[trigger] cells@[j]).coords() == cell_at(
                        points@[j].coords(),
                        radius as int,
                    ),
            decreases points@.len() - i,
        {
            cells.push(quantize(points[i], radius));
            i += 1;
        }
        let grid = CellGrid::new(cells.as_slice());
        let side: u64 = radius as u64;
        assert(side * side <= u64::MAX) by (nonlinear_arith)
            requires
                0 < side <= 0x7fff_ffff,
        ;
        let acc = QueryAccelerator { grid, radius, radius_sq: side * side };
        assert(acc.cells() =~= cells_at(coords_of(points@), radius as int));
        Ok(acc)
    }

    /// The indices other than `query_idx` of the points that are no further
    /// than the radius from `query_point`, as `points` places them. They come
    /// cell by cell in the order of the offset table, and within a cell
    /// oldest first.
    pub fn query_neighbors(
        &self,
        points: &[VecN<D, i32>],
        query_idx: usize,
        query_point: VecN<D, i32>,
    ) -> (out: Vec<usize>)
        requires
            self.wf(),
            points@.len() == self.len(),
        ensures
            out@ == self.exact_result(coords_of(points@), query_idx, query_point.coords()),
    {
        let origin = quantize(query_point, self.radius);
        let found = self.grid.neighbors_of(&origin, query_idx);
        let ghost test = near(coords_of(points@), query_point.coords(), self.radius());
        let mut out: Vec<usize> = Vec::new();
        let mut k: usize = 0;
        proof {
            reveal(Seq::filter);
            assert(found@.take(0).filter(test) =~= Seq::<usize>::empty());
            self.grid.lemma_wf();
            assert forall|i: int| 0 <= i < found@.len() implies #[trigger] found@[i]
                < points@.len() by {
                let j = found@[i];
                let inside = self.grid.candidates(origin.coords());
                assert(found@.contains(j));
                inside.lemma_filter_contains_rev(other_than(query_idx), j);
                self.grid.lemma_candidates_upto(origin.coords(), pow(3, D as nat) as nat, j);
            }
        }
        while k < found.len()
            invariant
                self.wf(),
                k <= found@.len(),
                test == near(coords_of(points@), query_point.coords(), self.radius()),
                forall|i: int| 0 <= i < found@.len() ==> #[trigger] found@[i] < points@.len(),
                out@ == found@.take(k as int).filter(test),
            decreases found@.len() - k,
        {
            let j = found[k];
            proof {
                assert(found@.take(k + 1) =~= found@.take(k as int).push(j));
                found@.take(k as int).lemma_filter_push(j, test);
                assert(coords_of(points@)[j as int] == points@[j as int].coords());
            }
            if within(&points[j], &query_point, self.radius_sq) {
                out.push(j);
            }
            k += 1;
        }
        assert(found@.take(k as int) =~= found@);
        out
    }

    /// The indices other than `query_idx` of all the points in the cell of
    /// `query_point` and in the cells that touch it, whatever their distance.
    pub fn query_neighbors_fast(&self, query_idx: usize, query_point: VecN<D, i32>) -> (out: Vec<
        usize,
    >)
        requires
            self.wf(),
        ensures
            out@ == self.fast_result(query_idx, query_point.coords()),
    {
        let origin = quantize(query_point, self.radius);
        self.grid.neighbors_of(&origin, query_idx)
    }

    /// How full the grid is: the number of points, the number of buckets and
    /// the size of the fullest bucket, for choosing a radius.
    pub fn stats(&self) -> (seen: Occupancy)
        requires
            self.wf(),
        ensures
            seen.points == self.len(),
            self.grid()@.dom().finite(),
            seen.cells == self.grid()@.dom().len(),
            forall|cell: Seq<int>| (#[trigger] self.grid().bucket(cell)).len() <= seen.largest,
            seen.cells == 0 ==> seen.largest == 0,
            seen.cells > 0 ==> exists|cell: Seq<int>|
                self.grid()@.contains_key(cell) && (#[trigger] self.grid().bucket(cell)).len()
                    == seen.largest,
    {
        self.grid.occupancy()
    }

    /// Tells the accelerator that the point `idx` has moved from `prev` to
    /// `current`. The index leaves the bucket of the cell of `prev` and goes to
    /// the end of the bucket of the cell of `current`. Where the accelerator
    /// does not keep `idx` in the cell of `prev`, nothing changes and the call
    /// is refused.
    pub fn replace_point(&mut self, idx: usize, prev: VecN<D, i32>, current: VecN<D, i32>) -> (moving:
        Result<(), AccelError>)
        requires
            old(self).wf(),
        ensures
            final(self).wf(),
            final(self).radius() == old(self).radius(),
            final(self).grid().partitioned(),
            moving is Ok <==> idx < old(self).len() && old(self).cells()[idx as int] == cell_at(
                prev.coords(),
                old(self).radius(),
            ),
            moving is Ok ==> final(self).cells() == old(self).cells().update(
                idx as int,
                cell_at(current.coords(), old(self).radius()),
            ) && final(self).grid()@ == moved(
                old(self).grid()@,
                idx,
                cell_at(prev.coords(), old(self).radius()),
                cell_at(current.coords(), old(self).radius()),
            ),
            moving is Err ==> moving == Err::<(), AccelError>(AccelError::NotInCell) && final(self).cells() == old(self).cells() && final(self).grid()@ == old(self).grid()@,
    {
        let from = quantize(prev, self.radius);
        let to = quantize(current, self.radius);
        proof {
            self.grid.lemma_wf();
        }
        self.grid.relocate(idx, &from, &to)
    }
}

} // verus!
