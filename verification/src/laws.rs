//! What holds of the accelerator as a whole.
use crate::accel::QueryAccelerator;
use crate::combos::{lemma_offset_listed, neighbor_offset};
use crate::geometry::{cell_at, cells_at, dist_sq, dist_sq_upto, lemma_near_cells_touch, near};
use crate::grid::{counting, lemma_filter_distinct, other_than, shifted, CellGrid};
use vstd::arithmetic::power::pow;
use vstd::prelude::*;

verus! {

/// A filtered sequence holds the items of the sequence that pass the test.
pub proof fn lemma_filter_holds<A>(s: Seq<A>, test: spec_fn(A) -> bool, x: A)
    ensures
        s.filter(test).contains(x) <==> s.contains(x) && test(x),
{
    if s.filter(test).contains(x) {
        let k = choose|k: int| 0 <= k < s.filter(test).len() && s.filter(test)[k] == x;
        s.lemma_filter_pred(test, k);
        s.lemma_filter_contains_rev(test, x);
    }
    if s.contains(x) && test(x) {
        let k = choose|k: int| 0 <= k < s.len() && s[k] == x;
        s.lemma_filter_contains(test, k);
    }
}

/// The squared distance is the same in both directions.
pub proof fn lemma_dist_sq_symmetric(a: Seq<int>, b: Seq<int>, dims: nat)
    ensures
        dist_sq_upto(a, b, dims) == dist_sq_upto(b, a, dims),
    decreases dims,
{
    if dims > 0 {
        lemma_dist_sq_symmetric(a, b, (dims - 1) as nat);
        let d = a[dims - 1] - b[dims - 1];
        assert(d * d == (-d) * (-d)) by (nonlinear_arith);
    }
}

/// The partition of the indices: an accelerator that is in step with
/// `positions` keeps the index `i` in the bucket of the cell of
/// `positions[i]`, once, and in no other bucket.
pub proof fn lemma_partition<const D: usize>(
    acc: QueryAccelerator<D>,
    positions: Seq<Seq<int>>,
    i: usize,
    cell: Seq<int>,
)
    requires
        acc.wf(),
        acc.tracks(positions),
        i < positions.len(),
    ensures
        acc.grid().bucket(cell).no_duplicates(),
        acc.grid().bucket(cell).contains(i) <==> cell == cell_at(positions[i as int], acc.radius()),
{
    acc.lemma_wf();
    acc.grid().lemma_wf();
}

/// A move that starts from the position the accelerator knows keeps it in
/// step: if it was in step with `positions` and the point `idx` was moved from
/// `positions[idx]` to `current`, it is in step with the positions after the
/// move.
pub proof fn lemma_move_keeps_step<const D: usize>(
    before: QueryAccelerator<D>,
    after: QueryAccelerator<D>,
    positions: Seq<Seq<int>>,
    idx: usize,
    current: Seq<int>,
)
    requires
        before.tracks(positions),
        idx < positions.len(),
        after.radius() == before.radius(),
        after.cells() == before.cells().update(idx as int, cell_at(current, before.radius())),
    ensures
        after.tracks(positions.update(idx as int, current)),
{
    assert(after.cells() =~= cells_at(positions.update(idx as int, current), after.radius()));
}

/// The exact query is sound and complete: for an accelerator in step with
/// `positions`, an index is in the result exactly if it is tracked, is not
/// the querying index, and its position is no further than the radius from
/// `q`.
pub proof fn lemma_exact_query<const D: usize>(
    acc: QueryAccelerator<D>,
    positions: Seq<Seq<int>>,
    query_idx: usize,
    q: Seq<int>,
    j: usize,
)
    requires
        acc.wf(),
        acc.tracks(positions),
        q.len() == D,
        forall|i: int| 0 <= i < positions.len() ==> (#[trigger] positions[i]).len() == D,
    ensures
        acc.exact_result(positions, query_idx, q).contains(j) <==> j < positions.len() && j
            != query_idx && dist_sq(positions[j as int], q) <= acc.radius() * acc.radius(),
{
    acc.lemma_wf();
    acc.grid().lemma_wf();
    let grid = acc.grid();
    let radius = acc.radius();
    let origin = cell_at(q, radius);
    let count = pow(3, D as nat) as nat;
    let around = grid.candidates(origin);
    lemma_filter_holds(acc.fast_result(query_idx, q), near(positions, q, radius), j);
    lemma_filter_holds(around, other_than(query_idx), j);
    grid.lemma_candidates_upto(origin, count, j);
    if j < positions.len() && dist_sq(positions[j as int], q) <= radius * radius {
        let home = cell_at(positions[j as int], radius);
        let offset = Seq::new(D as nat, |i: int| home[i] - origin[i]);
        assert forall|i: int| 0 <= i < D implies -1 <= #[trigger] offset[i] <= 1 by {
            lemma_near_cells_touch(positions[j as int], q, radius, i);
        }
        let n = lemma_offset_listed(offset, D as nat);
        assert(shifted(origin, neighbor_offset(n, D as nat)) =~= home);
        assert(grid.homes()[j as int] == home);
        assert(grid.bucket(shifted(origin, neighbor_offset(n, D as nat))).contains(j));
    }
}

/// No query returns an index twice.
pub proof fn lemma_results_distinct<const D: usize>(
    acc: QueryAccelerator<D>,
    positions: Seq<Seq<int>>,
    query_idx: usize,
    q: Seq<int>,
)
    requires
        acc.wf(),
    ensures
        acc.fast_result(query_idx, q).no_duplicates(),
        acc.exact_result(positions, query_idx, q).no_duplicates(),
{
    acc.lemma_wf();
    let origin = cell_at(q, acc.radius());
    vstd::arithmetic::power::lemma_pow_positive(3, D as nat);
    acc.grid().lemma_candidates_distinct(origin, pow(3, D as nat) as nat);
    lemma_filter_distinct(acc.grid().candidates(origin), other_than(query_idx));
    lemma_filter_distinct(acc.fast_result(query_idx, q), near(positions, q, acc.radius()));
}

/// The approximate query leaves out nothing that the exact query returns.
pub proof fn lemma_fast_covers_exact<const D: usize>(
    acc: QueryAccelerator<D>,
    positions: Seq<Seq<int>>,
    query_idx: usize,
    q: Seq<int>,
    j: usize,
)
    requires
        acc.exact_result(positions, query_idx, q).contains(j),
    ensures
        acc.fast_result(query_idx, q).contains(j),
{
    lemma_filter_holds(acc.fast_result(query_idx, q), near(positions, q, acc.radius()), j);
}

/// Neighbors see each other: if the points `a` and `b` are no further apart
/// than the radius, then the exact query from `a` returns `b` and the exact
/// query from `b` returns `a`.
pub proof fn lemma_symmetry<const D: usize>(
    acc: QueryAccelerator<D>,
    positions: Seq<Seq<int>>,
    a: usize,
    b: usize,
)
    requires
        acc.wf(),
        acc.tracks(positions),
        forall|i: int| 0 <= i < positions.len() ==> (#[trigger] positions[i]).len() == D,
        a < positions.len(),
        b < positions.len(),
        a != b,
        dist_sq(positions[b as int], positions[a as int]) <= acc.radius() * acc.radius(),
    ensures
        acc.exact_result(positions, a, positions[a as int]).contains(b),
        acc.exact_result(positions, b, positions[b as int]).contains(a),
{
    lemma_dist_sq_symmetric(positions[a as int], positions[b as int], D as nat);
    lemma_exact_query(acc, positions, a, positions[a as int], b);
    lemma_exact_query(acc, positions, b, positions[b as int], a);
}

/// The buckets of the first `count` of the cells `named`, one after the other.
pub open spec fn gathered<const D: usize>(
    grid: CellGrid<D>,
    named: Seq<Seq<int>>,
    count: nat,
) -> Seq<usize>
    decreases count,
{
    if count == 0 {
        Seq::empty()
    } else {
        gathered(grid, named, (count - 1) as nat) + grid.bucket(named[count - 1])
    }
}

/// The sizes of the buckets of the first `count` of the cells `named`, added
/// up.
pub open spec fn sizes_sum<const D: usize>(
    grid: CellGrid<D>,
    named: Seq<Seq<int>>,
    count: nat,
) -> nat
    decreases count,
{
    if count == 0 {
        0
    } else {
        sizes_sum(grid, named, (count - 1) as nat) + grid.bucket(named[count - 1]).len()
    }
}

/// The gathered buckets are as long as their sizes add up to, and hold an
/// index exactly if one of the buckets holds it.
proof fn lemma_gathered<const D: usize>(
    grid: CellGrid<D>,
    named: Seq<Seq<int>>,
    count: nat,
    j: usize,
)
    ensures
        gathered(grid, named, count).len() == sizes_sum(grid, named, count),
        gathered(grid, named, count).contains(j) <==> exists|i: int|
            0 <= i < count && #[trigger] grid.bucket(named[i]).contains(j),
    decreases count,
{
    if count == 0 {
        assert(!Seq::<usize>::empty().contains(j));
    } else {
        let head = gathered(grid, named, (count - 1) as nat);
        let last = grid.bucket(named[count - 1]);
        lemma_gathered(grid, named, (count - 1) as nat, j);
        if (head + last).contains(j) {
            let k = choose|k: int| 0 <= k < (head + last).len() && (head + last)[k] == j;
            if k < head.len() {
                assert(head[k] == j);
                assert(head.contains(j));
            } else {
                assert(last[k - head.len()] == j);
                assert(last.contains(j));
            }
        }
        if head.contains(j) {
            let k = choose|k: int| 0 <= k < head.len() && head[k] == j;
            assert((head + last)[k] == j);
        }
        if last.contains(j) {
            let k = choose|k: int| 0 <= k < last.len() && last[k] == j;
            assert((head + last)[head.len() + k] == j);
        }
    }
}

/// The buckets of distinct cells, gathered, hold no index twice.
proof fn lemma_gathered_distinct<const D: usize>(
    grid: CellGrid<D>,
    named: Seq<Seq<int>>,
    count: nat,
)
    requires
        grid.partitioned(),
        named.no_duplicates(),
        count <= named.len(),
    ensures
        gathered(grid, named, count).no_duplicates(),
    decreases count,
{
    if count > 0 {
        let head = gathered(grid, named, (count - 1) as nat);
        let last = grid.bucket(named[count - 1]);
        lemma_gathered_distinct(grid, named, (count - 1) as nat);
        assert(last.no_duplicates());
        assert forall|a: int, b: int| 0 <= a < head.len() && 0 <= b < last.len() implies head[a]
            != last[b] by {
            if head[a] == last[b] {
                let x = head[a];
                assert(head.contains(x));
                assert(last.contains(x));
                lemma_gathered(grid, named, (count - 1) as nat, x);
                let i = choose|i: int|
                    0 <= i < count - 1 && #[trigger] grid.bucket(named[i]).contains(x);
                assert(named[i] == named[count - 1]);
            }
        }
        vstd::seq_lib::lemma_no_dup_in_concat(head, last);
    }
}

/// The bucket sizes add up to the number of points: for every listing of the
/// grid's cells without repetition, the sizes of their buckets sum to the
/// number of tracked points.
pub proof fn lemma_bucket_sizes_add_up<const D: usize>(grid: CellGrid<D>, named: Seq<Seq<int>>)
    requires
        grid.partitioned(),
        grid.homes().len() <= usize::MAX,
        named.no_duplicates(),
        forall|cell: Seq<int>| named.contains(cell) <==> grid@.contains_key(cell),
    ensures
        sizes_sum(grid, named, named.len()) == grid.homes().len(),
{
    let all = gathered(grid, named, named.len());
    let total = grid.homes().len();
    let every = counting(total);
    lemma_gathered_distinct(grid, named, named.len());
    lemma_gathered(grid, named, named.len(), 0);
    assert forall|j: usize| all.contains(j) <==> every.contains(j) by {
        lemma_gathered(grid, named, named.len(), j);
        if j < total {
            let home = grid.homes()[j as int];
            assert(grid.bucket(home).contains(j));
            assert(grid@.contains_key(home));
            assert(named.contains(home));
            let i = choose|i: int| 0 <= i < named.len() && named[i] == home;
            assert(grid.bucket(named[i]).contains(j));
            assert(every[j as int] == j);
        }
        if every.contains(j) {
            let k = choose|k: int| 0 <= k < every.len() && every[k] == j;
            assert(j == k);
        }
    }
    assert(all.to_set() =~= every.to_set());
    all.unique_seq_to_set();
    every.unique_seq_to_set();
}

} // verus!
