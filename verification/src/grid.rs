//! The grid of cells: which point index sits in which cell.
use crate::combos::{lemma_offsets_distinct, neighbor_offset, neighborhood};
use crate::error::AccelError;
use crate::store::{
    bucket_as_slice, bucket_items, bucket_new, bucket_push, bucket_remove, cells_get,
    cells_get_mut, cells_insert, cells_keys, CellMap,
};
use crate::vecn::{coords_of, VecN};
use std::collections::HashMap;
use vstd::arithmetic::power::pow;
use vstd::prelude::*;

verus! {

/// The most points a grid keeps track of. One bucket may hold all of them,
/// and a bucket cannot grow beyond this.
pub const MAX_POINTS: usize = usize::MAX / 32;

/// The cell that a key names: its components as mathematical integers.
pub open spec fn cell_of<const D: usize>(key: [i32; D]) -> Seq<int> {
    Seq::new(D as nat, |i: int| key[i] as int)
}

/// True if `cell` has `dims` components that each fit a key component.
pub open spec fn is_cell(cell: Seq<int>, dims: nat) -> bool {
    &&& cell.len() == dims
    &&& forall|i: int| 0 <= i < dims ==> i32::MIN <= #[trigger] cell[i] <= i32::MAX
}

/// The indices `0, 1, .., n - 1`.
pub open spec fn counting(n: nat) -> Seq<usize> {
    Seq::new(n, |i: int| i as usize)
}

/// The test whether the home of an index is `cell`.
pub open spec fn at_home(homes: Seq<Seq<int>>, cell: Seq<int>) -> spec_fn(usize) -> bool {
    |i: usize| homes[i as int] == cell
}

/// The indices below `homes.len()` whose home is `cell`, in increasing order.
pub open spec fn indices_in(homes: Seq<Seq<int>>, cell: Seq<int>) -> Seq<usize> {
    counting(homes.len()).filter(at_home(homes, cell))
}

/// The buckets of a grid that was filled with the points `0..homes.len()` in
/// order, point `i` going to the cell `homes[i]`.
pub open spec fn buckets_of(homes: Seq<Seq<int>>) -> Map<Seq<int>, Seq<usize>> {
    Map::new(|cell: Seq<int>| homes.contains(cell), |cell: Seq<int>| indices_in(homes, cell))
}

/// The cell that lies `offset` away from `origin`.
pub open spec fn shifted(origin: Seq<int>, offset: Seq<int>) -> Seq<int> {
    Seq::new(origin.len(), |i: int| origin[i] + offset[i])
}

/// The test that an index is not `skip`.
pub open spec fn other_than(skip: usize) -> spec_fn(usize) -> bool {
    |j: usize| j != skip
}

/// The bucket `s` once `idx`, which it holds, has left it.
pub open spec fn without(s: Seq<usize>, idx: usize) -> Seq<usize> {
    s.remove(s.index_of(idx))
}

/// The buckets once `idx` has left the bucket of `prev`, which holds it, and
/// has been appended to the bucket of `current`.
pub open spec fn moved(
    buckets: Map<Seq<int>, Seq<usize>>,
    idx: usize,
    prev: Seq<int>,
    current: Seq<int>,
) -> Map<Seq<int>, Seq<usize>> {
    let lifted = buckets.insert(prev, without(buckets[prev], idx));
    let target = if lifted.contains_key(current) {
        lifted[current]
    } else {
        Seq::empty()
    };
    lifted.insert(current, target.push(idx))
}

/// What a bucket without duplicates holds once the item at `at` is taken out.
pub proof fn lemma_remove_distinct(s: Seq<usize>, at: int)
    requires
        s.no_duplicates(),
        0 <= at < s.len(),
    ensures
        s.remove(at).no_duplicates(),
        forall|j: usize| #[trigger] s.remove(at).contains(j) <==> s.contains(j) && j != s[at],
        s.index_of(s[at]) == at,
{
    let rest = s.remove(at);
    assert forall|i: int, j: int| 0 <= i < rest.len() && 0 <= j < rest.len() && i != j implies rest[i]
        != rest[j] by {
        let si = if i < at { i } else { i + 1 };
        let sj = if j < at { j } else { j + 1 };
        assert(rest[i] == s[si] && rest[j] == s[sj]);
    }
    assert forall|j: usize| #[trigger] rest.contains(j) <==> s.contains(j) && j != s[at] by {
        if rest.contains(j) {
            let k = choose|k: int| 0 <= k < rest.len() && rest[k] == j;
            let sk = if k < at { k } else { k + 1 };
            assert(s[sk] == j);
        }
        if s.contains(j) && j != s[at] {
            let k = choose|k: int| 0 <= k < s.len() && s[k] == j;
            let rk = if k < at { k } else { k - 1 };
            assert(rest[rk] == j);
        }
    }
    assert(s.contains(s[at]));
}

/// What a bucket without duplicates holds once a new item is appended.
pub proof fn lemma_push_distinct(s: Seq<usize>, idx: usize)
    requires
        s.no_duplicates(),
        !s.contains(idx),
    ensures
        s.push(idx).no_duplicates(),
        forall|j: usize| #[trigger] s.push(idx).contains(j) <==> s.contains(j) || j == idx,
{
    let more = s.push(idx);
    assert forall|i: int, j: int| 0 <= i < more.len() && 0 <= j < more.len() && i != j implies more[i]
        != more[j] by {
        if i < s.len() {
            assert(s.contains(s[i]));
        }
        if j < s.len() {
            assert(s.contains(s[j]));
        }
    }
    assert forall|j: usize| #[trigger] more.contains(j) <==> s.contains(j) || j == idx by {
        if s.contains(j) {
            let k = choose|k: int| 0 <= k < s.len() && s[k] == j;
            assert(more[k] == j);
        }
        if j == idx {
            assert(more[s.len() as int] == j);
        }
    }
}

/// Filtering a sequence without duplicates leaves no duplicates.
pub proof fn lemma_filter_distinct<A>(s: Seq<A>, test: spec_fn(A) -> bool)
    requires
        s.no_duplicates(),
    ensures
        s.filter(test).no_duplicates(),
    decreases s.len(),
{
    reveal(Seq::filter);
    if s.len() > 0 {
        let front = s.drop_last();
        let kept = front.filter(test);
        lemma_filter_distinct(front, test);
        if test(s.last()) {
            if kept.contains(s.last()) {
                front.lemma_filter_contains_rev(test, s.last());
                let k = choose|k: int| 0 <= k < front.len() && front[k] == s.last();
                assert(s[k] == s[s.len() - 1]);
            }
            assert forall|i: int, j: int|
                0 <= i < kept.len() + 1 && 0 <= j < kept.len() + 1 && i != j implies kept.push(
                s.last(),
            )[i] != kept.push(s.last())[j] by {
                if i < kept.len() {
                    assert(kept.contains(kept[i]));
                }
                if j < kept.len() {
                    assert(kept.contains(kept[j]));
                }
            }
        }
    }
}

/// Keys that name the same cell are the same key.
pub proof fn lemma_cell_of_injective<const D: usize>(a: [i32; D], b: [i32; D])
    requires
        cell_of(a) == cell_of(b),
    ensures
        a == b,
{
    assert forall|i: int| 0 <= i < D implies a[i] == b[i] by {
        assert(cell_of(a)[i] == a[i] as int);
        assert(cell_of(b)[i] == b[i] as int);
    }
    assert(a =~= b);
}

/// Distinct numbers below `n` are at most `n` many.
pub proof fn lemma_distinct_below(s: Seq<usize>, n: nat)
    requires
        s.no_duplicates(),
        forall|k: int| 0 <= k < s.len() ==> #[trigger] s[k] < n,
    ensures
        s.len() <= n,
    decreases n,
{
    if s.len() > 0 {
        assert(s[0] < n);
        let top = (n - 1) as usize;
        if s.contains(top) {
            let p = choose|p: int| 0 <= p < s.len() && s[p] == top;
            let rest = s.remove(p);
            assert forall|k: int| 0 <= k < rest.len() implies #[trigger] rest[k] < n - 1 by {
                if k < p {
                    assert(rest[k] == s[k]);
                } else {
                    assert(rest[k] == s[k + 1]);
                }
            }
            assert(rest.no_duplicates()) by {
                assert forall|i: int, j: int|
                    0 <= i < rest.len() && 0 <= j < rest.len() && i != j implies rest[i]
                    != rest[j] by {
                    let si = if i < p { i } else { i + 1 };
                    let sj = if j < p { j } else { j + 1 };
                    assert(rest[i] == s[si] && rest[j] == s[sj]);
                }
            }
            lemma_distinct_below(rest, (n - 1) as nat);
        } else {
            assert forall|k: int| 0 <= k < s.len() implies #[trigger] s[k] < n - 1 by {
                assert(s[k] < n);
                if s[k] == top {
                    assert(s.contains(top));
                }
            }
            lemma_distinct_below(s, (n - 1) as nat);
        }
    }
}

/// Two tests that agree on every item of `s` keep the same items.
pub proof fn lemma_filter_agree<A>(s: Seq<A>, p: spec_fn(A) -> bool, q: spec_fn(A) -> bool)
    requires
        forall|k: int| 0 <= k < s.len() ==> p(#[trigger] s[k]) == q(s[k]),
    ensures
        s.filter(p) == s.filter(q),
    decreases s.len(),
{
    reveal(Seq::filter);
    if s.len() > 0 {
        assert forall|k: int| 0 <= k < s.drop_last().len() implies p(#[trigger] s.drop_last()[k])
            == q(s.drop_last()[k]) by {
            assert(s.drop_last()[k] == s[k]);
        }
        lemma_filter_agree(s.drop_last(), p, q);
        assert(p(s.last()) == q(s[s.len() - 1]));
    }
}

/// A cell that is nobody's home has no indices.
pub proof fn lemma_indices_in_absent(homes: Seq<Seq<int>>, cell: Seq<int>)
    requires
        homes.len() <= usize::MAX,
        !homes.contains(cell),
    ensures
        indices_in(homes, cell) == Seq::<usize>::empty(),
{
    let count = counting(homes.len());
    let test = at_home(homes, cell);
    let kept = count.filter(test);
    if kept.len() > 0 {
        count.lemma_filter_pred(test, 0);
        assert(kept.contains(kept[0]));
        count.lemma_filter_contains_rev(test, kept[0]);
        let k = choose|k: int| 0 <= k < count.len() && count[k] == kept[0];
        assert(homes[k] == cell);
    }
    assert(kept =~= Seq::<usize>::empty());
}

/// Tracking one more point, in `cell`, appends its index to the bucket of
/// `cell` and leaves the other buckets as they are.
pub proof fn lemma_buckets_of_push(homes: Seq<Seq<int>>, cell: Seq<int>)
    requires
        homes.len() < usize::MAX,
    ensures
        buckets_of(homes.push(cell)) == buckets_of(homes).insert(
            cell,
            indices_in(homes, cell).push(homes.len() as usize),
        ),
{
    let more = homes.push(cell);
    let n = homes.len();
    let grown = buckets_of(homes).insert(cell, indices_in(homes, cell).push(n as usize));
    assert forall|c: Seq<int>| more.contains(c) <==> homes.contains(c) || c == cell by {
        if homes.contains(c) {
            let k = choose|k: int| 0 <= k < homes.len() && homes[k] == c;
            assert(more[k] == c);
        }
        if c == cell {
            assert(more[n as int] == c);
        }
    }
    assert forall|c: Seq<int>| indices_in(more, c) == if c == cell {
        indices_in(homes, c).push(n as usize)
    } else {
        indices_in(homes, c)
    } by {
        let count = counting(n);
        let count_more = counting(more.len());
        let old_test = at_home(homes, c);
        let new_test = at_home(more, c);
        assert(count_more =~= count.push(n as usize));
        count.lemma_filter_push(n as usize, new_test);
        assert forall|k: int| 0 <= k < count.len() implies old_test(#[trigger] count[k])
            == new_test(count[k]) by {
            assert(more[k] == homes[k]);
        }
        lemma_filter_agree(count, old_test, new_test);
        assert(new_test(n as usize) == (c == cell));
    }
    assert(buckets_of(more) =~= grown);
}

/// How full a grid is.
#[derive(Debug, Clone, Copy, PartialEq, Eq)]
pub struct Occupancy {
    /// The number of points that are tracked.
    pub points: usize,
    /// The number of cells that have a bucket, be it empty.
    pub cells: usize,
    /// The number of points in the fullest bucket; zero where there is none.
    pub largest: usize,
}

/// A grid of cubical cells, each with the bucket of the point indices that
/// lie in it.
///
/// The grid does not know where the points are. It is told the cell of each
/// point when it is built, and again whenever a point moves. Its view is the
/// map from a cell to the bucket of that cell.
pub struct CellGrid<const D: usize> {
    cells: CellMap<D>,
    neighbors: Vec<VecN<D, i32>>,
    count: usize,
    buckets: Ghost<Map<Seq<int>, Seq<usize>>>,
    homes: Ghost<Seq<Seq<int>>>,
}

impl<const D: usize> View for CellGrid<D> {
    type V = Map<Seq<int>, Seq<usize>>;

    closed spec fn view(&self) -> Self::V {
        self.buckets@
    }
}

impl<const D: usize> CellGrid<D> {
    /// For each tracked index, the cell that the grid was last told it is in.
    pub closed spec fn homes(&self) -> Seq<Seq<int>> {
        self.homes@
    }

    /// The indices in the bucket of `cell`, oldest first; none where the grid
    /// has no such bucket.
    pub open spec fn bucket(&self, cell: Seq<int>) -> Seq<usize> {
        if self@.contains_key(cell) {
            self@[cell]
        } else {
            Seq::empty()
        }
    }

    /// The buckets split the tracked indices by cell: an index is in the bucket
    /// of a cell exactly if it is tracked and that cell is its home, and no
    /// bucket holds an index twice.
    pub open spec fn partitioned(&self) -> bool {
        &&& forall|cell: Seq<int>| (#[trigger] self.bucket(cell)).no_duplicates()
        &&& forall|cell: Seq<int>, j: usize| #[trigger]
            self.bucket(cell).contains(j) <==> j < self.homes().len() && self.homes()[j as int]
                == cell
    }

    /// The map of cells holds what the view says, under keys that name the
    /// view's cells.
    closed spec fn stored(&self) -> bool {
        &&& forall|key: [i32; D]| #[trigger]
            self.cells@.contains_key(key) <==> self@.contains_key(cell_of(key))
        &&& forall|key: [i32; D]| #[trigger]
            self.cells@.contains_key(key) ==> bucket_items(self.cells@[key]) == self@[cell_of(
                key,
            )]
        &&& forall|cell: Seq<int>| #[trigger]
            self@.contains_key(cell) ==> exists|key: [i32; D]| #[trigger] cell_of(key) == cell
    }

    /// The table of neighbor offsets is complete and in counting order.
    closed spec fn offsets_listed(&self) -> bool {
        &&& self.neighbors@.len() == pow(3, D as nat)
        &&& forall|n: int|
            0 <= n < self.neighbors@.len() ==> (#[trigger] self.neighbors@[n]).coords()
                == neighbor_offset(n as nat, D as nat)
    }

    /// What holds of every grid between calls.
    pub closed spec fn wf(&self) -> bool {
        &&& self.stored()
        &&& self.offsets_listed()
        &&& self.partitioned()
        &&& self.homes().len() <= MAX_POINTS
        &&& self.count == self.homes().len()
    }

    /// A well-formed grid is partitioned, and tracks no more than `MAX_POINTS`
    /// points, each in a cell that a key can name.
    pub proof fn lemma_wf(&self)
        requires
            self.wf(),
        ensures
            self.partitioned(),
            self.homes().len() <= MAX_POINTS,
            forall|i: int| 0 <= i < self.homes().len() ==> is_cell(#[trigger] self.homes()[i], D as nat),
            forall|cell: Seq<int>| #[trigger] self@.contains_key(cell) ==> is_cell(cell, D as nat),
    {
        assert forall|i: int| 0 <= i < self.homes().len() implies is_cell(
            #[trigger] self.homes()[i],
            D as nat,
        ) by {
            let cell = self.homes()[i];
            assert(self.bucket(cell).contains(i as usize));
            assert(self@.contains_key(cell));
        }
        assert forall|cell: Seq<int>| #[trigger] self@.contains_key(cell) implies is_cell(
            cell,
            D as nat,
        ) by {
            let key = choose|key: [i32; D]| #[trigger] cell_of(key) == cell;
            assert(is_cell(cell_of(key), D as nat));
        }
    }

    /// Appends the index `idx`, the next one not yet tracked, to the bucket of
    /// the cell that `key` names.
    fn track(&mut self, key: [i32; D], idx: usize)
        requires
            old(self).wf(),
            idx == old(self).homes().len(),
            idx < MAX_POINTS,
        ensures
            final(self).wf(),
            final(self).homes() == old(self).homes().push(cell_of(key)),
            final(self)@ == old(self)@.insert(
                cell_of(key),
                old(self).bucket(cell_of(key)).push(idx),
            ),
    {
        let ghost cell = cell_of(key);
        let ghost before = old(self).bucket(cell);
        proof {
            assert forall|k: int| 0 <= k < before.len() implies #[trigger] before[k] < idx by {
                assert(old(self).bucket(cell).contains(before[k]));
            }
            lemma_distinct_below(before, idx as nat);
        }
        match cells_get_mut(&mut self.cells, &key) {
            Some(b) => {
                bucket_push(b, idx);
            },
            None => {
                let mut b = bucket_new();
                bucket_push(&mut b, idx);
                cells_insert(&mut self.cells, key, b);
            },
        }
        self.count = idx + 1;
        proof {
            self.buckets@ = old(self)@.insert(cell, before.push(idx));
            self.homes@ = old(self).homes().push(cell);
            assert(self.cells@ == old(self).cells@.insert(key, self.cells@[key]));
            assert(bucket_items(self.cells@[key]) == before.push(idx));
            assert forall|other: [i32; D]| #[trigger]
                self.cells@.contains_key(other) <==> self@.contains_key(cell_of(other)) by {
                if cell_of(other) == cell {
                    lemma_cell_of_injective(other, key);
                }
            }
            assert forall|other: [i32; D]| #[trigger]
                self.cells@.contains_key(other) implies bucket_items(self.cells@[other])
                == self@[cell_of(other)] by {
                if cell_of(other) == cell {
                    lemma_cell_of_injective(other, key);
                }
            }
            assert(cell_of(key) == cell);
            assert forall|c: Seq<int>| #[trigger] self@.contains_key(c) implies exists|
                other: [i32; D],
            | #[trigger] cell_of(other) == c by {
                if c != cell {
                    assert(old(self)@.contains_key(c));
                }
            }
            assert(self.stored());
            assert forall|c: Seq<int>| (#[trigger] self.bucket(c)).no_duplicates() by {
                assert(old(self).bucket(c).no_duplicates());
                if c == cell {
                    assert(!before.contains(idx));
                    assert(self.bucket(c) == before.push(idx));
                    assert forall|i: int, j: int|
                        0 <= i < before.len() + 1 && 0 <= j < before.len() + 1 && i
                            != j implies before.push(idx)[i] != before.push(idx)[j] by {
                        if i < before.len() {
                            assert(before.contains(before[i]));
                        }
                        if j < before.len() {
                            assert(before.contains(before[j]));
                        }
                    }
                } else {
                    assert(self.bucket(c) == old(self).bucket(c));
                }
            }
            assert forall|c: Seq<int>, j: usize| #[trigger]
                self.bucket(c).contains(j) <==> j < self.homes().len() && self.homes()[j as int]
                    == c by {
                assert(old(self).bucket(c).contains(j) <==> j < idx && old(self).homes()[j as int]
                    == c);
                if c == cell {
                    assert(self.bucket(c) == before.push(idx));
                    if before.contains(j) {
                        let k = choose|k: int| 0 <= k < before.len() && before[k] == j;
                        assert(before.push(idx)[k] == j);
                    }
                    if j == idx {
                        assert(before.push(idx)[before.len() as int] == j);
                    }
                } else {
                    assert(self.bucket(c) == old(self).bucket(c));
                }
            }
        }
    }

    /// A grid that tracks the indices `0..cells.len()`, index `i` lying in the
    /// cell `cells[i]`.
    pub fn new(cells: &[VecN<D, i32>]) -> (grid: Self)
        requires
            cells@.len() <= MAX_POINTS,
            pow(3, D as nat) <= usize::MAX,
        ensures
            grid.wf(),
            grid.partitioned(),
            grid.homes() == coords_of(cells@),
            grid@ == buckets_of(grid.homes()),
    {
        let mut grid = CellGrid {
            cells: HashMap::default(),
            neighbors: neighborhood(),
            buckets: Ghost(Map::empty()),
            count: 0,
            homes: Ghost(Seq::empty()),
        };
        assert(grid.wf()) by {
            assert forall|cell: Seq<int>, j: usize| !(#[trigger] grid.bucket(cell).contains(j)) by {}
        }
        assert(grid@ =~= buckets_of(grid.homes()));
        let ghost all = coords_of(cells@);
        let mut i: usize = 0;
        while i < cells.len()
            invariant
                i <= cells@.len() <= MAX_POINTS,
                all == coords_of(cells@),
                grid.wf(),
                grid.homes() == all.take(i as int),
                grid@ == buckets_of(grid.homes()),
            decreases cells@.len() - i,
        {
            let ghost so_far = grid.homes();
            grid.track(cells[i].0, i);
            proof {
                assert(cell_of(cells@[i as int].0) == all[i as int]);
                assert(all.take(i + 1) =~= so_far.push(all[i as int]));
                lemma_buckets_of_push(so_far, all[i as int]);
                if !so_far.contains(all[i as int]) {
                    lemma_indices_in_absent(so_far, all[i as int]);
                }
            }
            i += 1;
        }
        assert(all.take(i as int) =~= all);
        grid
    }

    /// Moves the index `idx` from the bucket of the cell `prev` to the end of
    /// the bucket of the cell `current`. Where `idx` is not in the bucket of
    /// `prev`, nothing changes and the call is refused.
    pub fn relocate(&mut self, idx: usize, prev: &VecN<D, i32>, current: &VecN<D, i32>) -> (moving:
        Result<(), AccelError>)
        requires
            old(self).wf(),
        ensures
            final(self).wf(),
            final(self).partitioned(),
            moving is Ok <==> old(self).bucket(prev.coords()).contains(idx),
            moving is Ok ==> final(self)@ == moved(
                old(self)@,
                idx,
                prev.coords(),
                current.coords(),
            ) && final(self).homes() == old(self).homes().update(idx as int, current.coords()),
            moving is Err ==> moving == Err::<(), AccelError>(AccelError::NotInCell) && final(self)@ == old(self)@ && final(self).homes() == old(self).homes(),
    {
        let ghost from = prev.coords();
        let ghost to = current.coords();
        let ghost source = old(self).bucket(from);
        proof {
            assert(cell_of(prev.0) == from);
            assert(cell_of(current.0) == to);
        }
        let at = match cells_get(&self.cells, &prev.0) {
            Some(b) => position_of(bucket_as_slice(b), idx),
            None => None,
        };
        let at = match at {
            Some(at) => at,
            None => {
                return Err(AccelError::NotInCell);
            },
        };
        proof {
            lemma_remove_distinct(source, at as int);
            assert(source.contains(idx));
        }
        match cells_get_mut(&mut self.cells, &prev.0) {
            Some(b) => {
                bucket_remove(b, at);
            },
            None => {},
        }
        let ghost lifted = old(self)@.insert(from, without(source, idx));
        let ghost target = if lifted.contains_key(to) {
            lifted[to]
        } else {
            Seq::empty()
        };
        proof {
            assert(self.cells@.dom() =~= old(self).cells@.dom());
            assert(bucket_items(self.cells@[prev.0]) == without(source, idx));
            assert forall|j: usize| #[trigger] target.contains(j) implies j < old(self).homes().len()
                && j != idx by {
                if to == from {
                    assert(source.contains(j));
                } else {
                    assert(old(self).bucket(to).contains(j));
                }
            }
            assert(target.no_duplicates()) by {
                if to != from {
                    assert(old(self).bucket(to).no_duplicates());
                }
            }
            lemma_push_distinct(target, idx);
            assert forall|k: int| 0 <= k < target.push(idx).len() implies #[trigger] target.push(
                idx,
            )[k] < old(self).homes().len() by {
                if k < target.len() {
                    assert(target.contains(target[k]));
                }
            }
            lemma_distinct_below(target.push(idx), old(self).homes().len());
            if self.cells@.contains_key(current.0) {
                if to == from {
                    lemma_cell_of_injective(current.0, prev.0);
                } else {
                    assert(self.cells@[current.0] == old(self).cells@[current.0]);
                }
                assert(bucket_items(self.cells@[current.0]) == target);
            }
        }
        let ghost midway = self.cells@;
        match cells_get_mut(&mut self.cells, &current.0) {
            Some(b) => {
                bucket_push(b, idx);
            },
            None => {
                let mut b = bucket_new();
                bucket_push(&mut b, idx);
                cells_insert(&mut self.cells, current.0, b);
            },
        }
        proof {
            self.buckets@ = moved(old(self)@, idx, from, to);
            self.homes@ = old(self).homes().update(idx as int, to);
            assert(self.cells@ == midway.insert(current.0, self.cells@[current.0]));
            assert(bucket_items(self.cells@[current.0]) == target.push(idx));
            assert(self@ == lifted.insert(to, target.push(idx)));
            assert forall|other: [i32; D]| #[trigger]
                self.cells@.contains_key(other) <==> self@.contains_key(cell_of(other)) by {
                assert(old(self).cells@.contains_key(other) <==> old(self)@.contains_key(
                    cell_of(other),
                ));
                if cell_of(other) == to {
                    lemma_cell_of_injective(other, current.0);
                }
                if cell_of(other) == from {
                    lemma_cell_of_injective(other, prev.0);
                }
            }
            assert forall|other: [i32; D]| #[trigger]
                self.cells@.contains_key(other) implies bucket_items(self.cells@[other])
                == self@[cell_of(other)] by {
                if cell_of(other) == to {
                    lemma_cell_of_injective(other, current.0);
                } else if cell_of(other) == from {
                    lemma_cell_of_injective(other, prev.0);
                } else {
                    assert(old(self).cells@.contains_key(other));
                    assert(self.cells@[other] == old(self).cells@[other]);
                }
            }
            assert(cell_of(current.0) == to);
            assert forall|c: Seq<int>| #[trigger] self@.contains_key(c) implies exists|
                other: [i32; D],
            | #[trigger] cell_of(other) == c by {
                if c != to {
                    assert(old(self)@.contains_key(c));
                }
            }
            assert(self.stored());
            assert forall|c: Seq<int>| (#[trigger] self.bucket(c)).no_duplicates() by {
                assert(old(self).bucket(c).no_duplicates());
            }
            assert forall|c: Seq<int>, j: usize| #[trigger]
                self.bucket(c).contains(j) <==> j < self.homes().len() && self.homes()[j as int]
                    == c by {
                assert(old(self).bucket(c).contains(j) <==> j < old(self).homes().len() && old(self).homes()[j as int] == c);
                assert(old(self).bucket(from).contains(j) <==> j < old(self).homes().len() && old(self).homes()[j as int] == from);
                if c == to {
                    assert(self.bucket(c) == target.push(idx));
                } else if c == from {
                    assert(self.bucket(c) == without(source, idx));
                } else {
                    assert(self.bucket(c) == old(self).bucket(c));
                }
            }
        }
        Ok(())
    }

    /// Counts the tracked points and the buckets, and measures the fullest
    /// bucket.
    pub fn occupancy(&self) -> (seen: Occupancy)
        requires
            self.wf(),
        ensures
            seen.points == self.homes().len(),
            self@.dom().finite(),
            seen.cells == self@.dom().len(),
            forall|cell: Seq<int>| (#[trigger] self.bucket(cell)).len() <= seen.largest,
            seen.cells == 0 ==> seen.largest == 0,
            seen.cells > 0 ==> exists|cell: Seq<int>|
                self@.contains_key(cell) && (#[trigger] self.bucket(cell)).len() == seen.largest,
    {
        let keys = cells_keys(&self.cells);
        let ghost named = Seq::new(keys@.len(), |i: int| cell_of(keys@[i]));
        proof {
            assert forall|i: int, j: int|
                0 <= i < named.len() && 0 <= j < named.len() && i != j implies named[i]
                != named[j] by {
                if named[i] == named[j] {
                    lemma_cell_of_injective(keys@[i], keys@[j]);
                }
            }
            assert forall|cell: Seq<int>| named.contains(cell) <==> self@.contains_key(cell) by {
                if named.contains(cell) {
                    let i = choose|i: int| 0 <= i < named.len() && named[i] == cell;
                    assert(keys@.contains(keys@[i]));
                }
                if self@.contains_key(cell) {
                    let key = choose|key: [i32; D]| #[trigger] cell_of(key) == cell;
                    assert(self.cells@.contains_key(key));
                    assert(keys@.contains(key));
                    let i = choose|i: int| 0 <= i < keys@.len() && keys@[i] == key;
                    assert(named[i] == cell);
                }
            }
            assert(named.to_set() =~= self@.dom());
            named.unique_seq_to_set();
        }
        let mut largest: usize = 0;
        let mut i: usize = 0;
        while i < keys.len()
            invariant
                self.wf(),
                i <= keys@.len(),
                named.len() == keys@.len(),
                forall|k: int| 0 <= k < named.len() ==> #[trigger] named[k] == cell_of(keys@[k]),
                forall|key: [i32; D]| keys@.contains(key) <==> self.cells@.contains_key(key),
                forall|k: int| 0 <= k < i ==> (#[trigger] self.bucket(named[k])).len() <= largest,
                i == 0 ==> largest == 0,
                i > 0 ==> exists|k: int|
                    0 <= k < i && (#[trigger] self.bucket(named[k])).len() == largest,
            decreases keys@.len() - i,
        {
            proof {
                assert(keys@.contains(keys@[i as int]));
            }
            match cells_get(&self.cells, &keys[i]) {
                Some(b) => {
                    let size = bucket_as_slice(b).len();
                    assert(size == self.bucket(named[i as int]).len());
                    if size > largest {
                        largest = size;
                    }
                },
                None => {},
            }
            i += 1;
        }
        proof {
            assert forall|cell: Seq<int>| (#[trigger] self.bucket(cell)).len() <= largest by {
                if self@.contains_key(cell) {
                    let k = choose|k: int| 0 <= k < named.len() && named[k] == cell;
                    assert(self.bucket(named[k]).len() <= largest);
                }
            }
            if keys@.len() > 0 {
                let k = choose|k: int|
                    0 <= k < i && (#[trigger] self.bucket(named[k])).len() == largest;
                assert(named.contains(named[k]));
            }
        }
        Occupancy { points: self.count, cells: keys.len(), largest }
    }

    /// The buckets of the first `count` cells around `origin`, one after the
    /// other in the order of the offset table.
    pub open spec fn candidates_upto(&self, origin: Seq<int>, count: nat) -> Seq<usize>
        decreases count,
    {
        if count == 0 {
            Seq::empty()
        } else {
            self.candidates_upto(origin, (count - 1) as nat) + self.bucket(
                shifted(origin, neighbor_offset((count - 1) as nat, D as nat)),
            )
        }
    }

    /// An index is among the first `count` buckets around `origin` exactly if
    /// one of these buckets holds it.
    pub proof fn lemma_candidates_upto(&self, origin: Seq<int>, count: nat, j: usize)
        ensures
            self.candidates_upto(origin, count).contains(j) <==> exists|n: nat|
                n < count && #[trigger] self.bucket(
                    shifted(origin, neighbor_offset(n, D as nat)),
                ).contains(j),
        decreases count,
    {
        if count == 0 {
            assert(!Seq::<usize>::empty().contains(j));
        } else {
            let head = self.candidates_upto(origin, (count - 1) as nat);
            let last = self.bucket(shifted(origin, neighbor_offset((count - 1) as nat, D as nat)));
            self.lemma_candidates_upto(origin, (count - 1) as nat, j);
            if (head + last).contains(j) {
                let k = choose|k: int| 0 <= k < (head + last).len() && (head + last)[k] == j;
                if k < head.len() {
                    assert(head[k] == j);
                    assert(head.contains(j));
                } else {
                    assert(last[k - head.len()] == j);
                    assert(last.contains(j));
                }
            }
            if head.contains(j) {
                let k = choose|k: int| 0 <= k < head.len() && head[k] == j;
                assert((head + last)[k] == j);
            }
            if last.contains(j) {
                let k = choose|k: int| 0 <= k < last.len() && last[k] == j;
                assert((head + last)[head.len() + k] == j);
            }
        }
    }

    /// The buckets around a cell hold no index twice.
    pub proof fn lemma_candidates_distinct(&self, origin: Seq<int>, count: nat)
        requires
            self.wf(),
            count <= pow(3, D as nat),
        ensures
            self.candidates_upto(origin, count).no_duplicates(),
        decreases count,
    {
        if count > 0 {
            let last_at = (count - 1) as nat;
            let head = self.candidates_upto(origin, last_at);
            let last_cell = shifted(origin, neighbor_offset(last_at, D as nat));
            let last = self.bucket(last_cell);
            self.lemma_candidates_distinct(origin, last_at);
            assert(last.no_duplicates());
            assert forall|i: int, j: int| 0 <= i < head.len() && 0 <= j < last.len() implies head[i]
                != last[j] by {
                if head[i] == last[j] {
                    let x = head[i];
                    assert(head.contains(x));
                    assert(last.contains(x));
                    self.lemma_candidates_upto(origin, last_at, x);
                    let n = choose|n: nat|
                        n < last_at && #[trigger] self.bucket(
                            shifted(origin, neighbor_offset(n, D as nat)),
                        ).contains(x);
                    let cell = shifted(origin, neighbor_offset(n, D as nat));
                    assert(self.bucket(cell).contains(x));
                    assert(cell == last_cell);
                    assert forall|a: int| 0 <= a < D implies #[trigger] neighbor_offset(
                        n,
                        D as nat,
                    )[a] == neighbor_offset(last_at, D as nat)[a] by {
                        assert(is_cell(cell, D as nat)) by {
                            self.lemma_wf();
                        }
                        assert(cell[a] == origin[a] + neighbor_offset(n, D as nat)[a]);
                        assert(last_cell[a] == origin[a] + neighbor_offset(last_at, D as nat)[a]);
                    }
                    assert(neighbor_offset(n, D as nat) =~= neighbor_offset(last_at, D as nat));
                    lemma_offsets_distinct(n, last_at, D as nat);
                }
            }
            vstd::seq_lib::lemma_no_dup_in_concat(head, last);
        }
    }

    /// Every index in the cell `origin` and in the cells that touch it.
    pub open spec fn candidates(&self, origin: Seq<int>) -> Seq<usize> {
        self.candidates_upto(origin, pow(3, D as nat) as nat)
    }

    /// The indices other than `skip` in the cell `origin` and in all the cells
    /// that touch it: cell after cell in the order of the offset table, and in
    /// each cell oldest first.
    pub fn neighbors_of(&self, origin: &VecN<D, i32>, skip: usize) -> (out: Vec<usize>)
        requires
            self.wf(),
        ensures
            out@ == self.candidates(origin.coords()).filter(other_than(skip)),
    {
        let mut out: Vec<usize> = Vec::new();
        let mut n: usize = 0;
        let ghost center = origin.coords();
        proof {
            reveal(Seq::filter);
            assert(self.candidates_upto(center, 0).filter(other_than(skip)) =~= Seq::<
                usize,
            >::empty());
        }
        while n < self.neighbors.len()
            invariant
                self.wf(),
                center == origin.coords(),
                n <= self.neighbors@.len(),
                out@ == self.candidates_upto(center, n as nat).filter(other_than(skip)),
            decreases self.neighbors@.len() - n,
        {
            let ghost cell = shifted(center, neighbor_offset(n as nat, D as nat));
            let ghost head = self.candidates_upto(center, n as nat);
            proof {
                assert(self.neighbors@[n as int].coords() == neighbor_offset(n as nat, D as nat));
                Seq::filter_distributes_over_add(head, self.bucket(cell), other_than(skip));
            }
            match shift_key(&origin.0, &self.neighbors[n].0) {
                Some(key) => {
                    match cells_get(&self.cells, &key) {
                        Some(b) => {
                            let items = bucket_as_slice(b);
                            assert(items@ == self.bucket(cell));
                            let mut k: usize = 0;
                            proof {
                                reveal(Seq::filter);
                                assert(items@.take(0).filter(other_than(skip)) =~= Seq::<
                                    usize,
                                >::empty());
                            }
                            while k < items.len()
                                invariant
                                    k <= items@.len(),
                                    out@ == head.filter(other_than(skip)) + items@.take(
                                        k as int,
                                    ).filter(other_than(skip)),
                                decreases items@.len() - k,
                            {
                                let j = items[k];
                                proof {
                                    assert(items@.take(k + 1) =~= items@.take(k as int).push(j));
                                    items@.take(k as int).lemma_filter_push(j, other_than(skip));
                                }
                                if j != skip {
                                    out.push(j);
                                }
                                k += 1;
                            }
                            assert(items@.take(k as int) =~= items@);
                        },
                        None => {
                            assert(self.bucket(cell) =~= Seq::<usize>::empty());
                            proof {
                                reveal(Seq::filter);
                            }
                        },
                    }
                },
                None => {
                    assert(self.bucket(cell) =~= Seq::<usize>::empty());
                    proof {
                        reveal(Seq::filter);
                    }
                },
            }
            n += 1;
        }
        out
    }
}

/// The first position at which `items` holds `idx`, if it holds it at all.
fn position_of(items: &[usize], idx: usize) -> (at: Option<usize>)
    ensures
        match at {
            Some(p) => p < items@.len() && items@[p as int] == idx && forall|k: int|
                0 <= k < p ==> items@[k] != idx,
            None => !items@.contains(idx),
        },
{
    let mut k: usize = 0;
    while k < items.len()
        invariant
            k <= items@.len(),
            forall|j: int| 0 <= j < k ==> items@[j] != idx,
        decreases items@.len() - k,
    {
        if items[k] == idx {
            return Some(k);
        }
        k += 1;
    }
    None
}

/// The key of the cell that lies `offset` away from the cell of `origin`, if
/// that cell has one.
fn shift_key<const D: usize>(origin: &[i32; D], offset: &[i32; D]) -> (shifted_key: Option<
    [i32; D],
>)
    ensures
        match shifted_key {
            Some(key) => cell_of(key) == shifted(cell_of(*origin), cell_of(*offset)),
            None => !is_cell(shifted(cell_of(*origin), cell_of(*offset)), D as nat),
        },
{
    let mut key: [i32; D] = *origin;
    let mut i: usize = 0;
    while i < D
        invariant
            i <= D,
            forall|j: int| 0 <= j < i ==> #[trigger] key[j] == origin[j] + offset[j],
            forall|j: int| i <= j < D ==> #[trigger] key[j] == origin[j],
        decreases D - i,
    {
        match origin[i].checked_add(offset[i]) {
            Some(sum) => {
                key[i] = sum;
            },
            None => {
                assert(shifted(cell_of(*origin), cell_of(*offset))[i as int] == origin[i as int]
                    + offset[i as int]);
                return None;
            },
        }
        i += 1;
    }
    assert(cell_of(key) =~= shifted(cell_of(*origin), cell_of(*offset)));
    Some(key)
}

} // verus!
