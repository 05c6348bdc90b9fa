//! Cells and distances of points with integer coordinates.
use crate::vecn::VecN;
use vstd::arithmetic::div_mod::{
    lemma_div_is_ordered, lemma_div_plus_one, lemma_fundamental_div_mod,
    lemma_fundamental_div_mod_converse, lemma_mod_pos_bound,
};
use vstd::prelude::*;

verus! {

/// The cell of the position `p` in a grid of cells with side `radius`: each
/// coordinate divided by the side, rounded down.
pub open spec fn cell_at(p: Seq<int>, radius: int) -> Seq<int> {
    Seq::new(p.len(), |i: int| p[i] / radius)
}

/// The squared distance between `a` and `b` along their first `dims` axes.
pub open spec fn dist_sq_upto(a: Seq<int>, b: Seq<int>, dims: nat) -> int
    decreases dims,
{
    if dims == 0 {
        0
    } else {
        dist_sq_upto(a, b, (dims - 1) as nat) + (a[dims - 1] - b[dims - 1]) * (a[dims - 1] - b[dims
            - 1])
    }
}

/// The squared Euclidean distance between `a` and `b`.
pub open spec fn dist_sq(a: Seq<int>, b: Seq<int>) -> int {
    dist_sq_upto(a, b, a.len())
}

/// The cell of each of the `positions`.
pub open spec fn cells_at(positions: Seq<Seq<int>>, radius: int) -> Seq<Seq<int>> {
    Seq::new(positions.len(), |i: int| cell_at(positions[i], radius))
}

/// The test that the point with a given index is no further than `radius`
/// from `q`.
pub open spec fn near(positions: Seq<Seq<int>>, q: Seq<int>, radius: int) -> spec_fn(usize) -> bool {
    |j: usize| dist_sq(positions[j as int], q) <= radius * radius
}

/// `x` divided by `side`, rounded down.
pub fn floor_div(x: i32, side: i32) -> (q: i32)
    requires
        side > 0,
    ensures
        q == x as int / side as int,
{
    let q = x / side;
    let r = x % side;
    proof {
        let d = side as int;
        if x < 0 {
            let m = -(x as int);
            lemma_fundamental_div_mod(m, d);
            lemma_mod_pos_bound(m, d);
            assert(q == -(m / d));
            assert(r == -(m % d));
            if m % d == 0 {
                assert(x as int == (-(m / d)) * d + 0) by (nonlinear_arith)
                    requires
                        m == d * (m / d) + m % d,
                        m % d == 0,
                        m == -(x as int),
                ;
                lemma_fundamental_div_mod_converse(x as int, d, -(m / d), 0);
            } else {
                assert(x as int == (-(m / d) - 1) * d + (d - m % d)) by (nonlinear_arith)
                    requires
                        m == d * (m / d) + m % d,
                        m == -(x as int),
                ;
                lemma_fundamental_div_mod_converse(x as int, d, -(m / d) - 1, d - m % d);
                assert(m / d >= 0) by (nonlinear_arith)
                    requires
                        m == d * (m / d) + m % d,
                        0 <= m % d < d,
                        m > 0,
                        d > 0,
                ;
                assert(m / d <= m) by (nonlinear_arith)
                    requires
                        m == d * (m / d) + m % d,
                        0 <= m % d < d,
                        m / d >= 0,
                        d > 0,
                ;
                assert(m / d < m) by (nonlinear_arith)
                    requires
                        m == d * (m / d) + m % d,
                        0 < m % d < d,
                        m / d >= 0,
                        d > 0,
                ;
            }
        }
    }
    if r < 0 {
        q - 1
    } else {
        q
    }
}

/// The cell of the position `p` in a grid of cells with side `radius`.
pub fn quantize<const D: usize>(p: VecN<D, i32>, radius: i32) -> (cell: VecN<D, i32>)
    requires
        radius > 0,
    ensures
        cell.coords() == cell_at(p.coords(), radius as int),
{
    let mut cell = p;
    let mut i: usize = 0;
    while i < D
        invariant
            i <= D,
            radius > 0,
            forall|j: int| 0 <= j < i ==> #[trigger] cell.0[j] == p.0[j] as int / radius as int,
            forall|j: int| i <= j < D ==> #[trigger] cell.0[j] == p.0[j],
        decreases D - i,
    {
        cell.0[i] = floor_div(p.0[i], radius);
        i += 1;
    }
    assert(cell.coords() =~= cell_at(p.coords(), radius as int));
    cell
}

/// The squared distance grows with the number of axes counted.
pub proof fn lemma_dist_sq_grows(a: Seq<int>, b: Seq<int>, fewer: nat, more: nat)
    requires
        fewer <= more,
    ensures
        0 <= dist_sq_upto(a, b, fewer) <= dist_sq_upto(a, b, more),
    decreases more,
{
    if more > 0 {
        let d = a[more - 1] - b[more - 1];
        assert(d * d >= 0) by (nonlinear_arith);
        if fewer < more {
            lemma_dist_sq_grows(a, b, fewer, (more - 1) as nat);
        } else {
            lemma_dist_sq_grows(a, b, (fewer - 1) as nat, (more - 1) as nat);
        }
    }
}

/// Whether `a` and `b` are no further apart than the distance whose square
/// is `radius_sq`.
pub fn within<const D: usize>(a: &VecN<D, i32>, b: &VecN<D, i32>, radius_sq: u64) -> (near: bool)
    ensures
        near == (dist_sq(a.coords(), b.coords()) <= radius_sq),
{
    let mut sum: u64 = 0;
    let mut i: usize = 0;
    while i < D
        invariant
            i <= D,
            sum == dist_sq_upto(a.coords(), b.coords(), i as nat),
            sum <= radius_sq,
        decreases D - i,
    {
        let gap: i64 = a.0[i] as i64 - b.0[i] as i64;
        let span: u64 = if gap < 0 {
            (-gap) as u64
        } else {
            gap as u64
        };
        assert(span * span == gap * gap && span * span <= u64::MAX) by (nonlinear_arith)
            requires
                span == gap || span == -gap,
                0 <= span <= 0xffff_ffff,
        ;
        let square: u64 = span * span;
        assert(a.coords()[i as int] - b.coords()[i as int] == gap);
        if square > radius_sq - sum {
            proof {
                lemma_dist_sq_grows(a.coords(), b.coords(), (i + 1) as nat, D as nat);
            }
            return false;
        }
        sum = sum + square;
        i += 1;
    }
    true
}

/// One axis adds no more to the squared distance than the whole of it.
pub proof fn lemma_axis_gap(a: Seq<int>, b: Seq<int>, dims: nat, i: int)
    requires
        0 <= i < dims,
    ensures
        (a[i] - b[i]) * (a[i] - b[i]) <= dist_sq_upto(a, b, dims),
    decreases dims,
{
    lemma_dist_sq_grows(a, b, 0, (dims - 1) as nat);
    let last = a[dims - 1] - b[dims - 1];
    assert(last * last >= 0) by (nonlinear_arith);
    if i < dims - 1 {
        lemma_axis_gap(a, b, (dims - 1) as nat, i);
    }
}

/// Positions no further apart than `radius` lie in the same cell or in cells
/// that touch: on every axis their cells differ by one at most.
pub proof fn lemma_near_cells_touch(a: Seq<int>, b: Seq<int>, radius: int, i: int)
    requires
        radius > 0,
        a.len() == b.len(),
        0 <= i < a.len(),
        dist_sq(a, b) <= radius * radius,
    ensures
        -1 <= cell_at(a, radius)[i] - cell_at(b, radius)[i] <= 1,
{
    lemma_axis_gap(a, b, a.len(), i);
    let x = a[i];
    let y = b[i];
    assert(-radius <= x - y <= radius) by (nonlinear_arith)
        requires
            (x - y) * (x - y) <= radius * radius,
            radius > 0,
    ;
    lemma_div_is_ordered(x, y + radius, radius);
    lemma_div_plus_one(y, radius);
    lemma_div_is_ordered(y, x + radius, radius);
    lemma_div_plus_one(x, radius);
}

} // verus!
