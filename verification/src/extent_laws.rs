//! Where the cells of a part lie in its extent, and which rank owns their centers.

use crate::decomposition::every_rank_has_a_position;
use crate::decomposition::rank_at;
use crate::decomposition::span_count;
use crate::decomposition::span_is_inside;
use crate::decomposition::span_start;
use crate::grid::Grid;
use crate::grid::center_at;
use crate::grid::x_center;
use crate::grid_laws::is_cell;
use crate::index::flat;
use crate::index::flat_is_inside;
use crate::index::flat_splits;
use crate::mesh::Vec3;
use crate::partition::Bounds3;
use crate::partition::all_extents;
use crate::partition::domain_edges;
use crate::partition::every_point_has_one_owner;
use crate::partition::extent_at;
use crate::partition::holds;
use crate::partition::in_domain;
use crate::partition::owner_of;
use crate::partition::part_hi;
use crate::partition::part_lo;
use crate::partition::rank_is_flat;
use crate::partition::spans_domain;
use crate::partition::splits;
use crate::scalar::Scalar;
use crate::scalar::counts_up;
use crate::scalar::is_ordered;
use crate::scalar::is_ring;
use crate::scalar::plus_associates;
use crate::scalar::plus_commutes;
use crate::scalar::times_distributes;
use crate::scalar::times_one;
use crate::uniform::Domain;
use crate::uniform::part_of;
use crate::uniform::position_of;
use vstd::prelude::*;

verus! {

/// Two halves make a whole, and halving distributes over sums.
#[verifier::opaque]
pub open spec fn halving_is_exact<S: Scalar>() -> bool {
    &&& forall|a: S| (#[trigger] a.halved_spec()).plus_spec(a.halved_spec()) == a
    &&& forall|a: S, b: S| (#[trigger] a.plus_spec(b)).halved_spec() == a.halved_spec().plus_spec(
        b.halved_spec(),
    )
}

/// The midpoint of two numbers in ascending order.
pub open spec fn midpoint<S: Scalar>(a: S, b: S) -> S {
    a.plus_spec(b).halved_spec()
}

/// The midpoint of two numbers in ascending order lies strictly between them.
pub open spec fn midpoints_lie_between<S: Scalar>() -> bool {
    forall|a: S, b: S|
        a.less_spec(b) ==> a.less_spec(#[trigger] midpoint(a, b)) && midpoint(a, b).less_spec(b)
}

/// The point lies strictly inside the bounds.
pub open spec fn is_strictly_inside<S: Scalar>(bounds: Bounds3<S>, point: Vec3<S>) -> bool {
    &&& bounds.lo[0].less_spec(point[0]) && point[0].less_spec(bounds.hi[0])
    &&& bounds.lo[1].less_spec(point[1]) && point[1].less_spec(bounds.hi[1])
    &&& bounds.lo[2].less_spec(point[2]) && point[2].less_spec(bounds.hi[2])
}

/// The length of the domain along x divides evenly: `i` widths of a cell are the
/// share `i` of `nx` of it, and `nx` widths are all of it.
pub open spec fn divides_evenly<S: Scalar>(d: Domain<S>) -> bool {
    let length: S = d.hi[0].minus_spec(d.lo[0]);
    let dx: S = length.over_spec(S::count_spec(d.nx as int));
    &&& forall|i: int|
        0 <= i < d.nx ==> (#[trigger] S::count_spec(i)).times_spec(dx) == S::count_spec(
            i,
        ).times_spec(length).over_spec(S::count_spec(d.nx as int))
    &&& S::count_spec(d.nx as int).times_spec(dx) == length
}

/// `pos` is a position of the process grid.
pub open spec fn is_within(decomp: Seq<int>, pos: Seq<int>) -> bool {
    &&& pos.len() == 3
    &&& 0 <= pos[0] < decomp[0]
    &&& 0 <= pos[1] < decomp[1]
    &&& 0 <= pos[2] < decomp[2]
}

/// Along x the edges that bound the parts are those of the cells of the mesh: edge
/// number `i` is `i` cell widths from the lower bound, in exact arithmetic.
pub proof fn x_edges_are_steps<S: Scalar>(d: Domain<S>, i: int)
    requires
        is_ring::<S>(),
        divides_evenly(d),
        0 <= i <= d.nx,
    ensures
        domain_edges(d, 0)[i] == d.lo[0].plus_spec(
            S::count_spec(i).times_spec(
                d.hi[0].minus_spec(d.lo[0]).over_spec(S::count_spec(d.nx as int)),
            ),
        ),
{
    if i == d.nx {
        reveal(is_ring);
        let (lo, hi): (S, S) = (d.lo[0], d.hi[0]);
        assert(hi.minus_spec(lo).plus_spec(lo) == hi);
        plus_commutes(hi.minus_spec(lo), lo);
    }
}

/// Along x, as along y and z, the center of a cell is the midpoint of the two edges
/// of the domain between which the cell lies, in exact arithmetic.
pub proof fn x_centers_are_midpoints<S: Scalar>(
    d: Domain<S>,
    decomp: Seq<int>,
    pos: Seq<int>,
    i: int,
)
    requires
        is_ring::<S>(),
        counts_up::<S>(),
        halving_is_exact::<S>(),
        divides_evenly(d),
        splits(d, decomp),
        is_within(decomp, pos),
        0 <= i < part_of(d, decomp, pos).ni,
    ensures
        ({
            let g: Grid<S> = part_of(d, decomp, pos);
            let e: Seq<S> = domain_edges(d, 0);
            x_center(g, i + g.ng) == midpoint(e[g.offset[0] + i], e[g.offset[0] + i + 1])
        }),
{
    let g: Grid<S> = part_of(d, decomp, pos);
    span_is_inside(d.nx as int, decomp[0], pos[0]);
    let n: int = g.offset[0] + i;
    x_edges_are_steps(d, n);
    x_edges_are_steps(d, n + 1);
    let (lo, dx): (S, S) = (d.lo[0], g.dx);
    let steps: S = S::count_spec(n).times_spec(dx);
    let a: S = lo.plus_spec(steps);
    assert(S::count_spec(n + 1) == S::count_spec(n).plus_spec(S::one_spec()));
    times_distributes(dx, S::count_spec(n), S::one_spec());
    times_one(dx);
    let b: S = lo.plus_spec(steps.plus_spec(dx));
    plus_associates(lo, steps, dx);
    assert(b == a.plus_spec(dx));
    // Half of `a + (a + dx)` is `a` and half of `dx`.
    plus_associates(a, a, dx);
    let twice: S = a.plus_spec(a);
    reveal(halving_is_exact);
    assert(twice.plus_spec(dx).halved_spec() == twice.halved_spec().plus_spec(dx.halved_spec()));
    assert(twice.halved_spec() == a.halved_spec().plus_spec(a.halved_spec()));
}

/// A midpoint of two edges next to each other lies within the part that holds the
/// cell between them.
proof fn midpoint_is_within<S: Scalar>(d: Domain<S>, decomp: Seq<int>, axis: int, p: int, i: int)
    requires
        is_ordered::<S>(),
        midpoints_lie_between::<S>(),
        splits(d, decomp),
        d.edges_match(),
        spans_domain(d, axis),
        0 <= axis < 3,
        0 <= p < decomp[axis],
        0 <= i < span_count(d.counts()[axis], decomp[axis], p),
    ensures
        ({
            let first: int = span_start(d.counts()[axis], decomp[axis], p);
            let e: Seq<S> = domain_edges(d, axis);
            let x: S = midpoint(e[first + i], e[first + i + 1]);
            &&& part_lo(d, decomp, axis, p).less_spec(x)
            &&& part_lo(d, decomp, axis, p).at_most_spec(x)
            &&& x.less_spec(part_hi(d, decomp, axis, p))
            &&& e[0].at_most_spec(x)
            &&& x.at_most_spec(d.hi[axis])
        }),
{
    let first: int = span_start(d.counts()[axis], decomp[axis], p);
    let n: int = span_count(d.counts()[axis], decomp[axis], p);
    let e: Seq<S> = domain_edges(d, axis);
    span_is_inside(d.counts()[axis], decomp[axis], p);
    assert(e.len() == d.counts()[axis] + 1);
    let (a, b): (S, S) = (e[first + i], e[first + i + 1]);
    let x: S = midpoint(a, b);
    assert(a.less_spec(b));
    not_above(e, 0, first + i);
    not_above(e, first, first + i);
    not_above(e, first + i + 1, first + n);
    not_above(e, first + i + 1, e.len() - 1);
    reveal(is_ordered);
    let hi: S = e[first + n];
    assert(x.less_spec(hi)) by {
        assert(!b.at_most_spec(x));
        if hi.at_most_spec(x) {
            assert(b.at_most_spec(hi) && hi.at_most_spec(x));
            assert(b.at_most_spec(x));
        }
    }
    assert(x.at_most_spec(d.hi[axis])) by {
        assert(x.at_most_spec(b) || b.at_most_spec(x));
        assert(b.at_most_spec(e.last()));
        assert(x.at_most_spec(e.last()));
        assert(e.last().equals_spec(d.hi[axis]));
        assert(e.last().at_most_spec(d.hi[axis]));
    }
    assert(a.at_most_spec(x)) by {
        assert(a.at_most_spec(x) || x.at_most_spec(a));
        assert(a.less_spec(x) == !x.at_most_spec(a));
    }
    assert(e[0].at_most_spec(a) && a.at_most_spec(x));
    assert(e[first].at_most_spec(a) && a.at_most_spec(x));
    assert(e[first].less_spec(x)) by {
        assert(!x.at_most_spec(a));
        if x.at_most_spec(e[first]) {
            assert(x.at_most_spec(e[first]) && e[first].at_most_spec(a));
            assert(x.at_most_spec(a));
        }
    }
}

/// Of two entries of an ascending list the earlier is not above the later.
proof fn not_above<S: Scalar>(e: Seq<S>, i: int, j: int)
    requires
        is_ordered::<S>(),
        forall|i: int, j: int|
            0 <= i < j < e.len() ==> (#[trigger] e[i]).less_spec(#[trigger] e[j]),
        0 <= i <= j < e.len(),
    ensures
        e[i].at_most_spec(e[j]),
{
    reveal(is_ordered);
    assert(e[i].at_most_spec(e[j]) || e[j].at_most_spec(e[i]));
    if i < j {
        assert(e[i].less_spec(e[j]));
    }
}

/// The centers of the cells that the mesh of a part owns lie strictly inside the
/// extent of that part in the directory, and its rank is the one that owns them.
pub proof fn cells_belong_to_their_rank<S: Scalar>(
    d: Domain<S>,
    decomp: Seq<int>,
    pos: Seq<int>,
    i: int,
    j: int,
    k: int,
)
    requires
        is_ring::<S>(),
        is_ordered::<S>(),
        counts_up::<S>(),
        halving_is_exact::<S>(),
        midpoints_lie_between::<S>(),
        divides_evenly(d),
        splits(d, decomp),
        is_within(decomp, pos),
        d.edges_match(),
        forall|axis: int| 0 <= axis < 3 ==> #[trigger] spans_domain(d, axis),
        forall|axis: int|
            0 <= axis < 3 ==> d.lo[axis].at_most_spec(#[trigger] domain_edges(d, axis)[0]),
        is_cell(part_of(d, decomp, pos), i, j, k),
    ensures
        ({
            let g: Grid<S> = part_of(d, decomp, pos);
            let c: Seq<S> = center_at(g, i + g.ng, j + g.ng, k + g.ng);
            let global: Bounds3<S> = Bounds3 { lo: d.lo, hi: d.hi };
            &&& is_strictly_inside(
                extent_at(d, decomp, pos[0], pos[1], pos[2]).bounds,
                [c[0], c[1], c[2]],
            )
            &&& holds(global, extent_at(d, decomp, pos[0], pos[1], pos[2]), [c[0], c[1], c[2]])
            &&& owner_of(global, all_extents(d, decomp), [c[0], c[1], c[2]]) == Some(
                rank_at(pos[0], pos[1], pos[2], decomp[1], decomp[2]) as i32,
            )
        }),
{
    let g: Grid<S> = part_of(d, decomp, pos);
    let c: Seq<S> = center_at(g, i + g.ng, j + g.ng, k + g.ng);
    let at: Vec3<S> = [c[0], c[1], c[2]];
    let global: Bounds3<S> = Bounds3 { lo: d.lo, hi: d.hi };
    assert(spans_domain(d, 0) && spans_domain(d, 1) && spans_domain(d, 2));
    x_centers_are_midpoints(d, decomp, pos, i);
    midpoint_is_within(d, decomp, 0, pos[0], i);
    midpoint_is_within(d, decomp, 1, pos[1], j);
    midpoint_is_within(d, decomp, 2, pos[2], k);
    let (ey, ez): (Seq<S>, Seq<S>) = (domain_edges(d, 1), domain_edges(d, 2));
    assert(c[1] == midpoint(ey[g.offset[1] + j], ey[g.offset[1] + j + 1]));
    assert(c[2] == midpoint(ez[g.offset[2] + k], ez[g.offset[2] + k + 1]));
    assert(in_domain(global, at)) by {
        reveal(is_ordered);
        let ex: Seq<S> = domain_edges(d, 0);
        assert(d.lo[0].at_most_spec(ex[0]) && ex[0].at_most_spec(c[0]));
        assert(d.lo[1].at_most_spec(ey[0]) && ey[0].at_most_spec(c[1]));
        assert(d.lo[2].at_most_spec(ez[0]) && ez[0].at_most_spec(c[2]));
    }
    let (px, py, pz): (int, int, int) = (pos[0], pos[1], pos[2]);
    let q: int = flat(px, py, pz, decomp[1], decomp[2]);
    flat_is_inside(px, py, pz, decomp[0], decomp[1], decomp[2]);
    flat_splits(px, py, pz, decomp[1], decomp[2]);
    rank_is_flat(px, py, pz, decomp[1], decomp[2]);
    assert(all_extents(d, decomp)[q] == extent_at(d, decomp, px, py, pz));
    assert(holds(global, all_extents(d, decomp)[q], at));
    let owner: int = every_point_has_one_owner(d, decomp, at);
    assert(owner == q);
}

/// Every rank has a position of the process grid, and it is the rank at that position.
pub proof fn ranks_stand_at_their_positions(rank: int, decomp: Seq<int>)
    requires
        decomp[0] > 0 && decomp[1] > 0 && decomp[2] > 0,
        0 <= rank < decomp[0] * (decomp[1] * decomp[2]),
    ensures
        ({
            let pos: Seq<int> = position_of(rank, decomp);
            &&& is_within(decomp, pos)
            &&& rank_at(pos[0], pos[1], pos[2], decomp[1], decomp[2]) == rank
        }),
{
    every_rank_has_a_position(rank, decomp[0], decomp[1], decomp[2]);
}

} // verus!
