//! Which points a mesh can locate, and what it says of those in the outer half of
//! its outermost cells.

use crate::extent_laws::halving_is_exact;
use crate::grid::Grid;
use crate::grid::bracket_at;
use crate::grid::cell_count;
use crate::grid::fraction_at;
use crate::grid::interval_of;
use crate::grid::is_inside;
use crate::grid::is_sound;
use crate::grid::lower_center;
use crate::grid::raw_of;
use crate::grid::total_count;
use crate::grid::x_center;
use crate::grid::x_fraction;
use crate::grid::x_is_inside;
use crate::grid::x_lower;
use crate::grid::x_position;
use crate::grid_geometry::high_end;
use crate::grid_geometry::low_end;
use crate::grid_laws::cells_are_numbered_once;
use crate::halves::difference_is;
use crate::halves::half_is_product;
use crate::halves::half_step_back;
use crate::mesh::FvMesh;
use crate::mesh::StructuredMesh;
use crate::mesh::Vec3;
use crate::placement_laws::counts_add;
use crate::placement_laws::counts_exactly;
use crate::placement_laws::difference_of_sum;
use crate::placement_laws::orders_exactly;
use crate::scalar::Scalar;
use crate::scalar::is_ordered;
use crate::scalar::is_ring;
use crate::scalar::minus_restores;
use crate::scalar::negated_cancels;
use crate::scalar::plus_associates;
use crate::scalar::plus_cancels;
use crate::scalar::plus_commutes;
use crate::scalar::plus_zero;
use crate::scalar::times_distributes;
use crate::scalar::times_one;
use crate::scalar::times_zero;
use crate::uniform::UniformMesh;
use vstd::prelude::*;

verus! {

/// Dividing by `w` keeps the order, and undoes multiplying by it.
#[verifier::opaque]
pub open spec fn divides_in_order<S: Scalar>(w: S) -> bool {
    &&& forall|a: S, b: S|
        a.at_most_spec(b) == (#[trigger] a.over_spec(w)).at_most_spec(#[trigger] b.over_spec(w))
    &&& forall|a: S| (#[trigger] a.times_spec(w)).over_spec(w) == a
}

/// Two numbers compare as they do after the same number was taken from both.
proof fn less_shifts<S: Scalar>(a: S, b: S, c: S)
    requires
        is_ring::<S>(),
        is_ordered::<S>(),
        orders_exactly::<S>(),
    ensures
        a.less_spec(b) == a.minus_spec(c).less_spec(b.minus_spec(c)),
{
    let (p, q): (S, S) = (a.minus_spec(c), b.minus_spec(c));
    let n: S = S::zero_spec().minus_spec(c);
    // Taking the opposite of `c` again gives `a` and `b` back.
    minus_restores(a, c);
    minus_restores(b, c);
    minus_restores(S::zero_spec(), c);
    plus_associates(p, c, n);
    plus_associates(q, c, n);
    plus_commutes(n, c);
    plus_zero(p);
    plus_zero(q);
    difference_is(p, n, a);
    difference_is(q, n, b);
    reveal(is_ordered);
    reveal(orders_exactly);
    assert(a.less_spec(b) == !b.at_most_spec(a));
    assert(p.less_spec(q) == !q.at_most_spec(p));
    if b.at_most_spec(a) {
        assert(b.minus_spec(c).at_most_spec(a.minus_spec(c)));
    }
    if q.at_most_spec(p) {
        assert(q.minus_spec(n).at_most_spec(p.minus_spec(n)));
    }
}

/// Two numbers compare as their quotients by `w` do.
proof fn less_divides<S: Scalar>(a: S, b: S, w: S)
    requires
        is_ordered::<S>(),
        divides_in_order(w),
    ensures
        a.less_spec(b) == a.over_spec(w).less_spec(b.over_spec(w)),
{
    reveal(is_ordered);
    reveal(divides_in_order);
    assert(b.at_most_spec(a) == b.over_spec(w).at_most_spec(a.over_spec(w)));
}

/// The position along x is the distance from the origin, in cells, less a constant: a
/// half, the offset of the part and its ghost layers. It compares to `bound` as `x`
/// compares to the coordinate that lies `far` cells from the origin.
proof fn position_compares<S: Scalar>(g: Grid<S>, x: S, bound: S, far: S)
    requires
        is_ring::<S>(),
        is_ordered::<S>(),
        orders_exactly::<S>(),
        divides_in_order(g.dx),
        bound.plus_spec(S::one_spec().halved_spec()).plus_spec(S::count_spec(g.offset[0]))
            == far.plus_spec(S::count_spec(g.ng)),
    ensures
        ({
            let edge: S = g.origin[0].plus_spec(far.times_spec(g.dx));
            &&& x_position(g, x).less_spec(bound) == x.less_spec(edge)
            &&& bound.less_spec(x_position(g, x)) == edge.less_spec(x)
        }),
{
    let (o, d): (S, S) = (g.origin[0], g.dx);
    let half: S = S::one_spec().halved_spec();
    let (off, ng): (S, S) = (S::count_spec(g.offset[0]), S::count_spec(g.ng));
    let edge: S = o.plus_spec(far.times_spec(d));
    let u: S = x.minus_spec(o).over_spec(d);
    // Both sides move by the same constant.
    let k: S = half.plus_spec(off).minus_spec(ng);
    let at: S = x_position(g, x);
    minus_restores(half.plus_spec(off), ng);
    assert(at.plus_spec(k) == u) by {
        let p: S = u.minus_spec(half);
        let q: S = p.minus_spec(off);
        assert(at == q.plus_spec(ng));
        plus_associates(q, ng, k);
        plus_commutes(ng, k);
        plus_commutes(half, off);
        plus_associates(q, off, half);
        minus_restores(p, off);
        minus_restores(u, half);
    }
    assert(bound.plus_spec(k) == far) by {
        plus_associates(bound, k, ng);
        plus_associates(bound, half, off);
        plus_cancels(bound.plus_spec(k), far, ng);
    }
    difference_is(u, k, at);
    difference_is(far, k, bound);
    less_shifts(u, far, k);
    less_shifts(far, u, k);
    // From cells back to lengths.
    let w: S = far.times_spec(d);
    assert(w.over_spec(d) == far) by {
        reveal(divides_in_order);
    }
    less_divides(x.minus_spec(o), w, d);
    less_divides(w, x.minus_spec(o), d);
    difference_of_sum(o, w);
    less_shifts(x, edge, o);
    less_shifts(edge, x, o);
}

/// The counts of the offset, the ghost layers and `n` cells.
proof fn counts_from_the_origin<S: Scalar>(g: Grid<S>, n: int)
    requires
        counts_exactly::<S>(),
    ensures
        S::count_spec(n).plus_spec(S::count_spec(g.offset[0])) == S::count_spec(
            g.offset[0] - g.ng + n,
        ).plus_spec(S::count_spec(g.ng)),
{
    counts_add::<S>(n, g.offset[0]);
    counts_add::<S>(g.offset[0] - g.ng + n, g.ng);
    assert((g.offset[0] - g.ng + n) + g.ng == n + g.offset[0]);
}

/// The position of the center with raw index `i` is `i`: a point along x is below that
/// center where its position is below `i`, and above it where it is above.
proof fn position_compares_to_centers<S: Scalar>(g: Grid<S>, x: S, i: int)
    requires
        is_ring::<S>(),
        is_ordered::<S>(),
        orders_exactly::<S>(),
        halving_is_exact::<S>(),
        counts_exactly::<S>(),
        divides_in_order(g.dx),
    ensures
        x_position(g, x).less_spec(S::count_spec(i)) == x.less_spec(x_center(g, i)),
        S::count_spec(i).less_spec(x_position(g, x)) == x_center(g, i).less_spec(x),
{
    let (o, d): (S, S) = (g.origin[0], g.dx);
    let half: S = S::one_spec().halved_spec();
    let (off, ng): (S, S) = (S::count_spec(g.offset[0]), S::count_spec(g.ng));
    let n: S = S::count_spec(g.offset[0] - g.ng + i);
    let far: S = n.plus_spec(half);
    let c: S = S::count_spec(i);
    counts_from_the_origin::<S>(g, i);
    // The half moves past the counts.
    plus_associates(c, half, off);
    plus_commutes(half, off);
    plus_associates(c, off, half);
    plus_associates(n, ng, half);
    plus_commutes(ng, half);
    plus_associates(n, half, ng);
    position_compares(g, x, c, far);
    times_distributes(d, n, half);
    half_is_product(d);
    plus_associates(o, n.times_spec(d), d.halved_spec());
    assert(g.offset[0] - g.ng + i == g.offset[0] + i - g.ng);
}

/// Rounding down keeps the sign, and gives the index of a count back.
pub open spec fn floors_in_order<S: Scalar>() -> bool {
    &&& forall|a: S|
        a.less_spec(S::zero_spec()) ==> (#[trigger] a.floored_spec()).less_spec(S::zero_spec())
    &&& forall|a: S, n: int|
        0 <= n <= usize::MAX && !a.less_spec(#[trigger] S::count_spec(n)) ==> {
            &&& !(#[trigger] a.floored_spec()).less_spec(S::zero_spec())
            &&& n <= a.floored_spec().index_spec()
        }
}

/// Below the first center along x, a point is placed on it, and from the last center
/// on, on that one.
pub proof fn x_fractions_stop_at_the_outermost_centers<S: Scalar>(g: Grid<S>, x: S)
    requires
        is_ring::<S>(),
        is_ordered::<S>(),
        orders_exactly::<S>(),
        halving_is_exact::<S>(),
        counts_exactly::<S>(),
        floors_in_order::<S>(),
        divides_in_order(g.dx),
        2 <= total_count(g, 0) <= usize::MAX,
    ensures
        x.less_spec(x_center(g, 0)) ==> x_lower(g, x) == 0 && x_fraction(g, x) == S::zero_spec(),
        !x.less_spec(x_center(g, total_count(g, 0) - 1)) ==> x_lower(g, x) == total_count(g, 0) - 2
            && x_fraction(g, x) == S::one_spec(),
{
    let last: int = total_count(g, 0) - 1;
    let at: S = x_position(g, x);
    position_compares_to_centers(g, x, 0);
    position_compares_to_centers(g, x, last);
    assert(S::count_spec(0) == S::zero_spec()) by {
        reveal(counts_exactly);
    }
    if !x.less_spec(x_center(g, last)) {
        assert(!at.less_spec(S::count_spec(last)));
        assert(last <= at.floored_spec().index_spec());
    }
}

/// The first and the last cell stand at the ends of every axis.
proof fn corner_cells<S>(g: Grid<S>, axis: int)
    requires
        is_sound(g),
        0 <= axis < 3,
        total_count(g, 0) >= 1,
    ensures
        0 < cell_count(g),
        raw_of(g, 0, axis) == 0,
        raw_of(g, cell_count(g) - 1, axis) == total_count(g, axis) - 1,
{
    let (t0, t1, t2): (int, int, int) = (total_count(g, 0), total_count(g, 1), total_count(g, 2));
    cells_are_numbered_once(g, 0, 0, 0);
    cells_are_numbered_once(g, t0 - 1, t1 - 1, t2 - 1);
    assert((0 * t1 + 0) * t2 + 0 == 0) by (nonlinear_arith);
    assert(((t0 - 1) * t1 + (t1 - 1)) * t2 + (t2 - 1) == t0 * t1 * t2 - 1) by (nonlinear_arith);
}

/// A mesh locates the points of its cells and no others: those that lie, along every
/// axis, no lower than where its first cell starts and no higher than where its last
/// cell ends, ghost cells included, where there are two cells to lie between.
pub proof fn points_of_the_cells_are_located<S: Scalar>(m: UniformMesh<S>, point: Vec3<S>)
    requires
        is_ring::<S>(),
        is_ordered::<S>(),
        orders_exactly::<S>(),
        halving_is_exact::<S>(),
        counts_exactly::<S>(),
        m.valid(),
        total_count(m.grid(), 0) >= 1,
        divides_in_order(m.grid().dx),
    ensures
        m.bracket_of(point) is Some <==> forall|a: int|
            0 <= a < 3 ==> {
                &&& total_count(m.grid(), a) >= 2
                &&& low_end(m, 0, a).at_most_spec(#[trigger] point[a])
                &&& point[a].at_most_spec(high_end(m, cell_count(m.grid()) - 1, a))
            },
{
    let g: Grid<S> = m.grid();
    let last: int = cell_count(g) - 1;
    corner_cells(g, 0);
    corner_cells(g, 1);
    corner_cells(g, 2);
    x_range_is_that_of_the_cells(m, point[0]);
    assert(bracket_at(g, point) is Some == (x_is_inside(g, point[0]) && is_inside(
        point[1],
        g.y,
        g.dy,
    ) && is_inside(point[2], g.z, g.dz)));
    let inside = |a: int|
        {
            &&& total_count(g, a) >= 2
            &&& low_end(m, 0, a).at_most_spec(point[a])
            &&& point[a].at_most_spec(high_end(m, last, a))
        };
    assert(is_inside(point[1], g.y, g.dy) == inside(1)) by {
        reveal(is_ordered);
        assert(low_end(m, 0, 1) == g.y[0].minus_spec(g.dy[0].halved_spec()));
        assert(high_end(m, last, 1) == g.y.last().plus_spec(g.dy.last().halved_spec()));
        assert(point[1].less_spec(low_end(m, 0, 1)) == !low_end(m, 0, 1).at_most_spec(point[1]));
        assert(high_end(m, last, 1).less_spec(point[1]) == !point[1].at_most_spec(
            high_end(m, last, 1),
        ));
    }
    assert(is_inside(point[2], g.z, g.dz) == inside(2)) by {
        reveal(is_ordered);
        assert(low_end(m, 0, 2) == g.z[0].minus_spec(g.dz[0].halved_spec()));
        assert(high_end(m, last, 2) == g.z.last().plus_spec(g.dz.last().halved_spec()));
        assert(point[2].less_spec(low_end(m, 0, 2)) == !low_end(m, 0, 2).at_most_spec(point[2]));
        assert(high_end(m, last, 2).less_spec(point[2]) == !point[2].at_most_spec(
            high_end(m, last, 2),
        ));
    }
    assert(x_is_inside(g, point[0]) == inside(0));
    let (x, y, z): (S, S, S) = (point[0], point[1], point[2]);
    if forall|a: int|
        0 <= a < 3 ==> {
            &&& total_count(g, a) >= 2
            &&& low_end(m, 0, a).at_most_spec(#[trigger] point[a])
            &&& point[a].at_most_spec(high_end(m, last, a))
        } {
        assert(low_end(m, 0, 0).at_most_spec(x));
        assert(low_end(m, 0, 1).at_most_spec(y));
        assert(low_end(m, 0, 2).at_most_spec(z));
    }
}

/// Along x.
proof fn x_range_is_that_of_the_cells<S: Scalar>(m: UniformMesh<S>, x: S)
    requires
        is_ring::<S>(),
        is_ordered::<S>(),
        orders_exactly::<S>(),
        halving_is_exact::<S>(),
        counts_exactly::<S>(),
        m.valid(),
        total_count(m.grid(), 0) >= 1,
        divides_in_order(m.grid().dx),
    ensures
        x_is_inside(m.grid(), x) == {
            &&& total_count(m.grid(), 0) >= 2
            &&& low_end(m, 0, 0).at_most_spec(x)
            &&& x.at_most_spec(high_end(m, cell_count(m.grid()) - 1, 0))
        },
{
    let g: Grid<S> = m.grid();
    let (t, last): (int, int) = (total_count(g, 0), cell_count(g) - 1);
    let (o, d): (S, S) = (g.origin[0], g.dx);
    let (one, half): (S, S) = (S::one_spec(), S::one_spec().halved_spec());
    corner_cells(g, 0);
    assert(S::count_spec(0) == S::zero_spec() && S::count_spec(1) == one) by {
        reveal(counts_exactly);
    }
    negated_cancels(half);
    counts_from_the_origin::<S>(g, 0);
    position_compares(g, x, half.negated_spec(), S::count_spec(g.offset[0] - g.ng));
    minus_restores(S::count_spec(t), half);
    counts_from_the_origin::<S>(g, t);
    position_compares(
        g,
        x,
        S::count_spec(t).minus_spec(half),
        S::count_spec(g.offset[0] - g.ng + t),
    );
    // The first cell starts, and the last one ends, at these edges.
    let low: S = o.plus_spec(S::count_spec(g.offset[0] - g.ng).times_spec(d));
    assert(low_end(m, 0, 0) == low) by {
        assert(x_center(g, 0) == low.plus_spec(d.halved_spec()));
        half_step_back(low, d);
    }
    let before: S = S::count_spec(g.offset[0] + (t - 1) - g.ng).times_spec(d);
    let high: S = o.plus_spec(S::count_spec(g.offset[0] - g.ng + t).times_spec(d));
    assert(high_end(m, last, 0) == high) by {
        half_step_back(o.plus_spec(before), d);
        counts_add::<S>(g.offset[0] + (t - 1) - g.ng, 1);
        assert((g.offset[0] + (t - 1) - g.ng) + 1 == g.offset[0] - g.ng + t);
        times_distributes(d, S::count_spec(g.offset[0] + (t - 1) - g.ng), one);
        times_one(d);
        plus_associates(o, before, d);
    }
    reveal(is_ordered);
    assert(x.less_spec(low) == !low.at_most_spec(x));
    assert(high.less_spec(x) == !x.at_most_spec(high));
}

/// Below the first center along y or z, a point is placed on it: the pair of cells is
/// the first one and the fraction zero.
pub proof fn fractions_stop_at_the_first_center<S: Scalar>(p: S, centers: Seq<S>)
    requires
        is_ring::<S>(),
        is_ordered::<S>(),
        orders_exactly::<S>(),
        centers.len() >= 2,
        p.less_spec(centers[0]),
        divides_in_order(centers[1].minus_spec(centers[0])),
    ensures
        lower_center(p, centers) == 0,
        fraction_at(p, centers, lower_center(p, centers)) == S::zero_spec(),
{
    let (z, gap): (S, S) = (S::zero_spec(), centers[1].minus_spec(centers[0]));
    let d: S = p.minus_spec(centers[0]);
    less_shifts(p, centers[0], centers[0]);
    plus_zero(centers[0]);
    difference_is(centers[0], centers[0], z);
    less_divides(d, z, gap);
    assert(z.over_spec(gap) == z) by {
        reveal(divides_in_order);
        times_zero(gap);
        assert(z.times_spec(gap).over_spec(gap) == z);
    }
}

/// No interval holds a point that lies below none of the centers.
proof fn no_interval<S: Scalar>(p: S, centers: Seq<S>, upto: int)
    requires
        upto < centers.len(),
        forall|j: int| 0 <= j < centers.len() ==> !p.less_spec(#[trigger] centers[j]),
    ensures
        interval_of(p, centers, upto) is None,
    decreases upto,
{
    if upto > 0 {
        no_interval(p, centers, upto - 1);
        assert(!p.less_spec(centers[upto]));
    }
}

/// From the last center along y or z on, a point is placed on it: the pair of cells is
/// the last one and the fraction one.
pub proof fn fractions_stop_at_the_last_center<S: Scalar>(p: S, centers: Seq<S>)
    requires
        is_ring::<S>(),
        is_ordered::<S>(),
        orders_exactly::<S>(),
        centers.len() >= 2,
        forall|j: int| 0 <= j < centers.len() ==> !p.less_spec(#[trigger] centers[j]),
        ({
            let gap: S = centers.last().minus_spec(centers[centers.len() - 2]);
            &&& divides_in_order(gap)
            &&& !gap.less_spec(S::tiny_spec())
            &&& S::zero_spec().at_most_spec(S::one_spec())
        }),
    ensures
        lower_center(p, centers) == centers.len() - 2,
        fraction_at(p, centers, lower_center(p, centers)) == S::one_spec(),
{
    let n: int = centers.len() as int;
    let (z, one): (S, S) = (S::zero_spec(), S::one_spec());
    let gap: S = centers[n - 1].minus_spec(centers[n - 2]);
    let d: S = p.minus_spec(centers[n - 2]);
    assert(!p.less_spec(centers[0]) && !p.less_spec(centers[n - 1]));
    no_interval(p, centers, n - 1);
    less_shifts(p, centers[n - 1], centers[n - 2]);
    less_divides(d, gap, gap);
    times_one(gap);
    assert(gap.over_spec(gap) == one) by {
        reveal(divides_in_order);
        assert(one.times_spec(gap).over_spec(gap) == one);
    }
    let t: S = d.over_spec(gap);
    assert(!t.less_spec(one));
    reveal(is_ordered);
    reveal(orders_exactly);
    assert(t.less_spec(one) == !one.at_most_spec(t));
    assert(t.less_spec(z) == !z.at_most_spec(t));
    assert(z.at_most_spec(one) && one.at_most_spec(t));
    assert(z.at_most_spec(t));
    if !one.less_spec(t) {
        assert(one.less_spec(t) == !t.at_most_spec(one));
        assert(t.at_most_spec(one) && one.at_most_spec(t));
    }
}

} // verus!
