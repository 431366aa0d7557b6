//! Where a located point stands between the centers around it, in exact arithmetic:
//! its fractions place it exactly, so that a gather reproduces linear fields.

use crate::grid::Grid;
use crate::grid::bracket_at;
use crate::grid::cell_count;
use crate::grid::clamped;
use crate::grid::fraction_at;
use crate::grid::interval_of;
use crate::grid::lower_center;
use crate::grid::total_count;
use crate::grid::x_center;
use crate::grid::x_position;
use crate::mesh::FvMesh;
use crate::mesh::Vec3;
use crate::scalar::Scalar;
use crate::scalar::is_ordered;
use crate::scalar::is_ring;
use crate::scalar::minus_restores;
use crate::scalar::plus_associates;
use crate::scalar::plus_cancels;
use crate::scalar::plus_commutes;
use crate::scalar::plus_zero;
use crate::scalar::times_commutes;
use crate::scalar::times_distributes;
use crate::scalar::times_one;
use crate::scalar::times_zero;
use crate::transfer::gathered_at;
use crate::transfer::hat;
use crate::transfer_exact::coordinate;
use crate::transfer_exact::gather_is_linearly_exact;
use crate::transfer_exact::interpolates;
use crate::transfer_exact::linear_at;
use crate::transfer_exact::places;
use crate::transfer_laws::divides;
use crate::transfer_laws::hats_add_up;
use crate::transfer_laws::in_unit;
use crate::uniform::UniformMesh;
use vstd::prelude::*;

verus! {

// ---------------------------------------------------------------------------
// Exact arithmetic.
// ---------------------------------------------------------------------------

/// Numbers that are at most each other are equal, and subtracting keeps the order.
#[verifier::opaque]
pub open spec fn orders_exactly<S: Scalar>() -> bool {
    &&& forall|a: S, b: S| #[trigger]
        a.at_most_spec(b) && #[trigger] b.at_most_spec(a) ==> a == b
    &&& forall|a: S, b: S, c: S|
        a.at_most_spec(b) ==> (#[trigger] a.minus_spec(c)).at_most_spec(#[trigger] b.minus_spec(c))
}

/// Whole numbers add and compare as the scalars that stand for them do.
#[verifier::opaque]
pub open spec fn counts_exactly<S: Scalar>() -> bool {
    &&& S::count_spec(0) == S::zero_spec()
    &&& S::count_spec(1) == S::one_spec()
    &&& forall|m: int, n: int| #[trigger]
        S::count_spec(m + n) == S::count_spec(m).plus_spec(S::count_spec(n))
    &&& forall|m: int, n: int|
        m < n ==> (#[trigger] S::count_spec(m)).less_spec(#[trigger] S::count_spec(n))
}

/// Dividing by `w` is undone by multiplying, and takes what lies between zero and
/// `w` to between zero and one.
pub open spec fn measures<S: Scalar>(w: S) -> bool {
    &&& divides(w)
    &&& forall|x: S|
        S::zero_spec().at_most_spec(x) && x.at_most_spec(w) ==> in_unit(#[trigger] x.over_spec(w))
}

/// The floor of `a` is a count from zero up, and leaves a fraction between zero and
/// one.
pub open spec fn floors_exactly<S: Scalar>(a: S) -> bool {
    let f: S = a.floored_spec();
    &&& !f.less_spec(S::zero_spec())
    &&& S::count_spec(f.index_spec() as int) == f
    &&& f.at_most_spec(a)
    &&& in_unit(a.minus_spec(f))
}

// ---------------------------------------------------------------------------
// Fractions.
// ---------------------------------------------------------------------------

/// A number between zero and one is not limited any further.
proof fn clamped_is_kept<S: Scalar>(x: S)
    requires
        is_ordered::<S>(),
        in_unit(x),
    ensures
        clamped(x) == x,
{
    reveal(is_ordered);
    assert(x.less_spec(S::zero_spec()) == !S::zero_spec().at_most_spec(x));
    assert(S::one_spec().less_spec(x) == !x.at_most_spec(S::one_spec()));
}

/// Taking away what was added leaves the rest.
pub proof fn difference_of_sum<S: Scalar>(b: S, d: S)
    requires
        is_ring::<S>(),
    ensures
        b.plus_spec(d).minus_spec(b) == d,
{
    minus_restores(b.plus_spec(d), b);
    plus_commutes(b, d);
    plus_cancels(b.plus_spec(d).minus_spec(b), d, b);
}

/// Nothing is left of a number taken from itself.
proof fn difference_vanishes<S: Scalar>(a: S)
    requires
        is_ring::<S>(),
    ensures
        a.minus_spec(a) == S::zero_spec(),
{
    plus_zero(a);
    difference_of_sum(a, S::zero_spec());
}

/// A fraction of the gap that makes up the distance from the lower center places
/// the point.
proof fn fraction_places<S: Scalar>(t: S, below: S, above: S, p: S)
    requires
        is_ring::<S>(),
        t.times_spec(above.minus_spec(below)) == p.minus_spec(below),
    ensures
        interpolates(t, below, above, p),
{
    let (near, gap): (S, S) = (hat(t, 0), above.minus_spec(below));
    let rest: S = p.minus_spec(below);
    let (nb, tb): (S, S) = (near.times_spec(below), t.times_spec(below));
    // t * above is t * gap and t * below.
    minus_restores(above, below);
    times_distributes(t, gap, below);
    // The two shares of the lower center make it up.
    hats_add_up(t);
    times_distributes(below, near, t);
    times_one(below);
    assert(nb.plus_spec(tb) == below);
    plus_commutes(rest, tb);
    plus_associates(nb, tb, rest);
    plus_commutes(below, rest);
    minus_restores(p, below);
}

// ---------------------------------------------------------------------------
// Along y and z.
// ---------------------------------------------------------------------------

/// An interval that is found holds the point; where none is, every center is at or
/// below it.
proof fn interval_holds<S: Scalar>(p: S, centers: Seq<S>, upto: int)
    requires
        is_ordered::<S>(),
        0 <= upto < centers.len(),
        centers[0].at_most_spec(p),
    ensures
        match interval_of(p, centers, upto) {
            Some(j) => {
                &&& 0 <= j < upto
                &&& centers[j].at_most_spec(p)
                &&& p.less_spec(centers[j + 1])
            },
            None => forall|m: int| 0 <= m <= upto ==> (#[trigger] centers[m]).at_most_spec(p),
        },
    decreases upto,
{
    if upto > 0 {
        interval_holds(p, centers, upto - 1);
        if interval_of(p, centers, upto - 1) is None {
            assert(centers[upto - 1].at_most_spec(p));
            if !p.less_spec(centers[upto]) {
                reveal(is_ordered);
                assert(p.less_spec(centers[upto]) == !centers[upto].at_most_spec(p));
            }
        }
    }
}

/// Between the outermost centers a point lies between the two centers around it.
proof fn lower_center_brackets<S: Scalar>(p: S, centers: Seq<S>)
    requires
        is_ordered::<S>(),
        centers.len() >= 2,
        centers[0].at_most_spec(p),
        p.at_most_spec(centers.last()),
    ensures
        ({
            let lo: int = lower_center(p, centers);
            &&& 0 <= lo < centers.len() - 1
            &&& centers[lo].at_most_spec(p)
            &&& p.at_most_spec(centers[lo + 1])
        }),
{
    interval_holds(p, centers, centers.len() - 1);
    reveal(is_ordered);
    assert(p.less_spec(centers[0]) == !centers[0].at_most_spec(p));
    let lo: int = lower_center(p, centers);
    if interval_of(p, centers, centers.len() - 1) is Some {
        let above: S = centers[lo + 1];
        assert(p.less_spec(above) == !above.at_most_spec(p));
        assert(p.at_most_spec(above) || above.at_most_spec(p));
    }
}

/// The gap between the centers around `p` counts as a gap, and `p` can be measured
/// by it.
pub open spec fn has_gap<S: Scalar>(p: S, centers: Seq<S>) -> bool {
    let lo: int = lower_center(p, centers);
    let gap: S = centers[lo + 1].minus_spec(centers[lo]);
    &&& !(gap.less_spec(S::tiny_spec()) && gap.negated_spec().less_spec(S::tiny_spec()))
    &&& measures(gap)
}

/// The fraction of a point between the outermost centers places it.
proof fn center_fraction_places<S: Scalar>(p: S, centers: Seq<S>)
    requires
        is_ring::<S>(),
        is_ordered::<S>(),
        orders_exactly::<S>(),
        centers.len() >= 2,
        centers[0].at_most_spec(p),
        p.at_most_spec(centers.last()),
        has_gap(p, centers),
    ensures
        ({
            let lo: int = lower_center(p, centers);
            interpolates(fraction_at(p, centers, lo), centers[lo], centers[lo + 1], p)
        }),
{
    lower_center_brackets(p, centers);
    let lo: int = lower_center(p, centers);
    let (below, above): (S, S) = (centers[lo], centers[lo + 1]);
    let (gap, rest): (S, S) = (above.minus_spec(below), p.minus_spec(below));
    assert(S::zero_spec().at_most_spec(rest) && rest.at_most_spec(gap)) by {
        reveal(orders_exactly);
        difference_vanishes(below);
        assert(below.minus_spec(below).at_most_spec(rest));
    }
    let t: S = rest.over_spec(gap);
    assert(in_unit(t));
    clamped_is_kept(t);
    assert(t.times_spec(gap) == rest);
    fraction_places(t, below, above, p);
}

// ---------------------------------------------------------------------------
// Along x.
// ---------------------------------------------------------------------------

/// Whole numbers add as the scalars that stand for them do.
pub proof fn counts_add<S: Scalar>(m: int, n: int)
    requires
        counts_exactly::<S>(),
    ensures
        S::count_spec(m + n) == S::count_spec(m).plus_spec(S::count_spec(n)),
{
    reveal(counts_exactly);
}

/// The position of `x` less `i` cells, with the half cell and the cells up to center
/// `i`, is the distance of `x` from the origin in cells.
proof fn position_unwinds<S: Scalar>(g: Grid<S>, x: S, i: int)
    requires
        is_ring::<S>(),
        counts_exactly::<S>(),
    ensures
        x_position(g, x).minus_spec(S::count_spec(i)).plus_spec(
            S::count_spec(g.offset[0] + i - g.ng),
        ).plus_spec(S::one_spec().halved_spec()) == x.minus_spec(g.origin[0]).over_spec(g.dx),
{
    let at: S = x_position(g, x);
    let u: S = x.minus_spec(g.origin[0]).over_spec(g.dx);
    let h: S = S::one_spec().halved_spec();
    let (co, cg, ci): (S, S, S) = (
        S::count_spec(g.offset[0]),
        S::count_spec(g.ng),
        S::count_spec(i),
    );
    let k: S = S::count_spec(g.offset[0] + i - g.ng);
    counts_add::<S>(g.offset[0] + i - g.ng, g.ng);
    counts_add::<S>(g.offset[0], i);
    assert(k.plus_spec(cg) == co.plus_spec(ci));
    let frac: S = at.minus_spec(ci);
    let w: S = u.minus_spec(h);
    let v: S = w.minus_spec(co);
    minus_restores(at, ci);
    minus_restores(w, co);
    minus_restores(u, h);
    plus_associates(frac, k, cg);
    plus_commutes(co, ci);
    plus_associates(frac, ci, co);
    plus_associates(v, cg, co);
    plus_commutes(cg, co);
    plus_associates(v, co, cg);
    assert(frac.plus_spec(k).plus_spec(cg) == w.plus_spec(cg));
    plus_cancels(frac.plus_spec(k), w, cg);
}

/// From center `i` it is as many cell widths to `x` as its position is beyond `i`.
proof fn position_measures<S: Scalar>(g: Grid<S>, x: S, i: int)
    requires
        is_ring::<S>(),
        counts_exactly::<S>(),
        divides(g.dx),
        g.dx.halved_spec() == g.dx.times_spec(S::one_spec().halved_spec()),
    ensures
        x_position(g, x).minus_spec(S::count_spec(i)).times_spec(g.dx) == x.minus_spec(
            x_center(g, i),
        ),
{
    position_unwinds(g, x, i);
    let (o, d): (S, S) = (g.origin[0], g.dx);
    let h: S = S::one_spec().halved_spec();
    let k: S = S::count_spec(g.offset[0] + i - g.ng);
    let frac: S = x_position(g, x).minus_spec(S::count_spec(i));
    let y: S = x.minus_spec(o);
    assert(y.over_spec(d).times_spec(d) == y);
    let (f, a, b): (S, S, S) = (frac.times_spec(d), k.times_spec(d), d.halved_spec());
    times_commutes(d, h);
    times_distributes(d, frac.plus_spec(k), h);
    times_distributes(d, frac, k);
    assert(f.plus_spec(a).plus_spec(b) == y);
    // The center and `f` make up `x`.
    let center: S = x_center(g, i);
    plus_associates(o, a, b);
    plus_associates(o, a.plus_spec(b), f);
    plus_commutes(a.plus_spec(b), f);
    plus_associates(f, a, b);
    plus_commutes(o, y);
    minus_restores(x, o);
    assert(center.plus_spec(f) == x);
    difference_of_sum(center, f);
}

/// Centers along x are one cell width apart.
pub proof fn centers_step<S: Scalar>(g: Grid<S>, i: int)
    requires
        is_ring::<S>(),
        counts_exactly::<S>(),
    ensures
        x_center(g, i + 1).minus_spec(x_center(g, i)) == g.dx,
{
    let (o, d): (S, S) = (g.origin[0], g.dx);
    let n: int = g.offset[0] + i - g.ng;
    counts_add::<S>(n, 1);
    assert(S::count_spec(n + 1) == S::count_spec(n).plus_spec(S::one_spec())) by {
        reveal(counts_exactly);
    }
    let (a, b): (S, S) = (S::count_spec(n).times_spec(d), d.halved_spec());
    times_distributes(d, S::count_spec(n), S::one_spec());
    times_one(d);
    // o + (a + d) + b is o + a + b and d.
    plus_associates(o, a, d);
    plus_associates(o.plus_spec(a), d, b);
    plus_commutes(d, b);
    plus_associates(o.plus_spec(a), b, d);
    difference_of_sum(x_center(g, i), d);
}

/// What locating along x needs of the numbers at hand.
pub open spec fn has_width<S: Scalar>(g: Grid<S>, x: S) -> bool {
    &&& divides(g.dx)
    &&& g.dx.halved_spec() == g.dx.times_spec(S::one_spec().halved_spec())
    &&& floors_exactly(x_position(g, x))
}

// ---------------------------------------------------------------------------
// Laws.
// ---------------------------------------------------------------------------

/// The point lies between the outermost centers along `axis`; along x, in positions
/// counted in cells.
pub open spec fn is_between_centers<S: Scalar>(g: Grid<S>, point: Vec3<S>, axis: int) -> bool {
    if axis == 0 {
        let at: S = x_position(g, point[0]);
        S::zero_spec().at_most_spec(at) && at.at_most_spec(S::count_spec(total_count(g, 0) - 1))
    } else if axis == 1 {
        g.y[0].at_most_spec(point[1]) && point[1].at_most_spec(g.y.last())
    } else {
        g.z[0].at_most_spec(point[2]) && point[2].at_most_spec(g.z.last())
    }
}

/// The spacing along `axis` can be divided by at the point.
pub open spec fn has_spacing<S: Scalar>(g: Grid<S>, point: Vec3<S>, axis: int) -> bool {
    if axis == 0 {
        has_width(g, point[0])
    } else if axis == 1 {
        has_gap(point[1], g.y)
    } else {
        has_gap(point[2], g.z)
    }
}

/// In exact arithmetic the fractions of a located point that is not beyond the
/// outermost centers place it exactly between the centers around it.
pub proof fn located_points_are_placed<S: Scalar>(g: Grid<S>, point: Vec3<S>, axis: int)
    requires
        is_ring::<S>(),
        is_ordered::<S>(),
        orders_exactly::<S>(),
        counts_exactly::<S>(),
        0 <= axis < 3,
        bracket_at(g, point) is Some,
        is_between_centers(g, point, axis),
        has_spacing(g, point, axis),
    ensures
        places(g, point, axis),
{
    if axis == 0 {
        let x: S = point[0];
        let at: S = x_position(g, x);
        let below: S = at.floored_spec();
        let i: int = below.index_spec() as int;
        let n: int = total_count(g, 0);
        if i + 1 < n {
            let t: S = at.minus_spec(below);
            clamped_is_kept(t);
            position_measures(g, x, i);
            centers_step(g, i);
            fraction_places(t, x_center(g, i), x_center(g, i + 1), x);
        } else {
            // The point is at the last center.
            let last: S = S::count_spec(n - 1);
            assert(at == last) by {
                reveal(is_ordered);
                reveal(orders_exactly);
                reveal(counts_exactly);
                if n - 1 < i {
                    assert(last.less_spec(S::count_spec(i)) == !S::count_spec(i).at_most_spec(
                        last,
                    ));
                    assert(below.at_most_spec(at) && at.at_most_spec(last));
                    assert(below.at_most_spec(last));
                }
                assert(last.at_most_spec(at));
            }
            position_measures(g, x, n - 1);
            difference_vanishes(last);
            times_zero(g.dx);
            let (b, a): (S, S) = (x_center(g, n - 2), x_center(g, n - 1));
            minus_restores(x, a);
            plus_zero(a);
            plus_commutes(S::zero_spec(), a);
            assert(x == a);
            times_one(a.minus_spec(b));
            fraction_places(S::one_spec(), b, a, x);
        }
    } else if axis == 1 {
        center_fraction_places(point[1], g.y);
    } else {
        center_fraction_places(point[2], g.z);
    }
}

/// In exact arithmetic a gather reproduces a linear field: sampled at the cell
/// centers, it has at every point between the outermost centers the value it has
/// there.
pub proof fn linear_fields_are_gathered_exactly<S: Scalar>(
    mesh: UniformMesh<S>,
    point: Vec3<S>,
    cells: Seq<S>,
    fallback: S,
    kx: S,
    ky: S,
    kz: S,
)
    requires
        is_ring::<S>(),
        is_ordered::<S>(),
        orders_exactly::<S>(),
        counts_exactly::<S>(),
        mesh.valid(),
        bracket_at(mesh.grid(), point) is Some,
        forall|axis: int|
            0 <= axis < 3 ==> #[trigger] is_between_centers(mesh.grid(), point, axis)
                && has_spacing(mesh.grid(), point, axis),
        cells.len() == cell_count(mesh.grid()),
        forall|c: int|
            0 <= c < cells.len() ==> #[trigger] cells[c] == linear_at(
                kx,
                ky,
                kz,
                coordinate(mesh.grid(), c, 0),
                coordinate(mesh.grid(), c, 1),
                coordinate(mesh.grid(), c, 2),
            ),
    ensures
        gathered_at(mesh, point, cells, fallback) == linear_at(
            kx,
            ky,
            kz,
            point[0],
            point[1],
            point[2],
        ),
{
    let g: Grid<S> = mesh.grid();
    assert(is_between_centers(g, point, 0) && is_between_centers(g, point, 1)
        && is_between_centers(g, point, 2));
    located_points_are_placed(g, point, 0);
    located_points_are_placed(g, point, 1);
    located_points_are_placed(g, point, 2);
    gather_is_linearly_exact(mesh, point, cells, fallback, kx, ky, kz);
}

} // verus!
