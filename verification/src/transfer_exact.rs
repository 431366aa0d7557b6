//! Transfer on structured grids, for exact arithmetic: stencils lie on the grid
//! and share unity, and a gather reproduces linear fields.

use crate::grid::Grid;
use crate::grid::bracket_at;
use crate::grid::cell_count;
use crate::grid::clamped;
use crate::grid::interval_of;
use crate::grid::is_sound;
use crate::grid::lower_center;
use crate::grid::raw;
use crate::grid::raw_of;
use crate::grid::total_count;
use crate::grid::x_center;
use crate::grid::x_position;
use crate::grid_laws::cells_are_numbered_once;
use crate::index::first_of;
use crate::index::second_of;
use crate::index::third_of;
use crate::mesh::Bracket;
use crate::mesh::FvMesh;
use crate::mesh::StructuredMesh;
use crate::mesh::Vec3;
use crate::scalar::Scalar;
use crate::scalar::is_ordered;
use crate::scalar::is_ring;
use crate::scalar::plus_associates;
use crate::scalar::plus_commutes;
use crate::scalar::plus_zero;
use crate::scalar::sum_of;
use crate::scalar::times_associates;
use crate::scalar::times_commutes;
use crate::scalar::times_distributes;
use crate::scalar::times_one;
use crate::scalar::times_zero;
use crate::transfer::Term;
use crate::transfer::TransferMesh;
use crate::transfer::cic_term;
use crate::transfer::cic_terms;
use crate::transfer::gathered_at;
use crate::transfer::hat;
use crate::transfer::sampled;
use crate::transfer::weights_of;
use crate::transfer_laws::hats_add_up;
use crate::transfer_laws::hats_split;
use crate::transfer_laws::in_unit;
use crate::transfer_laws::plus_twice;
use crate::transfer_laws::shares_unity;
use crate::transfer_laws::terms_inside;
use crate::transfer_laws::weights_partition_unity;
use crate::uniform::UniformMesh;
use vstd::prelude::*;

verus! {

/// An interval that was found is one of those that were searched.
proof fn interval_is_inside<S: Scalar>(p: S, centers: Seq<S>, upto: int)
    ensures
        interval_of(p, centers, upto) matches Some(j) ==> 0 <= j < upto,
    decreases upto,
{
    if upto > 0 {
        interval_is_inside(p, centers, upto - 1);
    }
}

/// The lower one of the centers around a point has one above it.
proof fn lower_center_is_inside<S: Scalar>(p: S, centers: Seq<S>)
    requires
        centers.len() >= 2,
    ensures
        0 <= lower_center(p, centers) < centers.len() - 1,
{
    interval_is_inside(p, centers, centers.len() - 1);
}

/// The eight cells around a point are cells of the grid.
pub proof fn brackets_are_inside<S: Scalar>(g: Grid<S>, point: Vec3<S>, q: int)
    requires
        is_sound(g),
        bracket_at(g, point) is Some,
        0 <= q < 8,
    ensures
        ({
            let b: Bracket<S> = bracket_at(g, point).unwrap();
            let (ir, jr, kr): (int, int, int) = (
                b.lo[0] + first_of(q, 2, 2),
                b.lo[1] + second_of(q, 2, 2),
                b.lo[2] + third_of(q, 2),
            );
            &&& 0 <= ir < total_count(g, 0)
            &&& 0 <= jr < total_count(g, 1)
            &&& 0 <= kr < total_count(g, 2)
            &&& 0 <= raw(g, ir, jr, kr) < cell_count(g)
            &&& raw_of(g, raw(g, ir, jr, kr), 0) == ir
            &&& raw_of(g, raw(g, ir, jr, kr), 1) == jr
            &&& raw_of(g, raw(g, ir, jr, kr), 2) == kr
        }),
{
    let b: Bracket<S> = bracket_at(g, point).unwrap();
    lower_center_is_inside(point[1], g.y);
    lower_center_is_inside(point[2], g.z);
    let (ir, jr, kr): (int, int, int) = (
        b.lo[0] + first_of(q, 2, 2),
        b.lo[1] + second_of(q, 2, 2),
        b.lo[2] + third_of(q, 2),
    );
    cells_are_numbered_once(g, ir, jr, kr);
}

/// A number limited to the range from zero to one lies between zero and one.
proof fn clamped_is_in_unit<S: Scalar>(x: S)
    requires
        is_ordered::<S>(),
        S::zero_spec().at_most_spec(S::one_spec()),
    ensures
        in_unit(clamped(x)),
        in_unit(S::zero_spec()),
        in_unit(S::one_spec()),
{
    reveal(is_ordered);
    let (zero, one): (S, S) = (S::zero_spec(), S::one_spec());
    assert(zero.at_most_spec(zero) || zero.at_most_spec(zero));
    assert(one.at_most_spec(one) || one.at_most_spec(one));
    if !x.less_spec(zero) {
        assert(zero.at_most_spec(x));
    }
    if !one.less_spec(x) {
        assert(x.at_most_spec(one));
    }
}

/// Where the comparisons form a total order, the fractions of a located point lie
/// between zero and one.
pub proof fn fractions_lie_in_the_unit_interval<S: Scalar>(g: Grid<S>, point: Vec3<S>)
    requires
        is_ordered::<S>(),
        S::zero_spec().at_most_spec(S::one_spec()),
        bracket_at(g, point) is Some,
    ensures
        ({
            let b: Bracket<S> = bracket_at(g, point).unwrap();
            in_unit(b.t[0]) && in_unit(b.t[1]) && in_unit(b.t[2])
        }),
{
    let at: S = x_position(g, point[0]);
    clamped_is_in_unit(at.minus_spec(at.floored_spec()));
    let (j, k): (int, int) = (lower_center(point[1], g.y), lower_center(point[2], g.z));
    clamped_is_in_unit(
        point[1].minus_spec(g.y[j]).over_spec(g.y[j + 1].minus_spec(g.y[j])),
    );
    clamped_is_in_unit(
        point[2].minus_spec(g.z[k]).over_spec(g.z[k + 1].minus_spec(g.z[k])),
    );
}

/// On a structured grid every stencil is on cells of the grid and its weights add
/// up to one, so that the conservation laws of transfer apply to it.
pub proof fn structured_stencils_share_unity<S: Scalar>(
    mesh: UniformMesh<S>,
    positions: Seq<Vec3<S>>,
)
    requires
        is_ring::<S>(),
        mesh.valid(),
    ensures
        shares_unity(mesh, positions),
{
    let g: Grid<S> = mesh.grid();
    assert forall|p: int| 0 <= p < positions.len() implies match mesh.stencil_at(
        #[trigger] positions[p],
    ) {
        Some(terms) => terms_inside(terms, mesh.cell_total()) && sum_of(weights_of(terms))
            == S::one_spec(),
        None => true,
    } by {
        let point: Vec3<S> = positions[p];
        if bracket_at(g, point) is Some {
            let b: Bracket<S> = bracket_at(g, point).unwrap();
            weights_partition_unity(mesh, b);
            let terms: Seq<Term<S>> = cic_terms(mesh, b);
            assert forall|q: int| 0 <= q < terms.len() implies 0 <= (#[trigger] terms[q]).cell
                < mesh.cell_total() by {
                assert(terms[q] == cic_term(mesh, b, q));
                brackets_are_inside(g, point, q);
            }
        }
    }
}

// ---------------------------------------------------------------------------
// Linear fields.
// ---------------------------------------------------------------------------

/// Splitting a weighted value by the weights of one more axis changes nothing.
proof fn split_value<S: Scalar>(p: S, t: S, v: S)
    requires
        is_ring::<S>(),
    ensures
        p.times_spec(hat(t, 0)).times_spec(v).plus_spec(
            p.times_spec(hat(t, 1)).times_spec(v),
        ) == p.times_spec(v),
{
    hats_split(p, t);
    times_distributes(v, p.times_spec(hat(t, 0)), p.times_spec(hat(t, 1)));
}

/// Splitting a weight by an axis whose two values interpolate to `m` weighs `m`.
proof fn blend_values<S: Scalar>(p: S, t: S, v0: S, v1: S, m: S)
    requires
        is_ring::<S>(),
        hat(t, 0).times_spec(v0).plus_spec(hat(t, 1).times_spec(v1)) == m,
    ensures
        p.times_spec(hat(t, 0)).times_spec(v0).plus_spec(
            p.times_spec(hat(t, 1)).times_spec(v1),
        ) == p.times_spec(m),
{
    times_associates(p, hat(t, 0), v0);
    times_associates(p, hat(t, 1), v1);
    times_distributes(p, hat(t, 0).times_spec(v0), hat(t, 1).times_spec(v1));
}

/// The sample of a field over the eight terms of a stencil, term by term.
proof fn sample_of_eight<S: Scalar>(cells: Seq<S>, terms: Seq<Term<S>>)
    requires
        terms.len() == 8,
    ensures
        ({
            let t = |q: int| terms[q].weight.times_spec(cells[terms[q].cell]);
            sampled(cells, terms) == S::zero_spec().plus_spec(t(0)).plus_spec(t(1)).plus_spec(
                t(2),
            ).plus_spec(t(3)).plus_spec(t(4)).plus_spec(t(5)).plus_spec(t(6)).plus_spec(t(7))
        }),
{
    let d7: Seq<Term<S>> = terms.drop_last();
    let d6: Seq<Term<S>> = d7.drop_last();
    let d5: Seq<Term<S>> = d6.drop_last();
    let d4: Seq<Term<S>> = d5.drop_last();
    let d3: Seq<Term<S>> = d4.drop_last();
    let d2: Seq<Term<S>> = d3.drop_last();
    let d1: Seq<Term<S>> = d2.drop_last();
    let d0: Seq<Term<S>> = d1.drop_last();
    assert(sampled(cells, d0) == S::zero_spec());
    assert(sampled(cells, d1) == sampled(cells, d0).plus_spec(
        terms[0].weight.times_spec(cells[terms[0].cell]),
    ));
    assert(sampled(cells, d2) == sampled(cells, d1).plus_spec(
        terms[1].weight.times_spec(cells[terms[1].cell]),
    ));
    assert(sampled(cells, d3) == sampled(cells, d2).plus_spec(
        terms[2].weight.times_spec(cells[terms[2].cell]),
    ));
    assert(sampled(cells, d4) == sampled(cells, d3).plus_spec(
        terms[3].weight.times_spec(cells[terms[3].cell]),
    ));
    assert(sampled(cells, d5) == sampled(cells, d4).plus_spec(
        terms[4].weight.times_spec(cells[terms[4].cell]),
    ));
    assert(sampled(cells, d6) == sampled(cells, d5).plus_spec(
        terms[5].weight.times_spec(cells[terms[5].cell]),
    ));
    assert(sampled(cells, d7) == sampled(cells, d6).plus_spec(
        terms[6].weight.times_spec(cells[terms[6].cell]),
    ));
}

/// Eight weighted values, added one after the other, of which every pair makes up
/// one of four and every pair of those one of two.
proof fn eight_collapse<S: Scalar>(
    t: spec_fn(int) -> S,
    p: S,
    q: S,
    r: S,
    s: S,
    u: S,
    v: S,
    m: S,
)
    requires
        is_ring::<S>(),
        t(0).plus_spec(t(1)) == p,
        t(2).plus_spec(t(3)) == q,
        t(4).plus_spec(t(5)) == r,
        t(6).plus_spec(t(7)) == s,
        p.plus_spec(q) == u,
        r.plus_spec(s) == v,
        u.plus_spec(v) == m,
    ensures
        S::zero_spec().plus_spec(t(0)).plus_spec(t(1)).plus_spec(t(2)).plus_spec(t(3)).plus_spec(
            t(4),
        ).plus_spec(t(5)).plus_spec(t(6)).plus_spec(t(7)) == m,
{
    let z: S = S::zero_spec();
    plus_twice(z, t(0), t(1), p);
    plus_twice(z.plus_spec(p), t(2), t(3), q);
    plus_twice(z.plus_spec(p).plus_spec(q), t(4), t(5), r);
    plus_twice(z.plus_spec(p).plus_spec(q).plus_spec(r), t(6), t(7), s);
    plus_twice(z, p, q, u);
    plus_twice(z.plus_spec(u), r, s, v);
    plus_twice(z, u, v, m);
    plus_zero(m);
}

/// A fraction places `p` exactly between two centers: weighing the centers by it
/// gives `p`.
pub open spec fn interpolates<S: Scalar>(t: S, below: S, above: S, p: S) -> bool {
    hat(t, 0).times_spec(below).plus_spec(hat(t, 1).times_spec(above)) == p
}

/// The coordinate of cell `c` along `axis`.
pub open spec fn coordinate<S: Scalar>(g: Grid<S>, c: int, axis: int) -> S {
    if axis == 0 {
        x_center(g, raw_of(g, c, 0))
    } else if axis == 1 {
        g.y[raw_of(g, c, 1)]
    } else {
        g.z[raw_of(g, c, 2)]
    }
}

/// The center at raw index `m` of `axis`.
pub open spec fn center_along<S: Scalar>(g: Grid<S>, axis: int, m: int) -> S {
    if axis == 0 {
        x_center(g, m)
    } else if axis == 1 {
        g.y[m]
    } else {
        g.z[m]
    }
}

/// The fraction along `axis` places the point exactly between the centers around
/// it.
pub open spec fn places<S: Scalar>(g: Grid<S>, point: Vec3<S>, axis: int) -> bool {
    let b: Bracket<S> = bracket_at(g, point).unwrap();
    interpolates(
        b.t[axis],
        center_along(g, axis, b.lo[axis]),
        center_along(g, axis, b.lo[axis] + 1),
        point[axis],
    )
}

/// Sampling a coordinate at a point gives the coordinate of the point.
proof fn sample_of_coordinate<S: Scalar>(
    mesh: UniformMesh<S>,
    point: Vec3<S>,
    axis: int,
    cells: Seq<S>,
)
    requires
        is_ring::<S>(),
        mesh.valid(),
        0 <= axis < 3,
        bracket_at(mesh.grid(), point) is Some,
        cells.len() == cell_count(mesh.grid()),
        forall|c: int|
            0 <= c < cells.len() ==> #[trigger] cells[c] == coordinate(mesh.grid(), c, axis),
        places(mesh.grid(), point, axis),
    ensures
        sampled(cells, cic_terms(mesh, bracket_at(mesh.grid(), point).unwrap())) == point[axis],
{
    let g: Grid<S> = mesh.grid();
    let b: Bracket<S> = bracket_at(g, point).unwrap();
    let terms: Seq<Term<S>> = cic_terms(mesh, b);
    let (t0, t1, t2): (S, S, S) = (b.t[0], b.t[1], b.t[2]);
    let (a0, a1): (S, S) = (hat(t0, 0), hat(t0, 1));
    let (b0, b1): (S, S) = (hat(t1, 0), hat(t1, 1));
    let m: S = point[axis];
    let v0: S = center_along(g, axis, b.lo[axis]);
    let v1: S = center_along(g, axis, b.lo[axis] + 1);
    sample_of_eight(cells, terms);
    let t = |q: int| terms[q].weight.times_spec(cells[terms[q].cell]);
    assert forall|q: int| 0 <= q < 8 implies #[trigger] t(q) == hat(
        t0,
        first_of(q, 2, 2),
    ).times_spec(hat(t1, second_of(q, 2, 2))).times_spec(hat(t2, third_of(q, 2))).times_spec(
        center_along(
            g,
            axis,
            b.lo[axis] + (if axis == 0 {
                first_of(q, 2, 2)
            } else if axis == 1 {
                second_of(q, 2, 2)
            } else {
                third_of(q, 2)
            }),
        ),
    ) by {
        assert(terms[q] == cic_term(mesh, b, q));
        brackets_are_inside(g, point, q);
    }
    let (p, q, r, s): (S, S, S, S) = (
        a0.times_spec(b0),
        a0.times_spec(b1),
        a1.times_spec(b0),
        a1.times_spec(b1),
    );
    assert(t(0) == t(0) && t(1) == t(1) && t(2) == t(2) && t(3) == t(3));
    assert(t(4) == t(4) && t(5) == t(5) && t(6) == t(6) && t(7) == t(7));
    if axis == 0 {
        split_value(p, t2, v0);
        split_value(q, t2, v0);
        split_value(r, t2, v1);
        split_value(s, t2, v1);
        split_value(a0, t1, v0);
        split_value(a1, t1, v1);
        eight_collapse(
            t,
            p.times_spec(v0),
            q.times_spec(v0),
            r.times_spec(v1),
            s.times_spec(v1),
            a0.times_spec(v0),
            a1.times_spec(v1),
            m,
        );
    } else if axis == 1 {
        split_value(p, t2, v0);
        split_value(q, t2, v1);
        split_value(r, t2, v0);
        split_value(s, t2, v1);
        blend_values(a0, t1, v0, v1, m);
        blend_values(a1, t1, v0, v1, m);
        whole_again(t0, m);
        eight_collapse(
            t,
            p.times_spec(v0),
            q.times_spec(v1),
            r.times_spec(v0),
            s.times_spec(v1),
            a0.times_spec(m),
            a1.times_spec(m),
            m,
        );
    } else {
        blend_values(p, t2, v0, v1, m);
        blend_values(q, t2, v0, v1, m);
        blend_values(r, t2, v0, v1, m);
        blend_values(s, t2, v0, v1, m);
        split_value(a0, t1, m);
        split_value(a1, t1, m);
        whole_again(t0, m);
        eight_collapse(
            t,
            p.times_spec(m),
            q.times_spec(m),
            r.times_spec(m),
            s.times_spec(m),
            a0.times_spec(m),
            a1.times_spec(m),
            m,
        );
    }
}

/// The near and far shares of a quantity make it up.
proof fn whole_again<S: Scalar>(t: S, m: S)
    requires
        is_ring::<S>(),
    ensures
        hat(t, 0).times_spec(m).plus_spec(hat(t, 1).times_spec(m)) == m,
{
    hats_add_up(t);
    times_distributes(m, hat(t, 0), hat(t, 1));
    times_one(m);
}

/// The sample of a sum of fields is the sum of the samples.
proof fn sample_adds<S: Scalar>(cells: Seq<S>, a: Seq<S>, b: Seq<S>, terms: Seq<Term<S>>)
    requires
        is_ring::<S>(),
        terms_inside(terms, cells.len()),
        a.len() == cells.len(),
        b.len() == cells.len(),
        forall|c: int| 0 <= c < cells.len() ==> #[trigger] cells[c] == a[c].plus_spec(b[c]),
    ensures
        sampled(cells, terms) == sampled(a, terms).plus_spec(sampled(b, terms)),
    decreases terms.len(),
{
    if terms.len() == 0 {
        plus_zero(S::zero_spec());
    } else {
        let rest: Seq<Term<S>> = terms.drop_last();
        assert(terms.last() == terms[terms.len() - 1]);
        assert forall|i: int| 0 <= i < rest.len() implies 0 <= (#[trigger] rest[i]).cell
            < cells.len() by {
            assert(rest[i] == terms[i]);
        }
        sample_adds(cells, a, b, rest);
        let w: S = terms.last().weight;
        let c: int = terms.last().cell;
        let (x, y): (S, S) = (sampled(a, rest), sampled(b, rest));
        let (p, q): (S, S) = (w.times_spec(a[c]), w.times_spec(b[c]));
        times_distributes(w, a[c], b[c]);
        // (x + y) + (p + q) is (x + p) + (y + q).
        plus_associates(x, y, p.plus_spec(q));
        plus_associates(y, p, q);
        plus_commutes(y, p);
        plus_associates(p, y, q);
        plus_associates(x, p, y.plus_spec(q));
    }
}

/// The sample of a multiple of a field is the multiple of the sample.
proof fn sample_scales<S: Scalar>(cells: Seq<S>, a: Seq<S>, k: S, terms: Seq<Term<S>>)
    requires
        is_ring::<S>(),
        terms_inside(terms, cells.len()),
        a.len() == cells.len(),
        forall|c: int| 0 <= c < cells.len() ==> #[trigger] cells[c] == k.times_spec(a[c]),
    ensures
        sampled(cells, terms) == k.times_spec(sampled(a, terms)),
    decreases terms.len(),
{
    if terms.len() == 0 {
        times_zero(k);
    } else {
        let rest: Seq<Term<S>> = terms.drop_last();
        assert(terms.last() == terms[terms.len() - 1]);
        assert forall|i: int| 0 <= i < rest.len() implies 0 <= (#[trigger] rest[i]).cell
            < cells.len() by {
            assert(rest[i] == terms[i]);
        }
        sample_scales(cells, a, k, rest);
        let w: S = terms.last().weight;
        let c: int = terms.last().cell;
        times_associates(w, k, a[c]);
        times_commutes(w, k);
        times_associates(k, w, a[c]);
        times_distributes(k, sampled(a, rest), w.times_spec(a[c]));
    }
}

/// The linear field with slopes `kx`, `ky` and `kz`, at coordinates `(x, y, z)`.
pub open spec fn linear_at<S: Scalar>(kx: S, ky: S, kz: S, x: S, y: S, z: S) -> S {
    kx.times_spec(x).plus_spec(ky.times_spec(y)).plus_spec(kz.times_spec(z))
}

/// A gather is exact for linear fields: sampled at the cell centers, such a field
/// has at every point of the mesh the value it has there, wherever the fractions
/// place the point exactly between the centers around it.
pub proof fn gather_is_linearly_exact<S: Scalar>(
    mesh: UniformMesh<S>,
    point: Vec3<S>,
    cells: Seq<S>,
    fallback: S,
    kx: S,
    ky: S,
    kz: S,
)
    requires
        is_ring::<S>(),
        mesh.valid(),
        bracket_at(mesh.grid(), point) is Some,
        cells.len() == cell_count(mesh.grid()),
        forall|c: int|
            0 <= c < cells.len() ==> #[trigger] cells[c] == linear_at(
                kx,
                ky,
                kz,
                coordinate(mesh.grid(), c, 0),
                coordinate(mesh.grid(), c, 1),
                coordinate(mesh.grid(), c, 2),
            ),
        places(mesh.grid(), point, 0),
        places(mesh.grid(), point, 1),
        places(mesh.grid(), point, 2),
    ensures
        gathered_at(mesh, point, cells, fallback) == linear_at(
            kx,
            ky,
            kz,
            point[0],
            point[1],
            point[2],
        ),
{
    let g: Grid<S> = mesh.grid();
    let n: nat = cells.len();
    let b: Bracket<S> = bracket_at(g, point).unwrap();
    let terms: Seq<Term<S>> = cic_terms(mesh, b);
    structured_stencils_share_unity(mesh, seq![point]);
    assert(seq![point][0] == point);
    assert(terms_inside(terms, n));
    let x: Seq<S> = Seq::new(n, |c: int| coordinate(g, c, 0));
    let y: Seq<S> = Seq::new(n, |c: int| coordinate(g, c, 1));
    let z: Seq<S> = Seq::new(n, |c: int| coordinate(g, c, 2));
    sample_of_coordinate(mesh, point, 0, x);
    sample_of_coordinate(mesh, point, 1, y);
    sample_of_coordinate(mesh, point, 2, z);
    let px: Seq<S> = Seq::new(n, |c: int| kx.times_spec(x[c]));
    let py: Seq<S> = Seq::new(n, |c: int| ky.times_spec(y[c]));
    let pz: Seq<S> = Seq::new(n, |c: int| kz.times_spec(z[c]));
    sample_scales(px, x, kx, terms);
    sample_scales(py, y, ky, terms);
    sample_scales(pz, z, kz, terms);
    let pxy: Seq<S> = Seq::new(n, |c: int| px[c].plus_spec(py[c]));
    sample_adds(pxy, px, py, terms);
    sample_adds(cells, pxy, pz, terms);
}

} // verus!
