//! How the levels of a ladder of meshes lie on each other in space, in exact
//! arithmetic.

use crate::decomposition::spans_tile_the_axis;
use crate::extent_laws::divides_evenly;
use crate::extent_laws::halving_is_exact;
use crate::grid::Grid;
use crate::grid::cell_count;
use crate::grid::global_cell;
use crate::grid::inner;
use crate::grid::is_inner_layer;
use crate::grid::is_interior;
use crate::grid::is_sound;
use crate::grid_geometry::cells_lie_between_their_edges;
use crate::grid_geometry::high_end;
use crate::grid_geometry::is_part;
use crate::grid_geometry::low_end;
use crate::grid_laws::is_cell;
use crate::hierarchy::can_halve;
use crate::hierarchy::child_cell;
use crate::hierarchy::child_count;
use crate::hierarchy::child_values;
use crate::hierarchy::children_have_their_parent;
use crate::hierarchy::coarse_index_is_inside;
use crate::hierarchy::coarsened;
use crate::hierarchy::inner_joins;
use crate::hierarchy::inner_splits;
use crate::hierarchy::interior_index;
use crate::hierarchy::is_nested;
use crate::hierarchy::ladder_levels_are_nested;
use crate::hierarchy::ladder_obstacle;
use crate::hierarchy::level_domain;
use crate::hierarchy::odd_axis;
use crate::hierarchy::parent_cell;
use crate::hierarchy::prolonged;
use crate::hierarchy::ratio_of;
use crate::hierarchy::restricted;
use crate::hierarchy::serial_grid;
use crate::hierarchy::serial_position;
use crate::partition::domain_edges;
use crate::placement_laws::counts_add;
use crate::placement_laws::counts_exactly;
use crate::scalar::Scalar;
use crate::scalar::is_ring;
use crate::scalar::times_distributes;
use crate::uniform::Domain;
use crate::uniform::UniformMesh;
use crate::uniform::part_of;
use vstd::arithmetic::div_mod::lemma_fundamental_div_mod;
use vstd::arithmetic::div_mod::lemma_mod_bound;
use vstd::prelude::*;

verus! {

/// All levels of a ladder cover the same domain, with the same ghost layers.
pub proof fn levels_share_the_domain<S: Scalar>(d: Domain<S>, l: int)
    ensures
        level_domain(d, l).lo == d.lo,
        level_domain(d, l).hi == d.hi,
        level_domain(d, l).ng == d.ng,
    decreases l,
{
    if l > 0 {
        levels_share_the_domain(d, l - 1);
    }
}

/// How many cells of a level lie in a cell of the next one along an axis of `n`
/// cells: two, or one where the axis has a single cell.
pub open spec fn halving_ratio(n: int) -> int {
    if n == 1 {
        1
    } else {
        2
    }
}

/// Dividing by the count `n` is undone by multiplying with it, and the other way
/// round.
pub open spec fn divides_exactly<S: Scalar>(n: int) -> bool {
    let w: S = S::count_spec(n);
    &&& forall|x: S| (#[trigger] x.over_spec(w)).times_spec(w) == x
    &&& forall|x: S| (#[trigger] x.times_spec(w)).over_spec(w) == x
}

/// The share `i` of `m` of a length is the share `2 i` of `2 m`.
proof fn shares_agree<S: Scalar>(length: S, i: int, m: int)
    requires
        is_ring::<S>(),
        counts_exactly::<S>(),
        divides_exactly::<S>(m),
        divides_exactly::<S>(2 * m),
    ensures
        S::count_spec(i).times_spec(length).over_spec(S::count_spec(m)) == S::count_spec(
            2 * i,
        ).times_spec(length).over_spec(S::count_spec(2 * m)),
{
    let (ci, cm): (S, S) = (S::count_spec(i), S::count_spec(m));
    let part: S = ci.times_spec(length);
    let x: S = part.over_spec(cm);
    assert(x.times_spec(cm) == part);
    counts_add::<S>(i, i);
    counts_add::<S>(m, m);
    assert(i + i == 2 * i && m + m == 2 * m);
    times_distributes(length, ci, ci);
    times_distributes(x, cm, cm);
    assert(x.times_spec(S::count_spec(2 * m)) == S::count_spec(2 * i).times_spec(length));
    assert(x.times_spec(S::count_spec(2 * m)).over_spec(S::count_spec(2 * m)) == x);
}

/// The cells of the coarser level are made of whole cells of the finer one: along
/// each axis, the coarse edge `i` is the fine edge with the number `i` times the
/// ratio of the levels, and the last edges are the same.
pub proof fn coarse_edges_are_fine_edges<S: Scalar>(d: Domain<S>, axis: int, i: int)
    requires
        is_ring::<S>(),
        counts_exactly::<S>(),
        odd_axis(d) is None,
        d.nx >= 1 && d.ny >= 1 && d.nz >= 1,
        d.edges_match(),
        0 <= axis < 3,
        divides_exactly::<S>(d.counts()[axis]),
        divides_exactly::<S>(coarsened(d).counts()[axis]),
        0 <= i <= coarsened(d).counts()[axis],
    ensures
        ({
            let (n, m): (int, int) = (d.counts()[axis], coarsened(d).counts()[axis]);
            let r: int = halving_ratio(n);
            &&& m * r == n
            &&& domain_edges(coarsened(d), axis).len() == m + 1
            &&& domain_edges(coarsened(d), axis)[i] == domain_edges(d, axis)[r * i]
        }),
{
    let (n, m): (int, int) = (d.counts()[axis], coarsened(d).counts()[axis]);
    assert(can_halve(d.nx) && can_halve(d.ny) && can_halve(d.nz));
    if n > 1 {
        assert(2 * m == n);
        if i < m {
            shares_agree(d.hi[axis].minus_spec(d.lo[axis]), i, m);
        }
    }
}

/// The fine cell lies in the coarse cell: along every axis, the coarse cell runs from
/// one edge of the finer level to another, and the fine cell lies between two edges
/// from the one to the other.
pub open spec fn lies_in<S: Scalar>(
    d: Domain<S>,
    fine: UniformMesh<S>,
    coarse: UniformMesh<S>,
    c: int,
    e: int,
    axis: int,
    from: int,
    to: int,
) -> bool {
    let edges: Seq<S> = domain_edges(d, axis);
    let n: int = global_cell(fine.grid(), c)[axis];
    &&& 0 <= from <= n < to < edges.len()
    &&& low_end(coarse, e, axis) == edges[from]
    &&& high_end(coarse, e, axis) == edges[to]
    &&& low_end(fine, c, axis) == edges[n]
    &&& high_end(fine, c, axis) == edges[n + 1]
}

/// What a fine cell is given by prolongation is the value of the coarse cell in which
/// it lies in space, along all three axes. Cells that the rank does not own keep
/// their values.
pub proof fn prolonged_values_come_from_the_cell_around<S: Scalar>(
    d: Domain<S>,
    fine: UniformMesh<S>,
    coarse: UniformMesh<S>,
    x: Seq<S>,
    before: Seq<S>,
    c: int,
) -> (e: int)
    requires
        is_ring::<S>(),
        halving_is_exact::<S>(),
        counts_exactly::<S>(),
        odd_axis(d) is None,
        d.edges_match(),
        coarsened(d).edges_match(),
        divides_evenly(d),
        divides_evenly(coarsened(d)),
        forall|a: int| 0 <= a < 3 ==> divides_exactly::<S>(#[trigger] d.counts()[a]),
        forall|a: int| 0 <= a < 3 ==> divides_exactly::<S>(#[trigger] coarsened(d).counts()[a]),
        is_part(fine, d, serial_grid(), serial_position()),
        is_part(coarse, coarsened(d), serial_grid(), serial_position()),
        before.len() == cell_count(fine.grid()),
        0 <= c < cell_count(fine.grid()),
    ensures
        is_interior(fine.grid(), c) ==> {
            &&& 0 <= e < cell_count(coarse.grid())
            &&& is_interior(coarse.grid(), e)
            &&& prolonged(fine.grid(), coarse.grid(), x, before)[c] == x[e]
            &&& forall|a: int| #[trigger]
                is_axis(a) ==> exists|from: int, to: int|
                    lies_in(d, fine, coarse, c, e, a, from, to)
        },
        !is_interior(fine.grid(), c) ==> prolonged(fine.grid(), coarse.grid(), x, before)[c]
            == before[c],
{
    let (f, g): (Grid<S>, Grid<S>) = (fine.grid(), coarse.grid());
    let e: int = parent_cell(f, g, c);
    if is_interior(f, c) {
        assert(serial_grid()[0] == 1 && serial_grid()[1] == 1 && serial_grid()[2] == 1);
        ladder_levels_are_nested(d);
        inner_joins(f, c);
        let (i, j, k): (int, int, int) = (
            interior_index(f, c, 0),
            interior_index(f, c, 1),
            interior_index(f, c, 2),
        );
        coarse_index_is_inside(f, g, i, 0);
        coarse_index_is_inside(f, g, j, 1);
        coarse_index_is_inside(f, g, k, 2);
        let (ci, cj, ck): (int, int, int) = (
            i / ratio_of(f, g, 0),
            j / ratio_of(f, g, 1),
            k / ratio_of(f, g, 2),
        );
        assert(is_cell(g, ci, cj, ck));
        inner_splits(g, ci, cj, ck);
        assert(e == inner(g, ci, cj, ck));
        cell_lies_in(d, fine, coarse, c, e, 0);
        cell_lies_in(d, fine, coarse, c, e, 1);
        cell_lies_in(d, fine, coarse, c, e, 2);
        assert forall|a: int| #[trigger] is_axis(a) implies exists|from: int, to: int|
            lies_in(d, fine, coarse, c, e, a, from, to) by {
            if a == 0 {
            } else if a == 1 {
            } else {
                assert(a == 2);
            }
        }
    }
    e
}

/// The number of an axis.
pub open spec fn is_axis(a: int) -> bool {
    0 <= a < 3
}

/// Along one axis.
proof fn cell_lies_in<S: Scalar>(
    d: Domain<S>,
    fine: UniformMesh<S>,
    coarse: UniformMesh<S>,
    c: int,
    e: int,
    axis: int,
)
    requires
        is_ring::<S>(),
        halving_is_exact::<S>(),
        counts_exactly::<S>(),
        odd_axis(d) is None,
        d.edges_match(),
        divides_evenly(d),
        divides_evenly(coarsened(d)),
        0 <= axis < 3,
        divides_exactly::<S>(d.counts()[axis]),
        divides_exactly::<S>(coarsened(d).counts()[axis]),
        is_part(fine, d, serial_grid(), serial_position()),
        is_part(coarse, coarsened(d), serial_grid(), serial_position()),
        is_interior(fine.grid(), c),
        is_interior(coarse.grid(), e),
        interior_index(coarse.grid(), e, axis) == interior_index(fine.grid(), c, axis) / ratio_of(
            fine.grid(),
            coarse.grid(),
            axis,
        ),
    ensures
        exists|from: int, to: int| lies_in(d, fine, coarse, c, e, axis, from, to),
{
    let (f, g): (Grid<S>, Grid<S>) = (fine.grid(), coarse.grid());
    assert(serial_grid()[0] == 1 && serial_grid()[1] == 1 && serial_grid()[2] == 1);
    ladder_levels_are_nested(d);
    let n: int = d.counts()[axis];
    let r: int = halving_ratio(n);
    assert(ratio_of(f, g, axis) == r);
    cells_lie_between_their_edges(fine, d, serial_grid(), serial_position(), c, axis);
    cells_lie_between_their_edges(coarse, coarsened(d), serial_grid(), serial_position(), e, axis);
    let (a, i): (int, int) = (interior_index(f, c, axis), interior_index(g, e, axis));
    assert(is_inner_layer(g, axis, i + g.ng));
    only_part_starts_first(d, axis);
    only_part_starts_first(coarsened(d), axis);
    assert(global_cell(f, c)[axis] == a);
    assert(global_cell(g, e)[axis] == i);
    coarse_edges_are_fine_edges(d, axis, i);
    coarse_edges_are_fine_edges(d, axis, i + 1);
    lemma_fundamental_div_mod(a, r);
    lemma_mod_bound(a, r);
    assert(r * (i + 1) == r * i + r) by (nonlinear_arith);
    assert(r * i <= a < r * (i + 1));
    assert(r * (i + 1) <= n) by {
        assert(r == 1 || r == 2);
    }
    assert(lies_in(d, fine, coarse, c, e, axis, r * i, r * (i + 1)));
}

/// The only part starts at the first cell.
proof fn only_part_starts_first<S: Scalar>(d: Domain<S>, axis: int)
    requires
        0 <= axis < 3,
    ensures
        part_of(d, serial_grid(), serial_position()).offset[axis] == 0,
{
    spans_tile_the_axis(d.counts()[axis], 1);
}

/// Restriction gives a coarse cell what it makes of the fine cells that lie in it:
/// fields that agree there restrict to the same value, and coarse cells that the rank
/// does not own keep theirs.
pub proof fn restriction_reads_the_cells_inside<S: Scalar>(
    fine: Grid<S>,
    coarse: Grid<S>,
    x: Seq<S>,
    y: Seq<S>,
    before: Seq<S>,
    e: int,
)
    requires
        is_sound(fine),
        is_sound(coarse),
        is_nested(fine, coarse),
        before.len() == cell_count(coarse),
        0 <= e < cell_count(coarse),
        forall|c: int|
            0 <= c < cell_count(fine) && is_interior(fine, c) && #[trigger] parent_cell(
                fine,
                coarse,
                c,
            ) == e ==> x[c] == y[c],
    ensures
        restricted(fine, coarse, x, before)[e] == restricted(fine, coarse, y, before)[e],
        !is_interior(coarse, e) ==> restricted(fine, coarse, x, before)[e] == before[e],
{
    if is_interior(coarse, e) {
        inner_joins(coarse, e);
        let (i, j, k): (int, int, int) = (
            interior_index(coarse, e, 0),
            interior_index(coarse, e, 1),
            interior_index(coarse, e, 2),
        );
        let (a, b): (Seq<S>, Seq<S>) = (
            child_values(fine, coarse, x, i, j, k),
            child_values(fine, coarse, y, i, j, k),
        );
        assert forall|q: int| 0 <= q < child_count(fine, coarse) implies #[trigger] a[q]
            == b[q] by {
            children_have_their_parent(fine, coarse, i, j, k, q);
            assert(parent_cell(fine, coarse, child_cell(fine, coarse, i, j, k, q)) == e);
        }
        assert(a =~= b);
    }
}

/// The cells along the named axis.
pub open spec fn cells_along<S: Scalar>(d: Domain<S>, name: char) -> nat {
    if name == 'x' {
        d.nx
    } else if name == 'y' {
        d.ny
    } else {
        d.nz
    }
}

/// What is in the way of a ladder is an odd number of cells, more than one, of the
/// axis named, at the first level that cannot be halved; without an obstacle every
/// axis has, at every level to be halved, a single cell or an even number.
pub proof fn obstacles_are_odd_counts<S: Scalar>(d: Domain<S>, times: int)
    ensures
        match ladder_obstacle(d, times) {
            Some((n, name)) => exists|l: int|
                #![trigger level_domain(d, l)]
                {
                    &&& 0 <= l < times
                    &&& ladder_obstacle(d, l) is None
                    &&& name == 'x' || name == 'y' || name == 'z'
                    &&& n == cells_along(level_domain(d, l), name)
                    &&& n > 1 && n % 2 == 1
                },
            None => forall|l: int, name: char|
                0 <= l < times && (name == 'x' || name == 'y' || name == 'z') ==> {
                    let n: nat = #[trigger] cells_along(level_domain(d, l), name);
                    n <= 1 || n % 2 == 0
                },
        },
    decreases times,
{
    if times > 0 {
        obstacles_are_odd_counts(d, times - 1);
        if ladder_obstacle(d, times - 1) is None {
            let last: Domain<S> = level_domain(d, times - 1);
            assert(ladder_obstacle(d, times) == odd_axis(last));
            assert(cells_along(last, 'x') == last.nx);
        }
    }
}

} // verus!
