//! Where the cells and the faces of a part of a grid lie in space, in exact
//! arithmetic.

use crate::decomposition::span_count;
use crate::decomposition::span_is_inside;
use crate::decomposition::span_start;
use crate::decomposition::spans_are_balanced;
use crate::decomposition::spans_tile_the_axis;
use crate::extent_laws::divides_evenly;
use crate::extent_laws::halving_is_exact;
use crate::extent_laws::is_within;
use crate::extent_laws::midpoint;
use crate::extent_laws::x_centers_are_midpoints;
use crate::extent_laws::x_edges_are_steps;
use crate::grid::Grid;
use crate::grid::beside;
use crate::grid::cell_count;
use crate::grid::cell_faces;
use crate::grid::global_cell;
use crate::grid::high_face;
use crate::grid::inner;
use crate::grid::interior_count;
use crate::grid::is_inner_layer;
use crate::grid::is_interior;
use crate::grid::local_edge;
use crate::grid::low_face;
use crate::grid::neighbor_rank;
use crate::grid::pick;
use crate::grid::raw_of;
use crate::grid::total_count;
use crate::grid::x_center;
use crate::grid_laws::beside_splits;
use crate::grid_laws::cell_face_kinds;
use crate::grid_laws::every_cell_has_raw_indices;
use crate::grid_laws::face_at;
use crate::grid_laws::is_cell;
use crate::grid_laws::numbered_is_cell;
use crate::halves::difference_is;
use crate::halves::ends_are_apart;
use crate::halves::ends_of_midpoint;
use crate::halves::half_step_back;
use crate::halves::negated_product_cancels;
use crate::index::first_of;
use crate::index::second_of;
use crate::index::third_of;
use crate::mesh::Face;
use crate::mesh::FvMesh;
use crate::mesh::StructuredMesh;
use crate::partition::domain_edges;
use crate::partition::rank_is_flat;
use crate::partition::splits;
use crate::placement_laws::centers_step;
use crate::placement_laws::counts_add;
use crate::placement_laws::counts_exactly;
use crate::placement_laws::difference_of_sum;
use crate::scalar::Scalar;
use crate::scalar::counts_up;
use crate::scalar::is_ring;
use crate::scalar::minus_restores;
use crate::scalar::plus_associates;
use crate::scalar::plus_commutes;
use crate::scalar::plus_zero;
use crate::scalar::times_associates;
use crate::scalar::times_commutes;
use crate::scalar::times_distributes;
use crate::scalar::times_one;
use crate::scalar::times_zero;
use crate::uniform::Domain;
use crate::uniform::UniformMesh;
use crate::uniform::part_of;
use vstd::prelude::*;

verus! {

/// The mesh is that of the part at `pos` of the split domain.
pub open spec fn is_part<S: Scalar>(
    m: UniformMesh<S>,
    cfg: Domain<S>,
    decomp: Seq<int>,
    pos: Seq<int>,
) -> bool {
    &&& m.valid()
    &&& m.grid() == part_of(cfg, decomp, pos)
    &&& splits(cfg, decomp)
    &&& is_within(decomp, pos)
}

/// How wide cell `c` is along `axis`.
pub open spec fn breadth<S: Scalar>(m: UniformMesh<S>, c: int, axis: int) -> S {
    m.width_of(axis, raw_of(m.grid(), c, axis) - m.ghosts())
}

/// Where cell `c` starts along `axis`.
pub open spec fn low_end<S: Scalar>(m: UniformMesh<S>, c: int, axis: int) -> S {
    m.centroid_of(c)[axis].minus_spec(breadth(m, c, axis).halved_spec())
}

/// Where cell `c` ends along `axis`.
pub open spec fn high_end<S: Scalar>(m: UniformMesh<S>, c: int, axis: int) -> S {
    m.centroid_of(c)[axis].plus_spec(breadth(m, c, axis).halved_spec())
}

/// Along y and z the ends of a cell are the edges on either side of it, those of the
/// ghost layers included.
proof fn ends_are_edges<S: Scalar>(
    m: UniformMesh<S>,
    cfg: Domain<S>,
    decomp: Seq<int>,
    pos: Seq<int>,
    c: int,
    axis: int,
)
    requires
        is_ring::<S>(),
        halving_is_exact::<S>(),
        is_part(m, cfg, decomp, pos),
        axis == 1 || axis == 2,
        0 <= raw_of(m.grid(), c, axis) < total_count(m.grid(), axis),
    ensures
        ({
            let g: Grid<S> = m.grid();
            let (e, first): (Seq<S>, int) = (domain_edges(cfg, axis), g.offset[axis]);
            let (n, r): (int, int) = (interior_count(g, axis), raw_of(g, c, axis));
            &&& low_end(m, c, axis) == local_edge(e, first, n, g.ng, r)
            &&& high_end(m, c, axis) == local_edge(e, first, n, g.ng, r + 1)
            &&& breadth(m, c, axis) == local_edge(e, first, n, g.ng, r + 1).minus_spec(
                local_edge(e, first, n, g.ng, r),
            )
        }),
{
    let g: Grid<S> = m.grid();
    let (e, first): (Seq<S>, int) = (domain_edges(cfg, axis), g.offset[axis]);
    let (n, r): (int, int) = (interior_count(g, axis), raw_of(g, c, axis));
    let (a, b): (S, S) = (
        local_edge(e, first, n, g.ng, r),
        local_edge(e, first, n, g.ng, r + 1),
    );
    assert(m.centroid_of(c)[axis] == midpoint(a, b));
    assert(breadth(m, c, axis) == b.minus_spec(a));
    ends_of_midpoint(a, b);
}

/// Where the counts add, they count up.
proof fn exact_counts_count_up<S: Scalar>()
    requires
        counts_exactly::<S>(),
    ensures
        counts_up::<S>(),
{
    reveal(counts_exactly);
    assert forall|n: int| 0 <= n implies #[trigger] S::count_spec(n + 1) == S::count_spec(
        n,
    ).plus_spec(S::one_spec()) by {
        counts_add::<S>(n, 1);
    }
}

/// An owned cell lies between the two edges of the domain with its number: it starts
/// at the one and ends at the next, along every axis.
pub proof fn cells_lie_between_their_edges<S: Scalar>(
    m: UniformMesh<S>,
    cfg: Domain<S>,
    decomp: Seq<int>,
    pos: Seq<int>,
    c: int,
    axis: int,
)
    requires
        is_ring::<S>(),
        halving_is_exact::<S>(),
        counts_exactly::<S>(),
        divides_evenly(cfg),
        is_part(m, cfg, decomp, pos),
        is_interior(m.grid(), c),
        0 <= axis < 3,
    ensures
        ({
            let n: int = global_cell(m.grid(), c)[axis];
            &&& 0 <= n < cfg.counts()[axis]
            &&& low_end(m, c, axis) == domain_edges(cfg, axis)[n]
            &&& high_end(m, c, axis) == domain_edges(cfg, axis)[n + 1]
        }),
{
    let g: Grid<S> = m.grid();
    let r: int = raw_of(g, c, axis);
    assert(is_inner_layer(g, axis, r));
    span_is_inside(cfg.counts()[axis], decomp[axis], pos[axis]);
    if axis == 0 {
        exact_counts_count_up::<S>();
        let i: int = r - g.ng;
        let n: int = g.offset[0] + i;
        x_centers_are_midpoints(cfg, decomp, pos, i);
        x_edges_are_steps(cfg, n);
        x_edges_are_steps(cfg, n + 1);
        let (lo, dx): (S, S) = (cfg.lo[0], g.dx);
        let steps: S = S::count_spec(n).times_spec(dx);
        assert(S::count_spec(n + 1) == S::count_spec(n).plus_spec(S::one_spec()));
        times_distributes(dx, S::count_spec(n), S::one_spec());
        times_one(dx);
        plus_associates(lo, steps, dx);
        let (a, b): (S, S) = (domain_edges(cfg, 0)[n], domain_edges(cfg, 0)[n + 1]);
        assert(b == a.plus_spec(dx));
        difference_of_sum(a, dx);
        ends_of_midpoint(a, b);
    } else {
        ends_are_edges(m, cfg, decomp, pos, c, axis);
    }
}

/// Cells next to each other along an axis abut, in the ghost layers too: the one ends
/// where the other starts.
pub proof fn cells_abut<S: Scalar>(
    m: UniformMesh<S>,
    cfg: Domain<S>,
    decomp: Seq<int>,
    pos: Seq<int>,
    c: int,
    d: int,
    axis: int,
)
    requires
        is_ring::<S>(),
        halving_is_exact::<S>(),
        counts_exactly::<S>(),
        is_part(m, cfg, decomp, pos),
        0 <= c < cell_count(m.grid()),
        0 <= d < cell_count(m.grid()),
        0 <= axis < 3,
        global_cell(m.grid(), d)[axis] == global_cell(m.grid(), c)[axis] + 1,
    ensures
        high_end(m, c, axis) == low_end(m, d, axis),
{
    let g: Grid<S> = m.grid();
    every_cell_has_raw_indices(g, c);
    every_cell_has_raw_indices(g, d);
    if axis == 0 {
        let i: int = raw_of(g, c, 0);
        let (a, b): (S, S) = (x_center(g, i), x_center(g, i + 1));
        centers_step(g, i);
        minus_restores(b, a);
        plus_commutes(g.dx, a);
        // Half a width under the next center is half a width above this one.
        half_step_back(a, g.dx);
        half_step_back(a.plus_spec(g.dx.halved_spec()), g.dx);
    } else {
        ends_are_edges(m, cfg, decomp, pos, c, axis);
        ends_are_edges(m, cfg, decomp, pos, d, axis);
    }
}

/// One step further out from `from` the edge below is one width lower.
proof fn step_down<S: Scalar>(from: S, w: S, k: int)
    requires
        is_ring::<S>(),
        counts_exactly::<S>(),
    ensures
        from.minus_spec(S::count_spec(k).times_spec(w)).minus_spec(
            from.minus_spec(S::count_spec(k + 1).times_spec(w)),
        ) == w,
{
    let p: S = S::count_spec(k).times_spec(w);
    counts_add::<S>(k, 1);
    reveal(counts_exactly);
    times_distributes(w, S::count_spec(k), S::one_spec());
    times_one(w);
    let below: S = from.minus_spec(p.plus_spec(w));
    minus_restores(from, p.plus_spec(w));
    plus_commutes(p, w);
    plus_associates(below, w, p);
    difference_is(from, p, below.plus_spec(w));
    difference_of_sum(below, w);
}

/// A ghost cell is as wide, along every axis, as the owned cell next to the ghost
/// layers on its side.
pub proof fn ghost_cells_repeat_the_outermost<S: Scalar>(
    m: UniformMesh<S>,
    cfg: Domain<S>,
    decomp: Seq<int>,
    pos: Seq<int>,
    c: int,
    d: int,
    axis: int,
)
    requires
        is_ring::<S>(),
        halving_is_exact::<S>(),
        counts_exactly::<S>(),
        is_part(m, cfg, decomp, pos),
        0 <= c < cell_count(m.grid()),
        0 <= d < cell_count(m.grid()),
        0 <= axis < 3,
        ({
            let g: Grid<S> = m.grid();
            let (r, s): (int, int) = (raw_of(g, c, axis), raw_of(g, d, axis));
            ||| r < g.ng && s == g.ng
            ||| g.ng + interior_count(g, axis) <= r && s == g.ng + interior_count(g, axis) - 1
        }),
    ensures
        breadth(m, c, axis) == breadth(m, d, axis),
{
    let g: Grid<S> = m.grid();
    every_cell_has_raw_indices(g, c);
    every_cell_has_raw_indices(g, d);
    if axis != 0 {
        ends_are_edges(m, cfg, decomp, pos, c, axis);
        ends_are_edges(m, cfg, decomp, pos, d, axis);
        let n: int = interior_count(g, axis);
        spans_are_balanced(cfg.counts()[axis], decomp[axis], pos[axis], pos[axis]);
        let (e, first): (Seq<S>, int) = (domain_edges(cfg, axis), g.offset[axis]);
        let r: int = raw_of(g, c, axis);
        let z: S = S::zero_spec();
        assert(S::count_spec(0) == z && S::count_spec(1) == S::one_spec()) by {
            reveal(counts_exactly);
        }
        if r < g.ng {
            let (from, w): (S, S) = (e[first], e[first + 1].minus_spec(e[first]));
            step_down(from, w, g.ng - r - 1);
            times_zero(w);
            plus_zero(from);
            difference_is(from, z, from);
        } else {
            let (from, w): (S, S) = (e[first + n], e[first + n].minus_spec(e[first + n - 1]));
            let k: int = r - g.ng - n;
            let p: S = S::count_spec(k).times_spec(w);
            counts_add::<S>(k, 1);
            times_distributes(w, S::count_spec(k), S::one_spec());
            times_one(w);
            plus_associates(from, p, w);
            times_zero(w);
            plus_zero(from);
            assert(local_edge(e, first, n, g.ng, r) == from.plus_spec(p));
            difference_of_sum(from.plus_spec(p), w);
        }
    }
}

/// The volume of a cell, owned or ghost, is the product of its extents from end to
/// end along x, y and z.
pub proof fn volumes_are_products_of_extents<S: Scalar>(m: UniformMesh<S>, c: int)
    requires
        is_ring::<S>(),
        halving_is_exact::<S>(),
        m.valid(),
        0 <= c < cell_count(m.grid()),
    ensures
        m.volume_of(c) == high_end(m, c, 0).minus_spec(low_end(m, c, 0)).times_spec(
            high_end(m, c, 1).minus_spec(low_end(m, c, 1)),
        ).times_spec(high_end(m, c, 2).minus_spec(low_end(m, c, 2))),
{
    every_cell_has_raw_indices(m.grid(), c);
    ends_are_apart(m.centroid_of(c)[0], breadth(m, c, 0));
    ends_are_apart(m.centroid_of(c)[1], breadth(m, c, 1));
    ends_are_apart(m.centroid_of(c)[2], breadth(m, c, 2));
}

/// The face lies on the plane across `axis` in which its owner ends and its other
/// cell starts, or the other way round, in the middle of both cells along the other
/// axes. Its normal is along `axis` alone, leads to the other cell, and spans with
/// the breadth of the owner the volume of the owner.
pub open spec fn lies_between<S: Scalar>(
    m: UniformMesh<S>,
    f: Face<S>,
    axis: int,
    high: bool,
) -> bool {
    let (o, t): (int, int) = (f.owner as int, f.other as int);
    let swept: S = f.area_normal[axis].times_spec(breadth(m, o, axis));
    &&& forall|a: int|
        0 <= a < 3 ==> (#[trigger] global_cell(m.grid(), t)[a]) == global_cell(m.grid(), o)[a]
            + (if a == axis {
            if high {
                1int
            } else {
                -1int
            }
        } else {
            0int
        })
    &&& if high {
        f.centroid[axis] == high_end(m, o, axis) && f.centroid[axis] == low_end(m, t, axis)
    } else {
        f.centroid[axis] == low_end(m, o, axis) && f.centroid[axis] == high_end(m, t, axis)
    }
    &&& forall|a: int|
        0 <= a < 3 && a != axis ==> {
            &&& (#[trigger] f.centroid[a]) == m.centroid_of(o)[a]
            &&& f.centroid[a] == m.centroid_of(t)[a]
            &&& f.area_normal[a] == S::zero_spec()
        }
    &&& if high {
        swept == m.volume_of(o)
    } else {
        m.volume_of(o).plus_spec(swept) == S::zero_spec()
    }
}

/// Every face of the mesh of a part lies between its two cells: on the plane that
/// they share, with a normal from the one to the other whose length is the area of
/// the cells there. It is a boundary face, of the side it lies on, exactly where the
/// other cell is outside of the domain.
pub proof fn faces_lie_between_their_cells<S: Scalar>(
    m: UniformMesh<S>,
    cfg: Domain<S>,
    decomp: Seq<int>,
    pos: Seq<int>,
    p: int,
) -> (r: (int, bool))
    requires
        is_ring::<S>(),
        halving_is_exact::<S>(),
        counts_exactly::<S>(),
        is_part(m, cfg, decomp, pos),
        1 <= cfg.ng,
        0 <= p < m.face_list().len(),
    ensures
        0 <= r.0 < 3,
        is_interior(m.grid(), m.face_list()[p].owner as int),
        lies_between(m, m.face_list()[p], r.0, r.1),
        ({
            let f: Face<S> = m.face_list()[p];
            let n: int = global_cell(m.grid(), f.other as int)[r.0];
            f.patch == (if n < 0 {
                Some((2 * r.0) as u32)
            } else if n >= cfg.counts()[r.0] {
                Some((2 * r.0 + 1) as u32)
            } else {
                None
            })
        }),
{
    let g: Grid<S> = m.grid();
    let (cell, x): (int, int) = face_at(g, g.ni * g.nj * g.nk, p);
    numbered_is_cell(g, cell);
    let (i, j, k): (int, int, int) = (
        first_of(cell, g.nj, g.nk),
        second_of(cell, g.nj, g.nk),
        third_of(cell, g.nk),
    );
    let (axis, high): (int, bool) = cell_face_kinds(g, i, j, k, x);
    let f: Face<S> = m.face_list()[p];
    assert(f == cell_faces(g, i, j, k)[x]);
    if high {
        high_faces_lie_between(m, cfg, decomp, pos, i, j, k, axis);
    } else {
        low_faces_lie_between(m, cfg, decomp, pos, i, j, k, axis);
    }
    (axis, high)
}

/// The high face of an owned cell.
proof fn high_faces_lie_between<S: Scalar>(
    m: UniformMesh<S>,
    cfg: Domain<S>,
    decomp: Seq<int>,
    pos: Seq<int>,
    i: int,
    j: int,
    k: int,
    axis: int,
)
    requires
        is_ring::<S>(),
        halving_is_exact::<S>(),
        counts_exactly::<S>(),
        is_part(m, cfg, decomp, pos),
        1 <= cfg.ng,
        is_cell(m.grid(), i, j, k),
        0 <= axis < 3,
    ensures
        ({
            let f: Face<S> = high_face(m.grid(), i, j, k, axis);
            let n: int = global_cell(m.grid(), f.other as int)[axis];
            &&& is_interior(m.grid(), f.owner as int)
            &&& lies_between(m, f, axis, true)
            &&& f.patch == (if n < 0 {
                Some((2 * axis) as u32)
            } else if n >= cfg.counts()[axis] {
                Some((2 * axis + 1) as u32)
            } else {
                None
            })
        }),
{
    let g: Grid<S> = m.grid();
    let f: Face<S> = high_face(g, i, j, k, axis);
    beside_splits(g, i, j, k, axis, 0);
    beside_splits(g, i, j, k, axis, 1);
    let (o, t): (int, int) = (inner(g, i, j, k), beside(g, i, j, k, axis, 1));
    cells_abut(m, cfg, decomp, pos, o, t, axis);
    area_sweeps_the_volume(m, f, o, axis, true);
    assert(lies_between(m, f, axis, true)) by {
        assert forall|a: int| 0 <= a < 3 && a != axis implies {
            &&& (#[trigger] f.centroid[a]) == m.centroid_of(o)[a]
            &&& f.centroid[a] == m.centroid_of(t)[a]
            &&& f.area_normal[a] == S::zero_spec()
        } by {}
    }
    let (n, at): (int, int) = (cfg.counts()[axis], pos[axis]);
    neighbors_are_inside(cfg, decomp, pos, axis);
    assert(g.neighbor[2 * axis + 1] == neighbor_rank(decomp, pos, 2 * axis + 1));
    assert(g.offset[axis] == span_start(n, decomp[axis], at));
}

/// The low face of an owned cell at the low end.
proof fn low_faces_lie_between<S: Scalar>(
    m: UniformMesh<S>,
    cfg: Domain<S>,
    decomp: Seq<int>,
    pos: Seq<int>,
    i: int,
    j: int,
    k: int,
    axis: int,
)
    requires
        is_ring::<S>(),
        halving_is_exact::<S>(),
        counts_exactly::<S>(),
        is_part(m, cfg, decomp, pos),
        1 <= cfg.ng,
        is_cell(m.grid(), i, j, k),
        0 <= axis < 3,
        pick(i, j, k, axis) == 0,
    ensures
        ({
            let f: Face<S> = low_face(m.grid(), i, j, k, axis);
            let n: int = global_cell(m.grid(), f.other as int)[axis];
            &&& is_interior(m.grid(), f.owner as int)
            &&& lies_between(m, f, axis, false)
            &&& f.patch == (if n < 0 {
                Some((2 * axis) as u32)
            } else if n >= cfg.counts()[axis] {
                Some((2 * axis + 1) as u32)
            } else {
                None
            })
        }),
{
    let g: Grid<S> = m.grid();
    let f: Face<S> = low_face(g, i, j, k, axis);
    beside_splits(g, i, j, k, axis, 0);
    beside_splits(g, i, j, k, axis, -1);
    let (o, t): (int, int) = (inner(g, i, j, k), beside(g, i, j, k, axis, -1));
    cells_abut(m, cfg, decomp, pos, t, o, axis);
    area_sweeps_the_volume(m, f, o, axis, false);
    assert(lies_between(m, f, axis, false)) by {
        assert forall|a: int| 0 <= a < 3 && a != axis implies {
            &&& (#[trigger] f.centroid[a]) == m.centroid_of(o)[a]
            &&& f.centroid[a] == m.centroid_of(t)[a]
            &&& f.area_normal[a] == S::zero_spec()
        } by {}
    }
    let (n, at): (int, int) = (cfg.counts()[axis], pos[axis]);
    neighbors_are_inside(cfg, decomp, pos, axis);
    assert(g.neighbor[2 * axis] == neighbor_rank(decomp, pos, 2 * axis));
    assert(g.offset[axis] == span_start(n, decomp[axis], at));
}

/// A part that starts after the first cell of the axis has a neighbor below it, and
/// one that ends before the last cell a neighbor above it.
proof fn neighbors_are_inside<S: Scalar>(
    cfg: Domain<S>,
    decomp: Seq<int>,
    pos: Seq<int>,
    axis: int,
)
    requires
        splits(cfg, decomp),
        is_within(decomp, pos),
        0 <= axis < 3,
    ensures
        ({
            let n: int = cfg.counts()[axis];
            let (first, count): (int, int) = (
                span_start(n, decomp[axis], pos[axis]),
                span_count(n, decomp[axis], pos[axis]),
            );
            &&& 0 <= first && 0 < count && first + count <= n
            &&& first == 0 <==> neighbor_rank(decomp, pos, 2 * axis) < 0
            &&& first + count == n <==> neighbor_rank(decomp, pos, 2 * axis + 1) < 0
        }),
{
    let (n, at): (int, int) = (cfg.counts()[axis], pos[axis]);
    spans_tile_the_axis(n, decomp[axis]);
    span_is_inside(n, decomp[axis], at);
    spans_are_balanced(n, decomp[axis], at, at);
    assert(span_start(n, decomp[axis], at + 1) == span_start(n, decomp[axis], at) + span_count(
        n,
        decomp[axis],
        at,
    ));
    if at > 0 {
        span_is_inside(n, decomp[axis], at - 1);
        spans_are_balanced(n, decomp[axis], at - 1, at - 1);
        assert(span_start(n, decomp[axis], (at - 1) + 1) == span_start(n, decomp[axis], at - 1)
            + span_count(n, decomp[axis], at - 1));
        let p: Seq<int> = pos.update(axis, at - 1);
        rank_is_flat(p[0], p[1], p[2], decomp[1], decomp[2]);
    }
    if at + 1 < decomp[axis] {
        span_is_inside(n, decomp[axis], at + 1);
        spans_are_balanced(n, decomp[axis], at + 1, at + 1);
        let p: Seq<int> = pos.update(axis, at + 1);
        rank_is_flat(p[0], p[1], p[2], decomp[1], decomp[2]);
    }
}

/// The area of a face times the breadth of its owner is the volume of the owner.
proof fn area_sweeps_the_volume<S: Scalar>(
    m: UniformMesh<S>,
    f: Face<S>,
    o: int,
    axis: int,
    high: bool,
)
    requires
        is_ring::<S>(),
        m.valid(),
        0 <= axis < 3,
        ({
            let g: Grid<S> = m.grid();
            let (dx, dy, dz): (S, S, S) = (breadth(m, o, 0), breadth(m, o, 1), breadth(m, o, 2));
            let area: S = if axis == 0 {
                dy.times_spec(dz)
            } else if axis == 1 {
                dx.times_spec(dz)
            } else {
                dx.times_spec(dy)
            };
            f.area_normal[axis] == (if high {
                area
            } else {
                area.negated_spec()
            })
        }),
    ensures
        ({
            let swept: S = f.area_normal[axis].times_spec(breadth(m, o, axis));
            if high {
                swept == m.volume_of(o)
            } else {
                m.volume_of(o).plus_spec(swept) == S::zero_spec()
            }
        }),
{
    let (dx, dy, dz): (S, S, S) = (breadth(m, o, 0), breadth(m, o, 1), breadth(m, o, 2));
    assert(m.volume_of(o) == dx.times_spec(dy).times_spec(dz));
    if axis == 0 {
        times_associates(dx, dy, dz);
        times_commutes(dx, dy.times_spec(dz));
        negated_product_cancels(dy.times_spec(dz), dx);
    } else if axis == 1 {
        times_associates(dx, dz, dy);
        times_associates(dx, dy, dz);
        times_commutes(dy, dz);
        negated_product_cancels(dx.times_spec(dz), dy);
    } else {
        negated_product_cancels(dx.times_spec(dy), dz);
    }
}

} // verus!
