//! The cells of a structured grid as control volumes: fluxes scatter conservatively
//! over its faces, every cell is closed, and the parts of a split grid make up the
//! whole.

use crate::decomposition::span_count;
use crate::decomposition::span_start;
use crate::decomposition::spans_ascend;
use crate::decomposition::spans_tile_the_axis;
use crate::flux::after_face;
use crate::flux::areas;
use crate::flux::joins_cells;
use crate::flux::minus_negated;
use crate::flux::minus_zero;
use crate::flux::multiple;
use crate::flux::net_area_appends;
use crate::flux::net_flux;
use crate::flux::outflow;
use crate::flux::scatter_telescopes;
use crate::grid::Grid;
use crate::grid::all_faces;
use crate::grid::axis_faces;
use crate::grid::beside;
use crate::grid::cell_count;
use crate::grid::face_area;
use crate::grid::faces_upto;
use crate::grid::high_face;
use crate::grid::inner;
use crate::grid::is_sound;
use crate::grid::low_face;
use crate::grid::pick;
use crate::grid::volume_at;
use crate::grid_laws::beside_splits;
use crate::grid_laws::cell_face_kinds;
use crate::grid_laws::face_at;
use crate::grid_laws::is_cell;
use crate::grid_laws::numbered_is_cell;
use crate::index::first_of;
use crate::index::flat;
use crate::index::flat_is_inside;
use crate::index::flat_splits;
use crate::index::second_of;
use crate::index::third_of;
use crate::mesh::Face;
use crate::scalar::Scalar;
use crate::scalar::is_ring;
use crate::scalar::minus_restores;
use crate::scalar::plus_associates;
use crate::scalar::plus_cancels;
use crate::scalar::plus_commutes;
use crate::scalar::plus_zero;
use crate::scalar::sum_of;
use crate::scalar::times_associates;
use crate::scalar::times_commutes;
use crate::scalar::times_distributes;
use crate::scalar::times_zero;
use crate::sums::sum_over;
use crate::sums::sum_over_box;
use crate::sums::sums_agree;
use crate::sums::sums_distribute;
use crate::uniform::Domain;
use crate::uniform::part_of;
use vstd::prelude::*;

verus! {

// ---------------------------------------------------------------------------
// Conservation.
// ---------------------------------------------------------------------------

/// Every face joins two different cells of the grid.
pub proof fn grid_faces_join_cells<S: Scalar>(g: Grid<S>)
    requires
        is_sound(g),
        1 <= g.ng,
    ensures
        joins_cells(all_faces(g), cell_count(g) as nat),
{
    let n: int = g.ni * g.nj * g.nk;
    assert forall|p: int| 0 <= p < all_faces(g).len() implies {
        &&& (#[trigger] all_faces(g)[p]).owner < cell_count(g)
        &&& all_faces(g)[p].other < cell_count(g)
        &&& all_faces(g)[p].owner != all_faces(g)[p].other
    } by {
        let (c, x): (int, int) = face_at(g, n, p);
        numbered_is_cell(g, c);
        let (i, j, k): (int, int, int) = (
            first_of(c, g.nj, g.nk),
            second_of(c, g.nj, g.nk),
            third_of(c, g.nk),
        );
        let (a, high): (int, bool) = cell_face_kinds(g, i, j, k, x);
        let step: int = if high {
            1
        } else {
            -1
        };
        beside_splits(g, i, j, k, a, 0);
        beside_splits(g, i, j, k, a, step);
        assert(beside(g, i, j, k, a, 0) == inner(g, i, j, k));
    }
}

/// Whatever flux crosses each face, a two-sided scatter over the faces of the grid
/// conserves: the gains of all cells and the outflow through the physical boundary
/// add up to zero.
pub proof fn grid_scatter_conserves<S: Scalar>(g: Grid<S>, flux: Seq<S>)
    requires
        is_ring::<S>(),
        is_sound(g),
        1 <= g.ng,
        flux.len() == all_faces(g).len(),
    ensures
        sum_of(
            Seq::new(cell_count(g) as nat, |c: int| net_flux(all_faces(g), flux, c)),
        ).plus_spec(outflow(all_faces(g), flux)) == S::zero_spec(),
{
    grid_faces_join_cells(g);
    scatter_telescopes(all_faces(g), flux, cell_count(g) as nat);
}

// ---------------------------------------------------------------------------
// Closed control volumes.
// ---------------------------------------------------------------------------

/// What a list of one or two faces does to the net area of a cell.
proof fn net_area_appends_two<S: Scalar>(faces: Seq<Face<S>>, more: Seq<Face<S>>, d: int, c: int)
    requires
        1 <= more.len() <= 2,
    ensures
        ({
            let x: S = net_flux(faces, areas(faces, d), c);
            let y: S = after_face(x, more[0], more[0].area_normal[d], c);
            net_flux(faces + more, areas(faces + more, d), c) == (if more.len() == 1 {
                y
            } else {
                after_face(y, more[1], more[1].area_normal[d], c)
            })
        }),
{
    let head: Seq<Face<S>> = more.take(1);
    let tail: Seq<Face<S>> = more.skip(1);
    net_area_appends(faces, head, d, c);
    net_area_appends(faces + head, tail, d, c);
    assert(faces + head + tail =~= faces + more);
}

/// Interior cell `(x, y, z)` lies one step below interior cell `(i, j, k)` along
/// `d`.
spec fn is_below(x: int, y: int, z: int, i: int, j: int, k: int, d: int) -> bool {
    &&& x == i - (if d == 0 { 1int } else { 0int })
    &&& y == j - (if d == 1 { 1int } else { 0int })
    &&& z == k - (if d == 2 { 1int } else { 0int })
}

/// What the faces that interior cell `(x, y, z)` presents along `axis` do to the
/// net area along `d` of interior cell `(i, j, k)`.
proof fn axis_area_counts<S: Scalar>(
    g: Grid<S>,
    x: int,
    y: int,
    z: int,
    axis: int,
    i: int,
    j: int,
    k: int,
    d: int,
    v: S,
)
    requires
        is_ring::<S>(),
        is_sound(g),
        1 <= g.ng,
        is_cell(g, x, y, z),
        is_cell(g, i, j, k),
        0 <= axis < 3,
        0 <= d < 3,
    ensures
        ({
            let c: int = inner(g, i, j, k);
            let list: Seq<Face<S>> = axis_faces(g, x, y, z, axis);
            let one: S = after_face(v, list[0], list[0].area_normal[d], c);
            let after: S = if list.len() == 1 {
                one
            } else {
                after_face(one, list[1], list[1].area_normal[d], c)
            };
            let a: S = face_area(g, j, k, d);
            after == (if axis != d {
                v
            } else if x == i && y == j && z == k {
                if pick(i, j, k, d) == 0 {
                    v
                } else {
                    v.minus_spec(a)
                }
            } else if is_below(x, y, z, i, j, k, d) {
                v.plus_spec(a)
            } else {
                v
            })
        }),
{
    let c: int = inner(g, i, j, k);
    let a: S = face_area(g, j, k, d);
    let b: S = face_area(g, y, z, axis);
    beside_splits(g, i, j, k, 0, 0);
    beside_splits(g, x, y, z, 0, 0);
    beside_splits(g, x, y, z, axis, 1);
    beside_splits(g, x, y, z, axis, -1);
    assert(beside(g, i, j, k, 0, 0) == c);
    assert(beside(g, x, y, z, 0, 0) == inner(g, x, y, z));
    let high: Face<S> = high_face(g, x, y, z, axis);
    let low: Face<S> = low_face(g, x, y, z, axis);
    let zero: S = S::zero_spec();
    assert(high.area_normal[d] == (if axis == d { b } else { zero }));
    assert(low.area_normal[d] == (if axis == d { b.negated_spec() } else { zero }));
    minus_zero(v);
    plus_zero(v);
    assert(high.owner == c <==> x == i && y == j && z == k);
    assert(high.other == c <==> is_below(x, y, z, i, j, k, axis));
    if pick(x, y, z, axis) == 0 {
        assert(low.other != c);
    }
    if axis == d {
        if x == i && y == j && z == k {
            minus_negated(v.minus_spec(b), b);
            minus_restores(v, b);
        } else if is_below(x, y, z, i, j, k, d) {
            assert(high.patch is None);
            assert(b == a);
        }
    }
}

/// The net area along `d` that interior cell `(i, j, k)` has after the faces of the
/// first `n` interior cells: that of the face below it, once the cell below was
/// dealt with and until it is dealt with itself.
proof fn net_area_upto<S: Scalar>(g: Grid<S>, i: int, j: int, k: int, d: int, n: int)
    requires
        is_ring::<S>(),
        is_sound(g),
        1 <= g.ng,
        is_cell(g, i, j, k),
        0 <= d < 3,
        0 <= n <= g.ni * g.nj * g.nk,
    ensures
        net_flux(faces_upto(g, n), areas(faces_upto(g, n), d), inner(g, i, j, k)) == (
        if pick(i, j, k, d) > 0 && number_below(g, i, j, k, d) < n <= flat(i, j, k, g.nj, g.nk) {
            S::zero_spec().plus_spec(face_area(g, j, k, d))
        } else {
            S::zero_spec()
        }),
    decreases n,
{
    let c: int = inner(g, i, j, k);
    let a: S = face_area(g, j, k, d);
    let o: S = S::zero_spec();
    if n > 0 {
        let m: int = n - 1;
        net_area_upto(g, i, j, k, d, m);
        numbered_is_cell(g, m);
        let (x, y, z): (int, int, int) = (
            first_of(m, g.nj, g.nk),
            second_of(m, g.nj, g.nk),
            third_of(m, g.nk),
        );
        let before: Seq<Face<S>> = faces_upto(g, m);
        let f0: Seq<Face<S>> = axis_faces(g, x, y, z, 0);
        let f1: Seq<Face<S>> = axis_faces(g, x, y, z, 1);
        let f2: Seq<Face<S>> = axis_faces(g, x, y, z, 2);
        let v0: S = net_flux(before, areas(before, d), c);
        let v1: S = net_flux(before + f0, areas(before + f0, d), c);
        let v2: S = net_flux(before + f0 + f1, areas(before + f0 + f1, d), c);
        axis_area_counts(g, x, y, z, 0, i, j, k, d, v0);
        net_area_appends_two(before, f0, d, c);
        axis_area_counts(g, x, y, z, 1, i, j, k, d, v1);
        net_area_appends_two(before + f0, f1, d, c);
        axis_area_counts(g, x, y, z, 2, i, j, k, d, v2);
        net_area_appends_two(before + f0 + f1, f2, d, c);
        assert(faces_upto(g, n) =~= before + f0 + f1 + f2);
        number_below_is_before(g, i, j, k, d);
        let here: int = flat(i, j, k, g.nj, g.nk);
        flat_splits(i, j, k, g.nj, g.nk);
        if m == here {
            assert(x == i && y == j && z == k);
            if pick(i, j, k, d) > 0 {
                plus_minus(o, a);
            }
        } else {
            assert(!(x == i && y == j && z == k));
        }
        if pick(i, j, k, d) > 0 {
            assert(is_below(x, y, z, i, j, k, d) <==> m == number_below(g, i, j, k, d));
        } else {
            assert(!is_below(x, y, z, i, j, k, d));
        }
    }
}

/// In a ring, what was added can be taken away.
proof fn plus_minus<S: Scalar>(x: S, a: S)
    requires
        is_ring::<S>(),
    ensures
        x.plus_spec(a).minus_spec(a) == x,
{
    minus_restores(x.plus_spec(a), a);
    plus_cancels(x.plus_spec(a).minus_spec(a), x, a);
}

/// The number of the interior cell one step below `(i, j, k)` along `d`.
spec fn number_below<S>(g: Grid<S>, i: int, j: int, k: int, d: int) -> int {
    if d == 0 {
        flat(i - 1, j, k, g.nj, g.nk)
    } else if d == 1 {
        flat(i, j - 1, k, g.nj, g.nk)
    } else {
        flat(i, j, k - 1, g.nj, g.nk)
    }
}

/// The cell below comes earlier, and its number splits into its indices.
proof fn number_below_is_before<S>(g: Grid<S>, i: int, j: int, k: int, d: int)
    requires
        is_sound(g),
        is_cell(g, i, j, k),
        0 <= d < 3,
    ensures
        pick(i, j, k, d) > 0 ==> 0 <= number_below(g, i, j, k, d) < flat(i, j, k, g.nj, g.nk),
        pick(i, j, k, d) > 0 ==> {
            let m: int = number_below(g, i, j, k, d);
            is_below(
                first_of(m, g.nj, g.nk),
                second_of(m, g.nj, g.nk),
                third_of(m, g.nk),
                i,
                j,
                k,
                d,
            )
        },
{
    if pick(i, j, k, d) > 0 {
        let (x, y, z): (int, int, int) = (
            i - (if d == 0 { 1int } else { 0int }),
            j - (if d == 1 { 1int } else { 0int }),
            k - (if d == 2 { 1int } else { 0int }),
        );
        flat_splits(x, y, z, g.nj, g.nk);
        flat_is_inside(x, y, z, g.ni, g.nj, g.nk);
        let (nj, nk): (int, int) = (g.nj, g.nk);
        if d == 0 {
            assert((i * nj + j) * nk + k == ((i - 1) * nj + j) * nk + k + nj * nk)
                by (nonlinear_arith);
            assert(nj * nk >= 1) by (nonlinear_arith)
                requires
                    nj >= 1,
                    nk >= 1,
            ;
        } else if d == 1 {
            assert((i * nj + j) * nk + k == (i * nj + (j - 1)) * nk + k + nk) by (nonlinear_arith);
        }
    }
}

/// Every interior cell is a closed control volume: along each axis, the areas of
/// its faces cancel.
pub proof fn grid_cells_are_closed<S: Scalar>(g: Grid<S>, i: int, j: int, k: int, d: int)
    requires
        is_ring::<S>(),
        is_sound(g),
        1 <= g.ng,
        is_cell(g, i, j, k),
        0 <= d < 3,
    ensures
        net_flux(all_faces(g), areas(all_faces(g), d), inner(g, i, j, k)) == S::zero_spec(),
{
    flat_is_inside(i, j, k, g.ni, g.nj, g.nk);
    net_area_upto(g, i, j, k, d, g.ni * g.nj * g.nk);
}

// ---------------------------------------------------------------------------
// The parts of a split grid.
// ---------------------------------------------------------------------------

/// Cell number `x` of an axis lies in the span of part `p`.
pub open spec fn in_span(n: int, parts: int, p: int, x: int) -> bool {
    span_start(n, parts, p) <= x < span_start(n, parts, p) + span_count(n, parts, p)
}

/// Every cell of an axis lies in the span of exactly one part.
pub proof fn every_cell_has_one_span(n: int, parts: int, x: int) -> (p: int)
    requires
        parts > 0,
        0 <= x < n,
    ensures
        0 <= p < parts,
        in_span(n, parts, p, x),
        forall|q: int| 0 <= q < parts && #[trigger] in_span(n, parts, q, x) ==> q == p,
{
    spans_tile_the_axis(n, parts);
    let p: int = span_holding(n, parts, x, parts - 1);
    assert forall|q: int| 0 <= q < parts && #[trigger] in_span(n, parts, q, x) implies q == p by {
        if q < p {
            spans_ascend(n, parts, q, p);
        } else if p < q {
            spans_ascend(n, parts, p, q);
        }
    }
    p
}

/// The part up to `upto` whose span holds `x`, given that they reach beyond it.
proof fn span_holding(n: int, parts: int, x: int, upto: int) -> (p: int)
    requires
        parts > 0,
        0 <= x < n,
        0 <= upto < parts,
        x < span_start(n, parts, upto + 1),
    ensures
        0 <= p <= upto,
        in_span(n, parts, p, x),
    decreases upto,
{
    spans_tile_the_axis(n, parts);
    assert(span_start(n, parts, upto + 1) == span_start(n, parts, upto) + span_count(
        n,
        parts,
        upto,
    ));
    if span_start(n, parts, upto) <= x {
        upto
    } else {
        assert(upto > 0);
        span_holding(n, parts, x, upto - 1)
    }
}

/// Cell `(x, y, z)` of the whole grid is an interior cell of part `g`.
pub open spec fn holds_cell<S>(g: Grid<S>, x: int, y: int, z: int) -> bool {
    is_cell(g, x - g.offset[0], y - g.offset[1], z - g.offset[2])
}

/// Every cell of the whole grid is an interior cell of exactly one part.
pub proof fn every_cell_has_one_part<S: Scalar>(
    cfg: Domain<S>,
    decomp: Seq<int>,
    x: int,
    y: int,
    z: int,
) -> (pos: Seq<int>)
    requires
        decomp[0] > 0,
        decomp[1] > 0,
        decomp[2] > 0,
        0 <= x < cfg.nx,
        0 <= y < cfg.ny,
        0 <= z < cfg.nz,
    ensures
        forall|a: int| 0 <= a < 3 ==> 0 <= #[trigger] pos[a] < decomp[a],
        holds_cell(part_of(cfg, decomp, pos), x, y, z),
        forall|other: Seq<int>|
            #![trigger part_of(cfg, decomp, other)]
            (forall|a: int| 0 <= a < 3 ==> 0 <= #[trigger] other[a] < decomp[a]) && holds_cell(
                part_of(cfg, decomp, other),
                x,
                y,
                z,
            ) ==> other[0] == pos[0] && other[1] == pos[1] && other[2] == pos[2],
{
    let px: int = every_cell_has_one_span(cfg.nx as int, decomp[0], x);
    let py: int = every_cell_has_one_span(cfg.ny as int, decomp[1], y);
    let pz: int = every_cell_has_one_span(cfg.nz as int, decomp[2], z);
    let pos: Seq<int> = seq![px, py, pz];
    assert forall|other: Seq<int>|
        #![trigger part_of(cfg, decomp, other)]
        (forall|a: int| 0 <= a < 3 ==> 0 <= #[trigger] other[a] < decomp[a]) && holds_cell(
            part_of(cfg, decomp, other),
            x,
            y,
            z,
        ) implies other[0] == pos[0] && other[1] == pos[1] && other[2] == pos[2] by {
        assert(in_span(cfg.nx as int, decomp[0], other[0], x));
        assert(in_span(cfg.ny as int, decomp[1], other[1], y));
        assert(in_span(cfg.nz as int, decomp[2], other[2], z));
    }
    pos
}

// ---------------------------------------------------------------------------
// Volumes.
// ---------------------------------------------------------------------------

/// The differences of neighboring entries of `edges` from `first` on add up to that
/// of the outermost.
proof fn differences_telescope<S: Scalar>(edges: Seq<S>, first: int, n: int)
    requires
        is_ring::<S>(),
        0 <= n,
    ensures
        sum_over(n, |m: int| edges[first + m + 1].minus_spec(edges[first + m])) == edges[first
            + n].minus_spec(edges[first]),
    decreases n,
{
    let (a, z): (S, S) = (edges[first], S::zero_spec());
    if n == 0 {
        minus_restores(a, a);
        plus_zero(a);
        plus_cancels(a.minus_spec(a), z, a);
    } else {
        differences_telescope(edges, first, n - 1);
        let (x, y): (S, S) = (edges[first + n - 1], edges[first + n]);
        let (p, q): (S, S) = (x.minus_spec(a), y.minus_spec(x));
        plus_commutes(p, q);
        plus_associates(q, p, a);
        minus_restores(x, a);
        minus_restores(y, x);
        minus_restores(y, a);
        plus_cancels(p.plus_spec(q), y.minus_spec(a), a);
    }
}

/// A sum of `n` equal terms that are products is the product of the sum of one of
/// the factors.
proof fn equal_products_add_up<S: Scalar>(n: int, a: S, b: S)
    requires
        is_ring::<S>(),
        0 <= n,
    ensures
        sum_over(n, |i: int| a.times_spec(b)) == multiple(n, a).times_spec(b),
    decreases n,
{
    if n == 0 {
        times_zero(b);
    } else {
        equal_products_add_up(n - 1, a, b);
        times_distributes(b, multiple(n - 1, a), a);
    }
}

/// The volumes of the interior cells of a part add up to the volume that the part
/// covers: the widths of its cells along x, times what its edges span along y and
/// along z.
pub proof fn volumes_fill_the_part<S: Scalar>(cfg: Domain<S>, decomp: Seq<int>, pos: Seq<int>)
    requires
        is_ring::<S>(),
        ({
            let g: Grid<S> = part_of(cfg, decomp, pos);
            0 <= g.ni && 0 <= g.nj && 0 <= g.nk
        }),
    ensures
        ({
            let g: Grid<S> = part_of(cfg, decomp, pos);
            let (ys, zs): (Seq<S>, Seq<S>) = (cfg.all_y_edges(), cfg.all_z_edges());
            let (j, k): (int, int) = (g.offset[1], g.offset[2]);
            sum_over_box(
                g.ni,
                g.nj,
                g.nk,
                |a: int, b: int, c: int| volume_at(g, b + g.ng, c + g.ng),
            ) == multiple(g.ni, g.dx).times_spec(
                ys[j + g.nj].minus_spec(ys[j]).times_spec(zs[k + g.nk].minus_spec(zs[k])),
            )
        }),
{
    let g: Grid<S> = part_of(cfg, decomp, pos);
    let (ys, zs): (Seq<S>, Seq<S>) = (cfg.all_y_edges(), cfg.all_z_edges());
    let (j0, k0): (int, int) = (g.offset[1], g.offset[2]);
    let (deep, high): (S, S) = (
        ys[j0 + g.nj].minus_spec(ys[j0]),
        zs[k0 + g.nk].minus_spec(zs[k0]),
    );
    let dy = |b: int| ys[j0 + b + 1].minus_spec(ys[j0 + b]);
    let dz = |c: int| zs[k0 + c + 1].minus_spec(zs[k0 + c]);
    differences_telescope(ys, j0, g.nj);
    differences_telescope(zs, k0, g.nk);
    let whole: S = deep.times_spec(high);
    let f = |a: int, b: int, c: int| volume_at(g, b + g.ng, c + g.ng);
    let slice = |a: int| sum_over(g.nj, |b: int| sum_over(g.nk, |c: int| f(a, b, c)));
    assert forall|a: int| 0 <= a < g.ni implies #[trigger] slice(a) == g.dx.times_spec(whole) by {
        let row = |b: int| sum_over(g.nk, |c: int| f(a, b, c));
        let scaled_row = |b: int| dy(b).times_spec(high.times_spec(g.dx));
        assert forall|b: int| 0 <= b < g.nj implies #[trigger] row(b) == scaled_row(b) by {
            let area: S = g.dx.times_spec(dy(b));
            let cell = |c: int| f(a, b, c);
            let scaled = |c: int| dz(c).times_spec(area);
            assert forall|c: int| 0 <= c < g.nk implies #[trigger] cell(c) == scaled(c) by {
                assert(g.dy[b + g.ng] == dy(b));
                assert(g.dz[c + g.ng] == dz(c));
                times_commutes(area, dz(c));
            }
            sums_agree(g.nk, cell, scaled);
            sums_distribute(g.nk, dz, area);
            times_associates(high, g.dx, dy(b));
            times_commutes(high.times_spec(g.dx), dy(b));
        }
        sums_agree(g.nj, row, scaled_row);
        sums_distribute(g.nj, dy, high.times_spec(g.dx));
        times_associates(deep, high, g.dx);
        times_commutes(whole, g.dx);
    }
    sums_agree(g.ni, slice, |a: int| g.dx.times_spec(whole));
    equal_products_add_up(g.ni, g.dx, whole);
}

} // verus!
