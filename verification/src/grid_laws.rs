//! Laws of the structured grid: its numbering, its faces, and the agreement of
//! halo links between neighboring ranks.

use crate::decomposition::rank_at;
use crate::decomposition::rank_positions_are_unique;
use crate::decomposition::span_count;
use crate::decomposition::span_start;
use crate::decomposition::spans_tile_the_axis;
use crate::grid::Grid;
use crate::grid::all_faces;
use crate::grid::all_links;
use crate::grid::along;
use crate::grid::axis_faces;
use crate::grid::beside;
use crate::grid::cell_count;
use crate::grid::cell_faces;
use crate::grid::face_area;
use crate::grid::faces_upto;
use crate::grid::global_cell;
use crate::grid::high_face;
use crate::grid::inner;
use crate::grid::interior_count;
use crate::grid::is_inner_layer;
use crate::grid::is_interior;
use crate::grid::is_sound;
use crate::grid::link_depth;
use crate::grid::links_upto;
use crate::grid::low_face;
use crate::grid::neighbor_layers;
use crate::grid::neighbor_rank;
use crate::grid::next_axis;
use crate::grid::pick;
use crate::grid::raw;
use crate::grid::raw_of;
use crate::grid::side_link;
use crate::grid::slab_cell;
use crate::grid::slab_size;
use crate::grid::total_count;
use crate::halo::Link;
use crate::index::first_of;
use crate::index::flat;
use crate::index::flat_is_inside;
use crate::index::flat_joins;
use crate::index::flat_splits;
use crate::index::flat_steps;
use crate::index::second_of;
use crate::index::third_of;
use crate::mesh::Face;
use crate::scalar::Scalar;
use crate::uniform::Domain;
use crate::uniform::part_of;
use vstd::arithmetic::mul::*;
use vstd::prelude::*;

verus! {

/// Raw indices and flat indices correspond one to one, and a cell is interior
/// exactly if each of its raw indices is that of an interior layer.
pub proof fn cells_are_numbered_once<S>(g: Grid<S>, ir: int, jr: int, kr: int)
    requires
        is_sound(g),
        0 <= ir < total_count(g, 0),
        0 <= jr < total_count(g, 1),
        0 <= kr < total_count(g, 2),
    ensures
        0 <= raw(g, ir, jr, kr) < cell_count(g),
        raw_of(g, raw(g, ir, jr, kr), 0) == ir,
        raw_of(g, raw(g, ir, jr, kr), 1) == jr,
        raw_of(g, raw(g, ir, jr, kr), 2) == kr,
        is_interior(g, raw(g, ir, jr, kr)) <==> is_inner_layer(g, 0, ir) && is_inner_layer(
            g,
            1,
            jr,
        ) && is_inner_layer(g, 2, kr),
{
    let t0: int = total_count(g, 0);
    let t1: int = total_count(g, 1);
    let t2: int = total_count(g, 2);
    flat_is_inside(ir, jr, kr, t0, t1, t2);
    flat_splits(ir, jr, kr, t1, t2);
}

/// Cells are numbered along z first, then along y, then along x, ghost cells included.
pub proof fn cells_run_along_z_first<S>(g: Grid<S>, ir: int, jr: int, kr: int)
    ensures
        raw(g, 0, 0, 0) == 0,
        raw(g, ir, jr, kr + 1) == raw(g, ir, jr, kr) + 1,
        raw(g, ir, jr + 1, kr) == raw(g, ir, jr, kr) + total_count(g, 2),
        raw(g, ir + 1, jr, kr) == raw(g, ir, jr, kr) + total_count(g, 1) * total_count(g, 2),
{
    let (t1, t2): (int, int) = (total_count(g, 1), total_count(g, 2));
    assert((0 * t1 + 0) * t2 + 0 == 0) by (nonlinear_arith);
    assert((ir * t1 + (jr + 1)) * t2 == (ir * t1 + jr) * t2 + t2) by (nonlinear_arith);
    assert(((ir + 1) * t1 + jr) * t2 == (ir * t1 + jr) * t2 + t1 * t2) by (nonlinear_arith);
}

/// Every cell has raw indices.
pub proof fn every_cell_has_raw_indices<S>(g: Grid<S>, c: int)
    requires
        is_sound(g),
        0 <= c < cell_count(g),
    ensures
        0 <= raw_of(g, c, 0) < total_count(g, 0),
        0 <= raw_of(g, c, 1) < total_count(g, 1),
        0 <= raw_of(g, c, 2) < total_count(g, 2),
        raw(g, raw_of(g, c, 0), raw_of(g, c, 1), raw_of(g, c, 2)) == c,
{
    flat_joins(c, total_count(g, 0), total_count(g, 1), total_count(g, 2));
}

// ---------------------------------------------------------------------------
// Faces.
// ---------------------------------------------------------------------------

/// The faces of interior cell number `c`.
pub open spec fn numbered_faces<S: Scalar>(g: Grid<S>, c: int) -> Seq<Face<S>> {
    cell_faces(g, first_of(c, g.nj, g.nk), second_of(c, g.nj, g.nk), third_of(c, g.nk))
}

/// `(i, j, k)` is an interior cell.
pub open spec fn is_cell<S>(g: Grid<S>, i: int, j: int, k: int) -> bool {
    0 <= i < g.ni && 0 <= j < g.nj && 0 <= k < g.nk
}

/// The flat index of an interior cell or of a cell beside it is that of a cell,
/// and splits into its raw indices.
pub proof fn beside_splits<S>(g: Grid<S>, i: int, j: int, k: int, axis: int, step: int)
    requires
        is_sound(g),
        1 <= g.ng,
        is_cell(g, i, j, k),
        0 <= axis < 3,
        -1 <= step <= 1,
    ensures
        ({
            let c: int = beside(g, i, j, k, axis, step);
            &&& 0 <= c < cell_count(g)
            &&& c as usize as int == c
            &&& raw_of(g, c, 0) == i + g.ng + (if axis == 0 { step } else { 0 })
            &&& raw_of(g, c, 1) == j + g.ng + (if axis == 1 { step } else { 0 })
            &&& raw_of(g, c, 2) == k + g.ng + (if axis == 2 { step } else { 0 })
        }),
{
    let ir: int = i + g.ng + (if axis == 0 { step } else { 0 });
    let jr: int = j + g.ng + (if axis == 1 { step } else { 0 });
    let kr: int = k + g.ng + (if axis == 2 { step } else { 0 });
    assert(beside(g, i, j, k, axis, step) == raw(g, ir, jr, kr));
    cells_are_numbered_once(g, ir, jr, kr);
}

/// A face that interior cell `(i, j, k)` presents is its high face along some
/// axis, or its low face along an axis at whose low end it lies.
pub proof fn cell_face_kinds<S: Scalar>(g: Grid<S>, i: int, j: int, k: int, p: int) -> (r: (int, bool))
    requires
        0 <= p < cell_faces(g, i, j, k).len(),
    ensures
        0 <= r.0 < 3,
        r.1 ==> cell_faces(g, i, j, k)[p] == high_face(g, i, j, k, r.0),
        !r.1 ==> pick(i, j, k, r.0) == 0 && cell_faces(g, i, j, k)[p] == low_face(g, i, j, k, r.0),
{
    let a: Seq<Face<S>> = axis_faces(g, i, j, k, 0);
    let b: Seq<Face<S>> = axis_faces(g, i, j, k, 1);
    let c: Seq<Face<S>> = axis_faces(g, i, j, k, 2);
    let all: Seq<Face<S>> = cell_faces(g, i, j, k);
    if p < a.len() {
        assert(all[p] == a[p]);
        (0, p == 0)
    } else if p < a.len() + b.len() {
        assert(all[p] == b[p - a.len()]);
        (1, p == a.len())
    } else {
        assert(all[p] == c[p - a.len() - b.len()]);
        (2, p == a.len() + b.len())
    }
}

/// Where the high and low faces of a cell stand among the faces it presents.
proof fn cell_face_places<S: Scalar>(g: Grid<S>, i: int, j: int, k: int, axis: int)
    requires
        0 <= axis < 3,
    ensures
        cell_faces(g, i, j, k).contains(high_face(g, i, j, k, axis)),
        pick(i, j, k, axis) == 0 ==> cell_faces(g, i, j, k).contains(low_face(g, i, j, k, axis)),
{
    let a: Seq<Face<S>> = axis_faces(g, i, j, k, 0);
    let b: Seq<Face<S>> = axis_faces(g, i, j, k, 1);
    let c: Seq<Face<S>> = axis_faces(g, i, j, k, 2);
    let all: Seq<Face<S>> = cell_faces(g, i, j, k);
    let start: int = if axis == 0 {
        0
    } else if axis == 1 {
        a.len() as int
    } else {
        (a.len() + b.len()) as int
    };
    let own: Seq<Face<S>> = axis_faces(g, i, j, k, axis);
    assert(all[start] == own[0]);
    if pick(i, j, k, axis) == 0 {
        assert(all[start + 1] == own[1]);
    }
}

/// The faces of every cell are among the faces of all.
proof fn faces_hold_cell_faces<S: Scalar>(g: Grid<S>, n: int, c: int, f: Face<S>)
    requires
        0 <= c < n,
        numbered_faces(g, c).contains(f),
    ensures
        faces_upto(g, n).contains(f),
    decreases n,
{
    let before: Seq<Face<S>> = faces_upto(g, n - 1);
    let last: Seq<Face<S>> = numbered_faces(g, n - 1);
    let all: Seq<Face<S>> = faces_upto(g, n);
    if c == n - 1 {
        let p: int = choose|p: int| 0 <= p < last.len() && last[p] == f;
        assert(all[before.len() + p] == f);
    } else {
        faces_hold_cell_faces(g, n - 1, c, f);
        let p: int = choose|p: int| 0 <= p < before.len() && before[p] == f;
        assert(all[p] == f);
    }
}

/// Every face belongs to the cell it names as its owner.
pub proof fn face_at<S: Scalar>(g: Grid<S>, n: int, p: int) -> (r: (int, int))
    requires
        is_sound(g),
        1 <= g.ng,
        0 <= n <= g.ni * g.nj * g.nk,
        0 <= p < faces_upto(g, n).len(),
    ensures
        0 <= r.0 < n,
        0 <= r.1 < numbered_faces(g, r.0).len(),
        faces_upto(g, n)[p] == numbered_faces(g, r.0)[r.1],
        p < faces_upto(g, n - 1).len() ==> r.0 < n - 1,
        p >= faces_upto(g, n - 1).len() ==> r.0 == n - 1 && r.1 == p - faces_upto(
            g,
            n - 1,
        ).len(),
    decreases n,
{
    let before: Seq<Face<S>> = faces_upto(g, n - 1);
    if p < before.len() {
        face_at(g, n - 1, p)
    } else {
        (n - 1, p - before.len())
    }
}

/// Interior cell number `c` is an interior cell.
pub proof fn numbered_is_cell<S>(g: Grid<S>, c: int)
    requires
        is_sound(g),
        0 <= c < g.ni * g.nj * g.nk,
    ensures
        is_cell(g, first_of(c, g.nj, g.nk), second_of(c, g.nj, g.nk), third_of(c, g.nk)),
        flat(first_of(c, g.nj, g.nk), second_of(c, g.nj, g.nk), third_of(c, g.nk), g.nj, g.nk)
            == c,
{
    flat_joins(c, g.ni, g.nj, g.nk);
}

/// `a` and `b` separate the same two cells.
pub open spec fn same_cells<S>(a: Face<S>, b: Face<S>) -> bool {
    ||| a.owner == b.owner && a.other == b.other
    ||| a.owner == b.other && a.other == b.owner
}

/// Two faces at different places in the blocks of two cells separate different
/// pairs of cells.
proof fn block_faces_differ<S: Scalar>(g: Grid<S>, c: int, p: int, d: int, q: int)
    requires
        is_sound(g),
        1 <= g.ng,
        0 <= c < g.ni * g.nj * g.nk,
        0 <= d < g.ni * g.nj * g.nk,
        0 <= p < numbered_faces(g, c).len(),
        0 <= q < numbered_faces(g, d).len(),
        c != d || p != q,
    ensures
        !same_cells(numbered_faces(g, c)[p], numbered_faces(g, d)[q]),
{
    numbered_is_cell(g, c);
    numbered_is_cell(g, d);
    let (i, j, k): (int, int, int) = (
        first_of(c, g.nj, g.nk),
        second_of(c, g.nj, g.nk),
        third_of(c, g.nk),
    );
    let (x, y, z): (int, int, int) = (
        first_of(d, g.nj, g.nk),
        second_of(d, g.nj, g.nk),
        third_of(d, g.nk),
    );
    let (a, high_a): (int, bool) = cell_face_kinds(g, i, j, k, p);
    let (b, high_b): (int, bool) = cell_face_kinds(g, x, y, z, q);
    let step_a: int = if high_a {
        1
    } else {
        -1
    };
    let step_b: int = if high_b {
        1
    } else {
        -1
    };
    beside_splits(g, i, j, k, 0, 0);
    beside_splits(g, x, y, z, 0, 0);
    beside_splits(g, i, j, k, a, step_a);
    beside_splits(g, x, y, z, b, step_b);
    assert(beside(g, i, j, k, 0, 0) == inner(g, i, j, k));
    assert(beside(g, x, y, z, 0, 0) == inner(g, x, y, z));
    let f: Face<S> = numbered_faces(g, c)[p];
    let h: Face<S> = numbered_faces(g, d)[q];
    assert(f.owner as int == inner(g, i, j, k));
    assert(h.owner as int == inner(g, x, y, z));
    assert(f.other as int == beside(g, i, j, k, a, step_a));
    assert(h.other as int == beside(g, x, y, z, b, step_b));
    if f.owner == h.owner && f.other == h.other {
        assert(i == x && j == y && k == z);
        assert(c == d);
        assert(a == b && step_a == step_b);
        cell_face_order(g, i, j, k, p, q);
    }
}

/// Different places in the block of one cell hold faces of different axis or side.
proof fn cell_face_order<S: Scalar>(g: Grid<S>, i: int, j: int, k: int, p: int, q: int)
    requires
        is_sound(g),
        1 <= g.ng,
        is_cell(g, i, j, k),
        0 <= p < cell_faces(g, i, j, k).len(),
        0 <= q < cell_faces(g, i, j, k).len(),
        p != q,
    ensures
        cell_faces(g, i, j, k)[p].other != cell_faces(g, i, j, k)[q].other,
{
    let a: Seq<Face<S>> = axis_faces(g, i, j, k, 0);
    let b: Seq<Face<S>> = axis_faces(g, i, j, k, 1);
    let c: Seq<Face<S>> = axis_faces(g, i, j, k, 2);
    let all: Seq<Face<S>> = cell_faces(g, i, j, k);
    assert forall|m: int| 0 <= m < all.len() implies #[trigger] all[m] == (if m < a.len() {
        a[m]
    } else if m < a.len() + b.len() {
        b[m - a.len()]
    } else {
        c[m - a.len() - b.len()]
    }) by {}
    beside_splits(g, i, j, k, 0, 1);
    beside_splits(g, i, j, k, 0, -1);
    beside_splits(g, i, j, k, 1, 1);
    beside_splits(g, i, j, k, 1, -1);
    beside_splits(g, i, j, k, 2, 1);
    beside_splits(g, i, j, k, 2, -1);
    assert(all[p] == all[p]);
    assert(all[q] == all[q]);
}

/// Every face is listed exactly once: no two entries separate the same two cells.
pub proof fn faces_are_listed_once<S: Scalar>(g: Grid<S>, p: int, q: int)
    requires
        is_sound(g),
        1 <= g.ng,
        0 <= p < q < all_faces(g).len(),
    ensures
        !same_cells(all_faces(g)[p], all_faces(g)[q]),
{
    faces_upto_differ(g, g.ni * g.nj * g.nk, p, q);
}

/// No two of the faces of the first `n` cells separate the same two cells.
proof fn faces_upto_differ<S: Scalar>(g: Grid<S>, n: int, p: int, q: int)
    requires
        is_sound(g),
        1 <= g.ng,
        n <= g.ni * g.nj * g.nk,
        0 <= p < q < faces_upto(g, n).len(),
    ensures
        !same_cells(faces_upto(g, n)[p], faces_upto(g, n)[q]),
    decreases n,
{
    let before: Seq<Face<S>> = faces_upto(g, n - 1);
    if q < before.len() {
        faces_upto_differ(g, n - 1, p, q);
    } else {
        let (c, x): (int, int) = face_at(g, n, p);
        let (d, y): (int, int) = face_at(g, n, q);
        block_faces_differ(g, c, x, d, y);
    }
}

/// Every interface of an interior cell is listed: for each of its six neighbors
/// there is a face between the two.
pub proof fn every_interface_has_a_face<S: Scalar>(
    g: Grid<S>,
    i: int,
    j: int,
    k: int,
    axis: int,
    high: bool,
)
    requires
        is_sound(g),
        1 <= g.ng,
        is_cell(g, i, j, k),
        0 <= axis < 3,
    ensures
        ({
            let step: int = if high { 1 } else { -1 };
            let cell: usize = inner(g, i, j, k) as usize;
            let next: usize = beside(g, i, j, k, axis, step) as usize;
            exists|p: int|
                #![trigger all_faces(g)[p]]
                0 <= p < all_faces(g).len() && {
                    ||| all_faces(g)[p].owner == cell && all_faces(g)[p].other == next
                    ||| all_faces(g)[p].owner == next && all_faces(g)[p].other == cell
                }
        }),
{
    let n: int = g.ni * g.nj * g.nk;
    let (x, y, z): (int, int, int) = if high || pick(i, j, k, axis) == 0 {
        (i, j, k)
    } else if axis == 0 {
        (i - 1, j, k)
    } else if axis == 1 {
        (i, j - 1, k)
    } else {
        (i, j, k - 1)
    };
    flat_is_inside(x, y, z, g.ni, g.nj, g.nk);
    flat_splits(x, y, z, g.nj, g.nk);
    let c: int = flat(x, y, z, g.nj, g.nk);
    cell_face_places(g, x, y, z, axis);
    let f: Face<S> = if high || pick(i, j, k, axis) != 0 {
        high_face(g, x, y, z, axis)
    } else {
        low_face(g, x, y, z, axis)
    };
    assert(numbered_faces(g, c).contains(f));
    faces_hold_cell_faces(g, n, c, f);
    let p: int = choose|p: int| 0 <= p < all_faces(g).len() && all_faces(g)[p] == f;
    assert(all_faces(g)[p] == f);
}

/// The face lies between interior cell `(i, j, k)`, which owns it, and the cell next
/// to it up or down `axis`. Its normal is along that axis alone and points from the
/// owner to the other cell, and a patch names the axis and the direction.
pub open spec fn leads_along<S: Scalar>(
    g: Grid<S>,
    f: Face<S>,
    i: int,
    j: int,
    k: int,
    axis: int,
    high: bool,
) -> bool {
    let area: S = face_area(g, j, k, axis);
    let step: int = if high {
        1
    } else {
        -1
    };
    &&& f.owner == inner(g, i, j, k)
    &&& f.other == beside(g, i, j, k, axis, step)
    &&& f.area_normal == along(
        axis,
        if high {
            area
        } else {
            area.negated_spec()
        },
    )
    &&& f.patch matches Some(side) ==> side == 2 * axis + (if high {
        1int
    } else {
        0int
    })
}

/// Every face leads along one axis from the interior cell that owns it to the cell
/// next to it.
pub proof fn normals_lead_from_owner_to_other<S: Scalar>(g: Grid<S>, p: int) -> (r: (
    int,
    int,
    int,
    int,
    bool,
))
    requires
        is_sound(g),
        1 <= g.ng,
        0 <= p < all_faces(g).len(),
    ensures
        is_cell(g, r.0, r.1, r.2),
        0 <= r.3 < 3,
        leads_along(g, all_faces(g)[p], r.0, r.1, r.2, r.3, r.4),
{
    let (c, x): (int, int) = face_at(g, g.ni * g.nj * g.nk, p);
    numbered_is_cell(g, c);
    let (i, j, k): (int, int, int) = (
        first_of(c, g.nj, g.nk),
        second_of(c, g.nj, g.nk),
        third_of(c, g.nk),
    );
    let (axis, high): (int, bool) = cell_face_kinds(g, i, j, k, x);
    beside_splits(g, i, j, k, axis, 0);
    beside_splits(g, i, j, k, axis, if high { 1 } else { -1 });
    (i, j, k, axis, high)
}

/// The owner of every face is an interior cell.
pub proof fn owners_are_interior<S: Scalar>(g: Grid<S>, p: int)
    requires
        is_sound(g),
        1 <= g.ng,
        0 <= p < all_faces(g).len(),
    ensures
        is_interior(g, all_faces(g)[p].owner as int),
        all_faces(g)[p].owner < cell_count(g),
        all_faces(g)[p].other < cell_count(g),
        all_faces(g)[p].patch is Some ==> !is_interior(g, all_faces(g)[p].other as int),
{
    let (c, x): (int, int) = face_at(g, g.ni * g.nj * g.nk, p);
    numbered_is_cell(g, c);
    let (i, j, k): (int, int, int) = (
        first_of(c, g.nj, g.nk),
        second_of(c, g.nj, g.nk),
        third_of(c, g.nk),
    );
    let (a, high): (int, bool) = cell_face_kinds(g, i, j, k, x);
    beside_splits(g, i, j, k, 0, 0);
    beside_splits(
        g,
        i,
        j,
        k,
        a,
        if high {
            1
        } else {
            -1
        },
    );
    assert(beside(g, i, j, k, 0, 0) == inner(g, i, j, k));
}

/// Faces among the first `c` that lie on a physical boundary.
pub open spec fn boundary_count<S>(faces: Seq<Face<S>>) -> nat
    decreases faces.len(),
{
    if faces.len() == 0 {
        0
    } else {
        boundary_count(faces.drop_last()) + (if faces.last().patch is Some {
            1nat
        } else {
            0nat
        })
    }
}

/// The boundary faces of two lists together.
proof fn boundary_count_adds<S>(a: Seq<Face<S>>, b: Seq<Face<S>>)
    ensures
        boundary_count(a + b) == boundary_count(a) + boundary_count(b),
    decreases b.len(),
{
    if b.len() == 0 {
        assert(a + b =~= a);
    } else {
        boundary_count_adds(a, b.drop_last());
        assert((a + b).drop_last() =~= a + b.drop_last());
    }
}

/// Entries of one axis before interior cell `(i, j, k)` that lie in the layer `m`
/// of that axis.
spec fn layer_cells_before<S>(g: Grid<S>, i: int, j: int, k: int, axis: int, m: int) -> int {
    if axis == 0 {
        if i < m {
            0
        } else if i == m {
            j * g.nk + k
        } else {
            g.nj * g.nk
        }
    } else if axis == 1 {
        i * g.nk + (if j < m {
            0
        } else if j == m {
            k
        } else {
            g.nk
        })
    } else {
        i * g.nj + j + (if k > m {
            1int
        } else {
            0int
        })
    }
}

/// No rank lies on any side: every end of the grid is a physical boundary.
pub open spec fn is_alone<S>(g: Grid<S>) -> bool {
    forall|s: int| 0 <= s < 6 ==> #[trigger] g.neighbor[s] < 0
}

/// `x` where side `s` is a physical boundary, and nothing where a rank lies behind
/// it.
pub open spec fn if_open<S>(g: Grid<S>, s: int, x: int) -> int {
    if g.neighbor[s] < 0 {
        x
    } else {
        0
    }
}

/// How many faces, and how many boundary faces, a cell presents along an axis.
proof fn axis_faces_counted<S: Scalar>(g: Grid<S>, i: int, j: int, k: int, axis: int)
    requires
        is_sound(g),
        is_cell(g, i, j, k),
        0 <= axis < 3,
    ensures
        ({
            let low: int = if pick(i, j, k, axis) == 0 { 1 } else { 0 };
            let high: int = if pick(i, j, k, axis) == interior_count(g, axis) - 1 { 1 } else { 0 };
            let list: Seq<Face<S>> = axis_faces(g, i, j, k, axis);
            list.len() == 1 + low && boundary_count(list) == if_open(g, 2 * axis, low) + if_open(
                g,
                2 * axis + 1,
                high,
            )
        }),
{
    reveal_with_fuel(boundary_count, 3);
    let list: Seq<Face<S>> = axis_faces(g, i, j, k, axis);
    assert(list.drop_last().len() <= 1);
    if pick(i, j, k, axis) == 0 {
        assert(list.drop_last()[0] == high_face(g, i, j, k, axis));
    }
}

/// Going past a cell counts it in its own layer.
proof fn layer_cells_step<S>(g: Grid<S>, c: int, axis: int, m: int)
    requires
        is_sound(g),
        0 <= c < g.ni * g.nj * g.nk,
        0 <= axis < 3,
        0 <= m < interior_count(g, axis),
    ensures
        numbered_layer_cells(g, c + 1, axis, m) == numbered_layer_cells(g, c, axis, m) + (if pick(
            first_of(c, g.nj, g.nk),
            second_of(c, g.nj, g.nk),
            third_of(c, g.nk),
            axis,
        ) == m {
            1int
        } else {
            0int
        }),
{
    numbered_is_cell(g, c);
    let (i, j, k): (int, int, int) = (
        first_of(c, g.nj, g.nk),
        second_of(c, g.nj, g.nk),
        third_of(c, g.nk),
    );
    flat_steps(i, j, k, g.nj, g.nk);
    lemma_mul_is_distributive_add_other_way(g.nk, j, 1);
    lemma_mul_is_distributive_add_other_way(g.nk, i, 1);
    lemma_mul_is_distributive_add_other_way(g.nj, i, 1);
    lemma_mul_basics(g.nk);
    lemma_mul_basics(g.nj);
    if k + 1 < g.nk {
        flat_splits(i, j, k + 1, g.nj, g.nk);
    } else if j + 1 < g.nj {
        flat_splits(i, j + 1, 0, g.nj, g.nk);
    } else {
        flat_steps(i, j, 0, g.nj, g.nk);
        flat_splits(i + 1, 0, 0, g.nj, g.nk);
    }
}

/// Cells before interior cell number `c` that lie in layer `m` of `axis`.
spec fn numbered_layer_cells<S>(g: Grid<S>, c: int, axis: int, m: int) -> int {
    layer_cells_before(
        g,
        first_of(c, g.nj, g.nk),
        second_of(c, g.nj, g.nk),
        third_of(c, g.nk),
        axis,
        m,
    )
}

/// Cells at the low ends before interior cell number `c`, once per axis.
spec fn low_cells<S>(g: Grid<S>, c: int) -> int {
    numbered_layer_cells(g, c, 0, 0) + numbered_layer_cells(g, c, 1, 0) + numbered_layer_cells(
        g,
        c,
        2,
        0,
    )
}

/// Boundary faces of the cells before interior cell number `c`: those of the cells
/// at the ends that are physical boundaries.
spec fn open_cells<S>(g: Grid<S>, c: int) -> int {
    if_open(g, 0, numbered_layer_cells(g, c, 0, 0)) + if_open(
        g,
        1,
        numbered_layer_cells(g, c, 0, g.ni - 1),
    ) + if_open(g, 2, numbered_layer_cells(g, c, 1, 0)) + if_open(
        g,
        3,
        numbered_layer_cells(g, c, 1, g.nj - 1),
    ) + if_open(g, 4, numbered_layer_cells(g, c, 2, 0)) + if_open(
        g,
        5,
        numbered_layer_cells(g, c, 2, g.nk - 1),
    )
}

/// One where the cell number `c` lies in layer `m` of `axis`.
spec fn lies_in<S>(g: Grid<S>, c: int, axis: int, m: int) -> int {
    if pick(
        first_of(c, g.nj, g.nk),
        second_of(c, g.nj, g.nk),
        third_of(c, g.nk),
        axis,
    ) == m {
        1
    } else {
        0
    }
}

/// What one more cell adds to the cells at the ends.
proof fn end_cells_step<S>(g: Grid<S>, c: int)
    requires
        is_sound(g),
        1 <= g.ni,
        0 <= c < g.ni * g.nj * g.nk,
    ensures
        low_cells(g, c + 1) == low_cells(g, c) + lies_in(g, c, 0, 0) + lies_in(g, c, 1, 0)
            + lies_in(g, c, 2, 0),
        open_cells(g, c + 1) == open_cells(g, c) + if_open(g, 0, lies_in(g, c, 0, 0)) + if_open(
            g,
            1,
            lies_in(g, c, 0, g.ni - 1),
        ) + if_open(g, 2, lies_in(g, c, 1, 0)) + if_open(g, 3, lies_in(g, c, 1, g.nj - 1))
            + if_open(g, 4, lies_in(g, c, 2, 0)) + if_open(g, 5, lies_in(g, c, 2, g.nk - 1)),
{
    layer_cells_step(g, c, 0, 0);
    layer_cells_step(g, c, 1, 0);
    layer_cells_step(g, c, 2, 0);
    layer_cells_step(g, c, 0, g.ni - 1);
    layer_cells_step(g, c, 1, g.nj - 1);
    layer_cells_step(g, c, 2, g.nk - 1);
}

/// No cell comes before the first.
proof fn no_cells_at_first<S>(g: Grid<S>)
    requires
        is_sound(g),
        1 <= g.ni,
    ensures
        low_cells(g, 0) == 0,
        open_cells(g, 0) == 0,
{
    flat_steps(0, 0, 0, g.nj, g.nk);
    flat_splits(0, 0, 0, g.nj, g.nk);
    lemma_mul_basics(g.nk);
    lemma_mul_basics(g.nj);
}

/// The number of faces, and of boundary faces, of the first `c` interior cells.
proof fn faces_before<S: Scalar>(g: Grid<S>, c: int)
    requires
        is_sound(g),
        1 <= g.ni,
        0 <= c <= g.ni * g.nj * g.nk,
    ensures
        faces_upto(g, c).len() == 3 * c + low_cells(g, c),
        boundary_count(faces_upto(g, c)) == open_cells(g, c),
    decreases c,
{
    if c == 0 {
        no_cells_at_first(g);
    } else {
        let b: int = c - 1;
        faces_before(g, b);
        numbered_is_cell(g, b);
        let (i, j, k): (int, int, int) = (
            first_of(b, g.nj, g.nk),
            second_of(b, g.nj, g.nk),
            third_of(b, g.nk),
        );
        let x: Seq<Face<S>> = axis_faces(g, i, j, k, 0);
        let y: Seq<Face<S>> = axis_faces(g, i, j, k, 1);
        let z: Seq<Face<S>> = axis_faces(g, i, j, k, 2);
        boundary_count_adds(faces_upto(g, b), x + y + z);
        boundary_count_adds(x + y, z);
        boundary_count_adds(x, y);
        axis_faces_counted(g, i, j, k, 0);
        axis_faces_counted(g, i, j, k, 1);
        axis_faces_counted(g, i, j, k, 2);
        end_cells_step(g, b);
    }
}

/// Every part has three faces per cell and one more per cell at each low end; the
/// faces at the ends behind which no rank lies are its boundary faces.
pub proof fn faces_are_counted<S: Scalar>(g: Grid<S>)
    requires
        is_sound(g),
        1 <= g.ni,
    ensures
        all_faces(g).len() == 3 * (g.ni * g.nj * g.nk) + g.nj * g.nk + g.ni * g.nk + g.ni * g.nj,
        boundary_count(all_faces(g)) == if_open(g, 0, g.nj * g.nk) + if_open(g, 1, g.nj * g.nk)
            + if_open(g, 2, g.ni * g.nk) + if_open(g, 3, g.ni * g.nk) + if_open(g, 4, g.ni * g.nj)
            + if_open(g, 5, g.ni * g.nj),
{
    let n: int = g.ni * g.nj * g.nk;
    assert(n == flat(g.ni, 0, 0, g.nj, g.nk));
    assert(0 <= n) by (nonlinear_arith)
        requires
            n == g.ni * g.nj * g.nk,
            1 <= g.ni,
            1 <= g.nj,
            1 <= g.nk,
    ;
    flat_splits(g.ni, 0, 0, g.nj, g.nk);
    faces_before(g, n);
}

// ---------------------------------------------------------------------------
// Halo links.
// ---------------------------------------------------------------------------

/// `b` is the part that follows `a` along `axis`: it starts where `a` ends, and
/// covers the same cells along the other axes.
pub open spec fn follows<S>(a: Grid<S>, b: Grid<S>, axis: int) -> bool {
    &&& a.ng == b.ng
    &&& a.beyond[2 * axis + 1] == interior_count(b, axis)
    &&& b.beyond[2 * axis] == interior_count(a, axis)
    &&& forall|x: int|
        #![trigger a.offset[x]]
        #![trigger b.offset[x]]
        0 <= x < 3 ==> if x == axis {
            b.offset[x] == a.offset[x] + interior_count(a, x)
        } else {
            b.offset[x] == a.offset[x] && interior_count(a, x) == interior_count(b, x)
        }
}

/// The raw indices of cell `t` of a slab.
pub proof fn slab_cell_splits<S>(g: Grid<S>, axis: int, first: int, depth: int, t: int)
    requires
        is_sound(g),
        0 <= axis < 3,
        0 <= first,
        0 <= depth,
        first + depth <= total_count(g, axis),
        0 <= t < slab_size(g, axis, depth),
    ensures
        ({
            let n1: int = interior_count(g, next_axis(axis));
            let n2: int = interior_count(g, next_axis(next_axis(axis)));
            let c: int = slab_cell(g, axis, first, t);
            &&& 0 <= c < cell_count(g)
            &&& raw_of(g, c, axis) == first + first_of(t, n1, n2)
            &&& raw_of(g, c, next_axis(axis)) == g.ng + second_of(t, n1, n2)
            &&& raw_of(g, c, next_axis(next_axis(axis))) == g.ng + third_of(t, n2)
            &&& 0 <= first_of(t, n1, n2) < depth
            &&& 0 <= second_of(t, n1, n2) < n1
            &&& 0 <= third_of(t, n2) < n2
        }),
{
    let n1: int = interior_count(g, next_axis(axis));
    let n2: int = interior_count(g, next_axis(next_axis(axis)));
    if n1 == 0 || n2 == 0 {
        assert(slab_size(g, axis, depth) == 0) by (nonlinear_arith)
            requires
                slab_size(g, axis, depth) == depth * n1 * n2,
                n1 == 0 || n2 == 0,
        ;
    }
    flat_joins(t, depth, n1, n2);
    let d: int = first + first_of(t, n1, n2);
    let d1: int = g.ng + second_of(t, n1, n2);
    let d2: int = g.ng + third_of(t, n2);
    if axis == 0 {
        cells_are_numbered_once(g, d, d1, d2);
    } else if axis == 1 {
        cells_are_numbered_once(g, d2, d, d1);
    } else {
        cells_are_numbered_once(g, d1, d2, d);
    }
}

/// Both ends of a halo link list the same cells in the same order: entry by entry,
/// what one part sends across its high side is what the next part receives at its
/// low side, and the other way round. All four lists are as long.
pub proof fn links_agree<S>(a: Grid<S>, b: Grid<S>, axis: int, t: int)
    requires
        is_sound(a),
        is_sound(b),
        0 <= axis < 3,
        follows(a, b, axis),
        0 <= t < side_link(a, axis, true).send.len(),
    ensures
        side_link(a, axis, true).send.len() == side_link(b, axis, false).recv.len(),
        side_link(a, axis, true).recv.len() == side_link(b, axis, false).send.len(),
        side_link(a, axis, true).recv.len() == side_link(a, axis, true).send.len(),
        global_cell(a, side_link(a, axis, true).send[t]) == global_cell(
            b,
            side_link(b, axis, false).recv[t],
        ),
        global_cell(a, side_link(a, axis, true).recv[t]) == global_cell(
            b,
            side_link(b, axis, false).send[t],
        ),
{
    let x1: int = next_axis(axis);
    let x2: int = next_axis(x1);
    let n: int = interior_count(a, axis);
    assert(a.offset[axis] == a.offset[axis]);
    assert(a.offset[x1] == b.offset[x1]);
    assert(a.offset[x2] == b.offset[x2]);
    let depth: int = link_depth(a, 2 * axis + 1);
    assert(depth == link_depth(b, 2 * axis));
    assert(slab_size(a, axis, depth) == slab_size(b, axis, depth));
    slab_cell_splits(a, axis, a.ng + n - depth, depth, t);
    slab_cell_splits(a, axis, a.ng + n, depth, t);
    slab_cell_splits(b, axis, b.ng - depth, depth, t);
    slab_cell_splits(b, axis, b.ng, depth, t);
    let sent: int = side_link(a, axis, true).send[t];
    let held: int = side_link(b, axis, false).recv[t];
    assert(global_cell(a, sent) =~= global_cell(b, held));
    let back: int = side_link(b, axis, false).send[t];
    let kept: int = side_link(a, axis, true).recv[t];
    assert(global_cell(a, kept) =~= global_cell(b, back));
}

/// What a link sends are interior cells, what it receives lands in ghost cells, and
/// both lists have equal length.
pub open spec fn joins_owned_to_ghost<S>(g: Grid<S>, link: Link) -> bool {
    &&& link.send.len() == link.recv.len()
    &&& forall|t: int|
        0 <= t < link.send.len() ==> 0 <= #[trigger] link.send[t] < cell_count(g) && is_interior(
            g,
            link.send[t],
        )
    &&& forall|t: int|
        0 <= t < link.recv.len() ==> 0 <= #[trigger] link.recv[t] < cell_count(g) && !is_interior(
            g,
            link.recv[t],
        )
}

/// The link across any side joins interior cells to ghost cells.
proof fn side_links_join<S>(g: Grid<S>, axis: int, high: bool)
    requires
        is_sound(g),
        0 <= axis < 3,
    ensures
        joins_owned_to_ghost(g, side_link(g, axis, high)),
{
    let n: int = interior_count(g, axis);
    let link: Link = side_link(g, axis, high);
    let s: int = 2 * axis + (if high {
        1int
    } else {
        0int
    });
    let depth: int = link_depth(g, s);
    assert(0 <= g.beyond[s]);
    assert forall|t: int| 0 <= t < link.send.len() implies 0 <= #[trigger] link.send[t]
        < cell_count(g) && is_interior(g, link.send[t]) by {
        if high {
            slab_cell_splits(g, axis, g.ng + n - depth, depth, t);
        } else {
            slab_cell_splits(g, axis, g.ng, depth, t);
        }
    }
    assert forall|t: int| 0 <= t < link.recv.len() implies 0 <= #[trigger] link.recv[t]
        < cell_count(g) && !is_interior(g, link.recv[t]) by {
        if high {
            slab_cell_splits(g, axis, g.ng + n, depth, t);
        } else {
            slab_cell_splits(g, axis, g.ng - depth, depth, t);
        }
    }
}

/// On every link of a part, what is sent are interior cells and what is received
/// lands in ghost cells, however thin the part is.
pub proof fn links_join_owned_to_ghost<S>(g: Grid<S>, l: int)
    requires
        is_sound(g),
        0 <= l < all_links(g).len(),
    ensures
        joins_owned_to_ghost(g, all_links(g)[l]),
{
    links_upto_join(g, 6, l);
}

/// The links across the first `s` sides join interior cells to ghost cells.
proof fn links_upto_join<S>(g: Grid<S>, s: int, l: int)
    requires
        is_sound(g),
        0 <= s <= 6,
        0 <= l < links_upto(g, s).len(),
    ensures
        joins_owned_to_ghost(g, links_upto(g, s)[l]),
    decreases s,
{
    if l < links_upto(g, s - 1).len() {
        links_upto_join(g, s - 1, l);
    } else {
        side_links_join(g, (s - 1) / 2, (s - 1) % 2 == 1);
    }
}

/// The parts of two ranks beside each other follow one another, and each names the
/// other as its neighbor across the shared side.
pub proof fn neighboring_parts_follow<S: Scalar>(
    cfg: Domain<S>,
    decomp: Seq<int>,
    pos: Seq<int>,
    axis: int,
)
    requires
        0 <= axis < 3,
        pos.len() == 3,
        forall|x: int| 0 <= x < 3 ==> 0 <= #[trigger] pos[x] < decomp[x],
        pos[axis] + 1 < decomp[axis],
    ensures
        ({
            let next: Seq<int> = pos.update(axis, pos[axis] + 1);
            let a: Grid<S> = part_of(cfg, decomp, pos);
            let b: Grid<S> = part_of(cfg, decomp, next);
            &&& follows(a, b, axis)
            &&& a.neighbor[2 * axis + 1] == rank_at(next[0], next[1], next[2], decomp[1], decomp[2])
            &&& b.neighbor[2 * axis] == rank_at(pos[0], pos[1], pos[2], decomp[1], decomp[2])
        }),
{
    let next: Seq<int> = pos.update(axis, pos[axis] + 1);
    let n: int = cfg.counts()[axis];
    assert(0 <= pos[axis]);
    spans_tile_the_axis(n, decomp[axis]);
    assert(span_start(n, decomp[axis], pos[axis] + 1) == span_start(n, decomp[axis], pos[axis])
        + span_count(n, decomp[axis], pos[axis]));
    assert(next.update(axis, next[axis] - 1) =~= pos);
    assert(part_of(cfg, decomp, pos).beyond[2 * axis + 1] == neighbor_layers(
        cfg.counts(),
        decomp,
        pos,
        2 * axis + 1,
    ));
    assert(part_of(cfg, decomp, next).beyond[2 * axis] == neighbor_layers(
        cfg.counts(),
        decomp,
        next,
        2 * axis,
    ));
}

/// Every neighbor of a part has a link: that across the shared side.
pub proof fn every_neighbor_has_a_link<S>(g: Grid<S>, s: int)
    requires
        0 <= s < 6,
        g.neighbor[s] >= 0,
    ensures
        all_links(g).contains(side_link(g, s / 2, s % 2 == 1)),
        side_link(g, s / 2, s % 2 == 1).rank == g.neighbor[s],
{
    links_upto_hold(g, 6, s);
}

/// The links across the first `n` sides hold that across side `s`.
proof fn links_upto_hold<S>(g: Grid<S>, n: int, s: int)
    requires
        0 <= s < n <= 6,
        g.neighbor[s] >= 0,
    ensures
        links_upto(g, n).contains(side_link(g, s / 2, s % 2 == 1)),
    decreases n,
{
    let link: Link = side_link(g, s / 2, s % 2 == 1);
    let (all, before): (Seq<Link>, Seq<Link>) = (links_upto(g, n), links_upto(g, n - 1));
    if s == n - 1 {
        assert(all[before.len() as int] == link);
    } else {
        links_upto_hold(g, n - 1, s);
        let l: int = choose|l: int| 0 <= l < before.len() && before[l] == link;
        assert(all[l] == link);
    }
}

/// The side that link number `l` of the first `n` sides leads across; links come in
/// the order of their sides.
proof fn side_of_link<S>(g: Grid<S>, n: int, l: int) -> (s: int)
    requires
        0 <= n <= 6,
        0 <= l < links_upto(g, n).len(),
    ensures
        0 <= s < n,
        g.neighbor[s] >= 0,
        links_upto(g, n)[l] == side_link(g, s / 2, s % 2 == 1),
        l == links_upto(g, s).len(),
    decreases n,
{
    if l < links_upto(g, n - 1).len() {
        side_of_link(g, n - 1, l)
    } else {
        n - 1
    }
}

/// The neighbors of a part across two sides are different ranks.
proof fn neighbors_differ(decomp: Seq<int>, pos: Seq<int>, s: int, t: int)
    requires
        pos.len() == 3,
        forall|x: int| 0 <= x < 3 ==> 0 <= #[trigger] pos[x] < decomp[x],
        0 <= s < 6,
        0 <= t < 6,
        s != t,
        neighbor_rank(decomp, pos, s) >= 0,
        neighbor_rank(decomp, pos, t) >= 0,
    ensures
        neighbor_rank(decomp, pos, s) != neighbor_rank(decomp, pos, t),
{
    let (a, b): (int, int) = (s / 2, t / 2);
    let (u, v): (int, int) = (
        if s % 2 == 1 {
            1
        } else {
            -1
        },
        if t % 2 == 1 {
            1
        } else {
            -1
        },
    );
    let p: Seq<int> = pos.update(a, pos[a] + u);
    let q: Seq<int> = pos.update(b, pos[b] + v);
    assert(0 <= pos[0] < decomp[0] && 0 <= pos[1] < decomp[1] && 0 <= pos[2] < decomp[2]);
    rank_positions_are_unique(p[0], p[1], p[2], decomp[1], decomp[2]);
    rank_positions_are_unique(q[0], q[1], q[2], decomp[1], decomp[2]);
    if neighbor_rank(decomp, pos, s) == neighbor_rank(decomp, pos, t) {
        assert(p[0] == q[0] && p[1] == q[1] && p[2] == q[2]);
        assert(p[a] == q[a] && p[b] == q[b]);
    }
}

/// No two links of a part lead to the same rank.
pub proof fn links_lead_to_different_ranks<S: Scalar>(
    cfg: Domain<S>,
    decomp: Seq<int>,
    pos: Seq<int>,
    l: int,
    m: int,
)
    requires
        pos.len() == 3,
        forall|x: int| 0 <= x < 3 ==> 0 <= #[trigger] pos[x] < decomp[x],
        0 <= l < m < all_links(part_of(cfg, decomp, pos)).len(),
    ensures
        all_links(part_of(cfg, decomp, pos))[l].rank != all_links(
            part_of(cfg, decomp, pos),
        )[m].rank,
{
    let g: Grid<S> = part_of(cfg, decomp, pos);
    let s: int = side_of_link(g, 6, l);
    let t: int = side_of_link(g, 6, m);
    assert(s != t);
    neighbors_differ(decomp, pos, s, t);
}

/// Two parts beside each other have one link to each other: all four lists are as
/// long, and entry by entry what one sends is what the other receives.
pub proof fn neighbors_exchange_the_same_cells<S: Scalar>(
    cfg: Domain<S>,
    decomp: Seq<int>,
    pos: Seq<int>,
    axis: int,
) -> (r: (int, int))
    requires
        0 <= axis < 3,
        pos.len() == 3,
        forall|x: int| 0 <= x < 3 ==> 0 <= #[trigger] pos[x] < decomp[x],
        pos[axis] + 1 < decomp[axis],
        is_sound(part_of(cfg, decomp, pos)),
        is_sound(part_of(cfg, decomp, pos.update(axis, pos[axis] + 1))),
    ensures
        ({
            let next: Seq<int> = pos.update(axis, pos[axis] + 1);
            let (a, b): (Grid<S>, Grid<S>) = (
                part_of(cfg, decomp, pos),
                part_of(cfg, decomp, next),
            );
            let (k, l): (Link, Link) = (all_links(a)[r.0], all_links(b)[r.1]);
            &&& 0 <= r.0 < all_links(a).len()
            &&& 0 <= r.1 < all_links(b).len()
            &&& k.rank == rank_at(next[0], next[1], next[2], decomp[1], decomp[2])
            &&& l.rank == rank_at(pos[0], pos[1], pos[2], decomp[1], decomp[2])
            &&& forall|m: int|
                0 <= m < all_links(a).len() && (#[trigger] all_links(a)[m]).rank == k.rank ==> m
                    == r.0
            &&& forall|m: int|
                0 <= m < all_links(b).len() && (#[trigger] all_links(b)[m]).rank == l.rank ==> m
                    == r.1
            &&& k.send.len() == k.recv.len() == l.send.len() == l.recv.len()
            &&& forall|t: int|
                0 <= t < k.send.len() ==> global_cell(a, #[trigger] k.send[t]) == global_cell(
                    b,
                    l.recv[t],
                ) && global_cell(b, l.send[t]) == global_cell(a, k.recv[t])
        }),
{
    let next: Seq<int> = pos.update(axis, pos[axis] + 1);
    let (a, b): (Grid<S>, Grid<S>) = (part_of(cfg, decomp, pos), part_of(cfg, decomp, next));
    assert(0 <= pos[0] < decomp[0] && 0 <= pos[1] < decomp[1] && 0 <= pos[2] < decomp[2]);
    neighboring_parts_follow(cfg, decomp, pos, axis);
    rank_is_counted(pos, decomp);
    rank_is_counted(next, decomp);
    let (s, t): (int, int) = (2 * axis + 1, 2 * axis);
    every_neighbor_has_a_link(a, s);
    every_neighbor_has_a_link(b, t);
    let (k, l): (Link, Link) = (side_link(a, axis, true), side_link(b, axis, false));
    let i: int = choose|i: int| 0 <= i < all_links(a).len() && all_links(a)[i] == k;
    let j: int = choose|j: int| 0 <= j < all_links(b).len() && all_links(b)[j] == l;
    assert forall|m: int|
        0 <= m < all_links(a).len() && (#[trigger] all_links(a)[m]).rank == k.rank implies m
        == i by {
        if m < i {
            links_lead_to_different_ranks(cfg, decomp, pos, m, i);
        } else if i < m {
            links_lead_to_different_ranks(cfg, decomp, pos, i, m);
        }
    }
    assert forall|m: int|
        0 <= m < all_links(b).len() && (#[trigger] all_links(b)[m]).rank == l.rank implies m
        == j by {
        if m < j {
            links_lead_to_different_ranks(cfg, decomp, next, m, j);
        } else if j < m {
            links_lead_to_different_ranks(cfg, decomp, next, j, m);
        }
    }
    let depth: int = link_depth(a, s);
    assert(depth == link_depth(b, t));
    assert(slab_size(a, axis, depth) == slab_size(b, axis, depth));
    assert forall|q: int| 0 <= q < k.send.len() implies global_cell(a, #[trigger] k.send[q])
        == global_cell(b, l.recv[q]) && global_cell(b, l.send[q]) == global_cell(
        a,
        k.recv[q],
    ) by {
        links_agree(a, b, axis, q);
    }
    (i, j)
}

/// The rank of a position is not negative.
proof fn rank_is_counted(pos: Seq<int>, decomp: Seq<int>)
    requires
        0 <= pos[0] < decomp[0],
        0 <= pos[1] < decomp[1],
        0 <= pos[2] < decomp[2],
    ensures
        rank_at(pos[0], pos[1], pos[2], decomp[1], decomp[2]) >= 0,
{
    let (x, y, z): (int, int, int) = (pos[0], pos[1], pos[2]);
    let (ny, nz): (int, int) = (decomp[1], decomp[2]);
    assert(0 <= x * (ny * nz) + y * nz + z) by (nonlinear_arith)
        requires
            0 <= x,
            0 <= y < ny,
            0 <= z < nz,
    ;
}

/// A part alone in its process grid has no halo links.
pub proof fn a_part_alone_has_no_links<S>(g: Grid<S>, s: int)
    requires
        is_alone(g),
        0 <= s <= 6,
    ensures
        links_upto(g, s).len() == 0,
    decreases s,
{
    if s > 0 {
        a_part_alone_has_no_links(g, s - 1);
        assert(g.neighbor[s - 1] < 0);
    }
}

/// The only rank of a process grid is alone.
pub proof fn the_only_part_is_alone<S: Scalar>(cfg: Domain<S>)
    ensures
        is_alone(part_of(cfg, seq![1int, 1int, 1int], seq![0int, 0int, 0int])),
        part_of(cfg, seq![1int, 1int, 1int], seq![0int, 0int, 0int]).ni == cfg.nx,
        part_of(cfg, seq![1int, 1int, 1int], seq![0int, 0int, 0int]).nj == cfg.ny,
        part_of(cfg, seq![1int, 1int, 1int], seq![0int, 0int, 0int]).nk == cfg.nz,
{
    spans_tile_the_axis(cfg.nx as int, 1);
    spans_tile_the_axis(cfg.ny as int, 1);
    spans_tile_the_axis(cfg.nz as int, 1);
    assert(span_start(cfg.nx as int, 1, 0int + 1) == cfg.nx);
    assert(span_start(cfg.ny as int, 1, 0int + 1) == cfg.ny);
    assert(span_start(cfg.nz as int, 1, 0int + 1) == cfg.nz);
    let g: Grid<S> = part_of(cfg, seq![1int, 1int, 1int], seq![0int, 0int, 0int]);
    assert forall|s: int| 0 <= s < 6 implies #[trigger] g.neighbor[s] < 0 by {
        assert(s == 0 || s == 1 || s == 2 || s == 3 || s == 4 || s == 5);
    }
}

} // verus!
