//! The mathematical model of a structured Cartesian grid with ghost layers: its
//! geometry, its faces, and the halo links of one rank's part.
//!
//! [`crate::uniform::UniformMesh`] is the executable counterpart; its contracts
//! are stated over [`Grid`].

use crate::decomposition::rank_at;
use crate::decomposition::span_count;
use crate::halo::Link;
use crate::index::first_of;
use crate::index::flat;
use crate::index::flat_joins;
use crate::index::flat_splits;
use crate::index::flat_steps;
use crate::index::second_of;
use crate::index::third_of;
use crate::mesh::Bracket;
use crate::mesh::Face;
use crate::mesh::Vec3;
use crate::mesh::count_set;
use crate::scalar::Scalar;
use vstd::arithmetic::mul::*;
use vstd::prelude::*;

verus! {

/// One rank's part of a structured grid.
///
/// Raw indices count from the outermost ghost layer, interior indices from the
/// first owned cell.
pub ghost struct Grid<S> {
    /// Interior cells along x.
    pub ni: int,
    /// Interior cells along y.
    pub nj: int,
    /// Interior cells along z.
    pub nk: int,
    /// Ghost layers on each side.
    pub ng: int,
    /// Cell width along x.
    pub dx: S,
    /// Cell width along y, by raw index.
    pub dy: Seq<S>,
    /// Cell width along z, by raw index.
    pub dz: Seq<S>,
    /// Cell center along y, by raw index.
    pub y: Seq<S>,
    /// Cell center along z, by raw index.
    pub z: Seq<S>,
    /// Lower corner of the whole domain.
    pub origin: Seq<S>,
    /// Where this part starts, in cells of the whole grid.
    pub offset: Seq<int>,
    /// Neighbor rank by side number; negative on a physical boundary.
    pub neighbor: Seq<int>,
    /// Layers that the neighbor owns behind each side; none on a physical boundary.
    pub beyond: Seq<int>,
}

// ---------------------------------------------------------------------------
// Indices.
// ---------------------------------------------------------------------------

/// Interior cells along `axis`.
pub open spec fn interior_count<S>(g: Grid<S>, axis: int) -> int {
    if axis == 0 {
        g.ni
    } else if axis == 1 {
        g.nj
    } else {
        g.nk
    }
}

/// Cells along `axis`, ghost layers included.
pub open spec fn total_count<S>(g: Grid<S>, axis: int) -> int {
    interior_count(g, axis) + 2 * g.ng
}

/// Number of cells, ghost layers included.
pub open spec fn cell_count<S>(g: Grid<S>) -> int {
    total_count(g, 0) * total_count(g, 1) * total_count(g, 2)
}

/// Flat index of the cell with raw indices `(ir, jr, kr)`.
pub open spec fn raw<S>(g: Grid<S>, ir: int, jr: int, kr: int) -> int {
    flat(ir, jr, kr, total_count(g, 1), total_count(g, 2))
}

/// Flat index of interior cell `(i, j, k)`.
pub open spec fn inner<S>(g: Grid<S>, i: int, j: int, k: int) -> int {
    raw(g, i + g.ng, j + g.ng, k + g.ng)
}

/// Raw index of cell `c` along `axis`.
pub open spec fn raw_of<S>(g: Grid<S>, c: int, axis: int) -> int {
    if axis == 0 {
        first_of(c, total_count(g, 1), total_count(g, 2))
    } else if axis == 1 {
        second_of(c, total_count(g, 1), total_count(g, 2))
    } else {
        third_of(c, total_count(g, 2))
    }
}

/// `m` is the raw index of an interior layer of `axis`.
pub open spec fn is_inner_layer<S>(g: Grid<S>, axis: int, m: int) -> bool {
    g.ng <= m < g.ng + interior_count(g, axis)
}

/// Cell `c` is an interior, owned cell.
pub open spec fn is_interior<S>(g: Grid<S>, c: int) -> bool {
    &&& is_inner_layer(g, 0, raw_of(g, c, 0))
    &&& is_inner_layer(g, 1, raw_of(g, c, 1))
    &&& is_inner_layer(g, 2, raw_of(g, c, 2))
}

/// For each cell, whether it is interior.
pub open spec fn interior_mask<S>(g: Grid<S>) -> Seq<bool> {
    Seq::new(cell_count(g) as nat, |c: int| is_interior(g, c))
}

/// Where cell `c` lies in the whole grid, in cells.
pub open spec fn global_cell<S>(g: Grid<S>, c: int) -> Seq<int> {
    seq![
        g.offset[0] + raw_of(g, c, 0) - g.ng,
        g.offset[1] + raw_of(g, c, 1) - g.ng,
        g.offset[2] + raw_of(g, c, 2) - g.ng,
    ]
}

// ---------------------------------------------------------------------------
// Geometry.
// ---------------------------------------------------------------------------

/// Cell edge `i` of an axis of `n` cells: the given edge, or one of `n + 1` evenly
/// spaced edges from `lo` to `hi`, the last of which is `hi` itself.
pub open spec fn axis_edge<S: Scalar>(given: Option<Seq<S>>, n: int, lo: S, hi: S, i: int) -> S {
    match given {
        Some(edges) => edges[i],
        None => if i == n {
            hi
        } else {
            lo.plus_spec(
                S::count_spec(i).times_spec(hi.minus_spec(lo)).over_spec(S::count_spec(n)),
            )
        },
    }
}

/// All cell edges of an axis.
pub open spec fn axis_edges<S: Scalar>(given: Option<Seq<S>>, n: int, lo: S, hi: S) -> Seq<S> {
    Seq::new((n + 1) as nat, |i: int| axis_edge(given, n, lo, hi, i))
}

/// Edge `m`, by raw index, of the `n` cells that start at `first`: an edge of the
/// axis, or in the ghost layers a continuation at the width of the outermost cell.
pub open spec fn local_edge<S: Scalar>(edges: Seq<S>, first: int, n: int, ng: int, m: int) -> S {
    if m < ng {
        edges[first].minus_spec(
            S::count_spec(ng - m).times_spec(edges[first + 1].minus_spec(edges[first])),
        )
    } else if m <= ng + n {
        edges[first + m - ng]
    } else {
        edges[first + n].plus_spec(
            S::count_spec(m - ng - n).times_spec(
                edges[first + n].minus_spec(edges[first + n - 1]),
            ),
        )
    }
}

/// Cell widths by raw index.
pub open spec fn local_widths<S: Scalar>(edges: Seq<S>, first: int, n: int, ng: int) -> Seq<S> {
    Seq::new(
        (n + 2 * ng) as nat,
        |m: int|
            local_edge(edges, first, n, ng, m + 1).minus_spec(local_edge(edges, first, n, ng, m)),
    )
}

/// Cell centers by raw index.
pub open spec fn local_centers<S: Scalar>(edges: Seq<S>, first: int, n: int, ng: int) -> Seq<S> {
    Seq::new(
        (n + 2 * ng) as nat,
        |m: int|
            local_edge(edges, first, n, ng, m).plus_spec(
                local_edge(edges, first, n, ng, m + 1),
            ).halved_spec(),
    )
}

/// Center along x of the cells with raw index `ir`.
pub open spec fn x_center<S: Scalar>(g: Grid<S>, ir: int) -> S {
    g.origin[0].plus_spec(S::count_spec(g.offset[0] + ir - g.ng).times_spec(g.dx)).plus_spec(
        g.dx.halved_spec(),
    )
}

/// Center of the cell with raw indices `(ir, jr, kr)`.
pub open spec fn center_at<S: Scalar>(g: Grid<S>, ir: int, jr: int, kr: int) -> Seq<S> {
    seq![x_center(g, ir), g.y[jr], g.z[kr]]
}

/// Volume of the cell with raw indices `jr` and `kr` along y and z.
pub open spec fn volume_at<S: Scalar>(g: Grid<S>, jr: int, kr: int) -> S {
    g.dx.times_spec(g.dy[jr]).times_spec(g.dz[kr])
}

/// Cell width along `axis` at interior index `n`.
pub open spec fn width_at<S: Scalar>(g: Grid<S>, axis: int, n: int) -> S {
    if axis == 0 {
        g.dx
    } else if axis == 1 {
        g.dy[n + g.ng]
    } else {
        g.dz[n + g.ng]
    }
}

// ---------------------------------------------------------------------------
// Faces.
// ---------------------------------------------------------------------------

/// `(i, j, k)` along `axis`.
pub open spec fn pick(i: int, j: int, k: int, axis: int) -> int {
    if axis == 0 {
        i
    } else if axis == 1 {
        j
    } else {
        k
    }
}

/// Flat index of the cell `step` cells along `axis` from interior cell
/// `(i, j, k)`.
pub open spec fn beside<S>(g: Grid<S>, i: int, j: int, k: int, axis: int, step: int) -> int {
    if axis == 0 {
        inner(g, i + step, j, k)
    } else if axis == 1 {
        inner(g, i, j + step, k)
    } else {
        inner(g, i, j, k + step)
    }
}

/// Area of a face of interior cell `(i, j, k)` normal to `axis`.
pub open spec fn face_area<S: Scalar>(g: Grid<S>, j: int, k: int, axis: int) -> S {
    if axis == 0 {
        width_at(g, 1, j).times_spec(width_at(g, 2, k))
    } else if axis == 1 {
        g.dx.times_spec(width_at(g, 2, k))
    } else {
        g.dx.times_spec(width_at(g, 1, j))
    }
}

/// The vector of length `a` along `axis`.
pub open spec fn along<S: Scalar>(axis: int, a: S) -> Vec3<S> {
    let o: S = S::zero_spec();
    if axis == 0 {
        [a, o, o]
    } else if axis == 1 {
        [o, a, o]
    } else {
        [o, o, a]
    }
}

/// Centroid of the face at half a cell from the center of interior cell
/// `(i, j, k)`, up or down `axis`.
pub open spec fn face_center<S: Scalar>(
    g: Grid<S>,
    i: int,
    j: int,
    k: int,
    axis: int,
    high: bool,
) -> Vec3<S> {
    let x: S = x_center(g, i + g.ng);
    let y: S = g.y[j + g.ng];
    let z: S = g.z[k + g.ng];
    let half: S = width_at(g, axis, pick(i, j, k, axis)).halved_spec();
    if axis == 0 {
        [if high { x.plus_spec(half) } else { x.minus_spec(half) }, y, z]
    } else if axis == 1 {
        [x, if high { y.plus_spec(half) } else { y.minus_spec(half) }, z]
    } else {
        [x, y, if high { z.plus_spec(half) } else { z.minus_spec(half) }]
    }
}

/// The face of interior cell `(i, j, k)` on the high side of `axis`. It lies on a
/// physical boundary if the cell is the last one and no rank is on that side.
pub open spec fn high_face<S: Scalar>(g: Grid<S>, i: int, j: int, k: int, axis: int) -> Face<S> {
    Face {
        owner: inner(g, i, j, k) as usize,
        other: beside(g, i, j, k, axis, 1) as usize,
        area_normal: along(axis, face_area(g, j, k, axis)),
        centroid: face_center(g, i, j, k, axis, true),
        patch: if pick(i, j, k, axis) + 1 == interior_count(g, axis) && g.neighbor[2 * axis + 1]
            < 0 {
            Some((2 * axis + 1) as u32)
        } else {
            None
        },
    }
}

/// The face of interior cell `(i, j, k)` on the low side of `axis`, for a cell at
/// the low end of that axis.
pub open spec fn low_face<S: Scalar>(g: Grid<S>, i: int, j: int, k: int, axis: int) -> Face<S> {
    Face {
        owner: inner(g, i, j, k) as usize,
        other: beside(g, i, j, k, axis, -1) as usize,
        area_normal: along(axis, face_area(g, j, k, axis).negated_spec()),
        centroid: face_center(g, i, j, k, axis, false),
        patch: if g.neighbor[2 * axis] < 0 {
            Some((2 * axis) as u32)
        } else {
            None
        },
    }
}

/// The faces that interior cell `(i, j, k)` presents along `axis`: the high one,
/// and at the low end of the axis the low one.
pub open spec fn axis_faces<S: Scalar>(
    g: Grid<S>,
    i: int,
    j: int,
    k: int,
    axis: int,
) -> Seq<Face<S>> {
    if pick(i, j, k, axis) == 0 {
        seq![high_face(g, i, j, k, axis), low_face(g, i, j, k, axis)]
    } else {
        seq![high_face(g, i, j, k, axis)]
    }
}

/// The faces that interior cell `(i, j, k)` presents.
pub open spec fn cell_faces<S: Scalar>(g: Grid<S>, i: int, j: int, k: int) -> Seq<Face<S>> {
    axis_faces(g, i, j, k, 0) + axis_faces(g, i, j, k, 1) + axis_faces(g, i, j, k, 2)
}

/// The faces of the first `c` interior cells, in lexicographic order.
pub open spec fn faces_upto<S: Scalar>(g: Grid<S>, c: int) -> Seq<Face<S>>
    decreases c,
{
    if c <= 0 {
        Seq::empty()
    } else {
        faces_upto(g, c - 1) + cell_faces(
            g,
            first_of(c - 1, g.nj, g.nk),
            second_of(c - 1, g.nj, g.nk),
            third_of(c - 1, g.nk),
        )
    }
}

/// All faces of the part.
pub open spec fn all_faces<S: Scalar>(g: Grid<S>) -> Seq<Face<S>> {
    faces_upto(g, g.ni * g.nj * g.nk)
}

// ---------------------------------------------------------------------------
// Halo links.
// ---------------------------------------------------------------------------

/// The axis that follows `axis` cyclically.
pub open spec fn next_axis(axis: int) -> int {
    (axis + 1) % 3
}

/// The flat index of the cell with raw index `d` along `axis`, `d1` along the next
/// axis and `d2` along the one after.
pub open spec fn turned<S>(g: Grid<S>, axis: int, d: int, d1: int, d2: int) -> int {
    if axis == 0 {
        raw(g, d, d1, d2)
    } else if axis == 1 {
        raw(g, d2, d, d1)
    } else {
        raw(g, d1, d2, d)
    }
}

/// Cell `t` of the slab of layers across `axis` whose first layer has raw index
/// `first`.
pub open spec fn slab_cell<S>(g: Grid<S>, axis: int, first: int, t: int) -> int {
    let n1: int = interior_count(g, next_axis(axis));
    let n2: int = interior_count(g, next_axis(next_axis(axis)));
    turned(
        g,
        axis,
        first + first_of(t, n1, n2),
        g.ng + second_of(t, n1, n2),
        g.ng + third_of(t, n2),
    )
}

/// Number of cells in a slab of `depth` layers.
pub open spec fn slab_size<S>(g: Grid<S>, axis: int, depth: int) -> int {
    depth * interior_count(g, next_axis(axis)) * interior_count(g, next_axis(next_axis(axis)))
}

/// The slab of `depth` layers across `axis` whose first layer has raw index `first`.
pub open spec fn slab<S>(g: Grid<S>, axis: int, first: int, depth: int) -> Seq<int> {
    Seq::new(slab_size(g, axis, depth) as nat, |t: int| slab_cell(g, axis, first, t))
}

/// The layers that cross side `s`: as many as there are ghost layers, but no more
/// than either of the two ranks owns.
pub open spec fn link_depth<S>(g: Grid<S>, s: int) -> int {
    let n: int = interior_count(g, s / 2);
    let owned: int = if n <= g.beyond[s] {
        n
    } else {
        g.beyond[s]
    };
    if g.ng <= owned {
        g.ng
    } else {
        owned
    }
}

/// The link across one side: the outermost owned layers go out, the ghost layers
/// next to them come in.
pub open spec fn side_link<S>(g: Grid<S>, axis: int, high: bool) -> Link {
    let n: int = interior_count(g, axis);
    if high {
        let depth: int = link_depth(g, 2 * axis + 1);
        Link {
            rank: g.neighbor[2 * axis + 1],
            send: slab(g, axis, g.ng + n - depth, depth),
            recv: slab(g, axis, g.ng + n, depth),
        }
    } else {
        let depth: int = link_depth(g, 2 * axis);
        Link {
            rank: g.neighbor[2 * axis],
            send: slab(g, axis, g.ng, depth),
            recv: slab(g, axis, g.ng - depth, depth),
        }
    }
}

/// The links across the first `s` sides that have a neighbor rank.
pub open spec fn links_upto<S>(g: Grid<S>, s: int) -> Seq<Link>
    decreases s,
{
    if s <= 0 {
        Seq::empty()
    } else if g.neighbor[s - 1] >= 0 {
        links_upto(g, s - 1).push(side_link(g, (s - 1) / 2, (s - 1) % 2 == 1))
    } else {
        links_upto(g, s - 1)
    }
}

/// All halo links of the part.
pub open spec fn all_links<S>(g: Grid<S>) -> Seq<Link> {
    links_upto(g, 6)
}

// ---------------------------------------------------------------------------
// Locating a point.
// ---------------------------------------------------------------------------

/// `x` limited to the range from zero to one.
pub open spec fn clamped<S: Scalar>(x: S) -> S {
    if x.less_spec(S::zero_spec()) {
        S::zero_spec()
    } else if S::one_spec().less_spec(x) {
        S::one_spec()
    } else {
        x
    }
}

/// The first of the first `upto` intervals between consecutive centers that holds
/// `p`, if there is one.
pub open spec fn interval_of<S: Scalar>(p: S, centers: Seq<S>, upto: int) -> Option<int>
    decreases upto,
{
    if upto <= 0 {
        None
    } else {
        match interval_of(p, centers, upto - 1) {
            Some(j) => Some(j),
            None => if centers[upto - 1].at_most_spec(p) && p.less_spec(centers[upto]) {
                Some(upto - 1)
            } else {
                None
            },
        }
    }
}

/// The lower index of the pair of centers around `p`: that of the interval that
/// holds it, the first one below all centers, or the last one at the other end.
pub open spec fn lower_center<S: Scalar>(p: S, centers: Seq<S>) -> int {
    if p.less_spec(centers[0]) {
        0
    } else {
        match interval_of(p, centers, centers.len() - 1) {
            Some(j) => j,
            None => centers.len() - 2,
        }
    }
}

/// The fraction of `p` between the centers `lo` and `lo + 1`; zero where they
/// coincide.
pub open spec fn fraction_at<S: Scalar>(p: S, centers: Seq<S>, lo: int) -> S {
    let gap: S = centers[lo + 1].minus_spec(centers[lo]);
    if gap.less_spec(S::tiny_spec()) && gap.negated_spec().less_spec(S::tiny_spec()) {
        S::zero_spec()
    } else {
        clamped(p.minus_spec(centers[lo]).over_spec(gap))
    }
}

/// There are two cells to bracket between, and `p` lies within the extent of the
/// cells with these centers and widths: half a width beyond the outermost centers.
pub open spec fn is_inside<S: Scalar>(p: S, centers: Seq<S>, widths: Seq<S>) -> bool {
    &&& centers.len() >= 2
    &&& !p.less_spec(centers[0].minus_spec(widths[0].halved_spec()))
    &&& !centers.last().plus_spec(widths.last().halved_spec()).less_spec(p)
}

/// The position of `x` among the centers along x, in cells and by raw index.
pub open spec fn x_position<S: Scalar>(g: Grid<S>, x: S) -> S {
    x.minus_spec(g.origin[0]).over_spec(g.dx).minus_spec(S::one_spec().halved_spec()).minus_spec(
        S::count_spec(g.offset[0]),
    ).plus_spec(S::count_spec(g.ng))
}

/// The raw index of the center below `x`, kept to the centers that have one above.
pub open spec fn x_lower<S: Scalar>(g: Grid<S>, x: S) -> int {
    let below: S = x_position(g, x).floored_spec();
    if below.less_spec(S::zero_spec()) {
        0
    } else if below.index_spec() + 1 < total_count(g, 0) {
        below.index_spec() as int
    } else {
        total_count(g, 0) - 2
    }
}

/// The fraction of `x` between the centers around it, kept to zero below the first
/// center and to one above the last.
pub open spec fn x_fraction<S: Scalar>(g: Grid<S>, x: S) -> S {
    let at: S = x_position(g, x);
    let below: S = at.floored_spec();
    if below.less_spec(S::zero_spec()) {
        S::zero_spec()
    } else if below.index_spec() + 1 < total_count(g, 0) {
        clamped(at.minus_spec(below))
    } else {
        S::one_spec()
    }
}

/// There are two cells along x to bracket between, and `x` lies within the extent
/// of all cells: half a cell beyond the outermost centers.
pub open spec fn x_is_inside<S: Scalar>(g: Grid<S>, x: S) -> bool {
    let at: S = x_position(g, x);
    let half: S = S::one_spec().halved_spec();
    &&& total_count(g, 0) >= 2
    &&& !at.less_spec(half.negated_spec())
    &&& !S::count_spec(total_count(g, 0)).minus_spec(half).less_spec(at)
}

/// The eight cells around `point` and where it lies between them, if it lies within
/// the full extent of the part, ghost cells included. In the outer half of the
/// outermost cells the fraction stays at the outermost center.
pub open spec fn bracket_at<S: Scalar>(g: Grid<S>, point: Vec3<S>) -> Option<Bracket<S>> {
    if x_is_inside(g, point[0]) && is_inside(point[1], g.y, g.dy) && is_inside(
        point[2],
        g.z,
        g.dz,
    ) {
        let j: int = lower_center(point[1], g.y);
        let k: int = lower_center(point[2], g.z);
        Some(
            Bracket {
                lo: seq![x_lower(g, point[0]), j, k],
                t: seq![
                    x_fraction(g, point[0]),
                    fraction_at(point[1], g.y, j),
                    fraction_at(point[2], g.z, k),
                ],
            },
        )
    } else {
        None
    }
}

// ---------------------------------------------------------------------------
// The part of one rank.
// ---------------------------------------------------------------------------

/// The neighbor of the rank at `(px, py, pz)` of a process grid across side `s`,
/// or -1 where the process grid ends.
pub open spec fn neighbor_rank(decomp: Seq<int>, pos: Seq<int>, s: int) -> int {
    let axis: int = s / 2;
    let step: int = if s % 2 == 1 {
        1
    } else {
        -1
    };
    if 0 <= pos[axis] + step < decomp[axis] {
        let p: Seq<int> = pos.update(axis, pos[axis] + step);
        rank_at(p[0], p[1], p[2], decomp[1], decomp[2])
    } else {
        -1
    }
}

/// The layers that the neighbor of the part at `pos` owns behind side `s`.
pub open spec fn neighbor_layers(n: Seq<int>, decomp: Seq<int>, pos: Seq<int>, s: int) -> int {
    let axis: int = s / 2;
    let step: int = if s % 2 == 1 {
        1
    } else {
        -1
    };
    if 0 <= pos[axis] + step < decomp[axis] {
        span_count(n[axis], decomp[axis], pos[axis] + step)
    } else {
        0
    }
}

/// The model is consistent and within machine limits.
pub open spec fn is_sound<S>(g: Grid<S>) -> bool {
    &&& 0 <= g.ni
    &&& 1 <= g.nj
    &&& 1 <= g.nk
    &&& 0 <= g.ng
    &&& cell_count(g) <= usize::MAX
    &&& total_count(g, 0) <= usize::MAX
    &&& g.dy.len() == total_count(g, 1) <= usize::MAX
    &&& g.y.len() == total_count(g, 1)
    &&& g.dz.len() == total_count(g, 2) <= usize::MAX
    &&& g.z.len() == total_count(g, 2)
    &&& g.origin.len() == 3
    &&& g.offset.len() == 3
    &&& 0 <= g.offset[0]
    &&& g.offset[0] + total_count(g, 0) <= i64::MAX
    &&& g.neighbor.len() == 6
    &&& g.beyond.len() == 6
    &&& forall|s: int| 0 <= s < 6 ==> 0 <= #[trigger] g.beyond[s]
}

// ---------------------------------------------------------------------------
// Counting interior cells.
// ---------------------------------------------------------------------------

/// Interior layers among the first `m` of an axis with `n` interior layers behind
/// `ng` ghost layers.
spec fn layers_before(m: int, ng: int, n: int) -> int {
    if m <= ng {
        0
    } else if m >= ng + n {
        n
    } else {
        m - ng
    }
}

/// Interior cells before raw cell `(i, j, k)` in storage order.
spec fn cells_before<S>(g: Grid<S>, i: int, j: int, k: int) -> int {
    layers_before(i, g.ng, g.ni) * (g.nj * g.nk) + (if is_inner_layer(g, 0, i) {
        layers_before(j, g.ng, g.nj) * g.nk + (if is_inner_layer(g, 1, j) {
            layers_before(k, g.ng, g.nk)
        } else {
            0
        })
    } else {
        0
    })
}

/// Counting the marks of the first `c` cells counts the interior cells before
/// cell `c`.
proof fn mask_prefix_is_counted<S>(g: Grid<S>, c: int)
    requires
        is_sound(g),
        0 <= c <= cell_count(g),
    ensures
        count_set(interior_mask(g).take(c)) == cells_before(
            g,
            raw_of(g, c, 0),
            raw_of(g, c, 1),
            raw_of(g, c, 2),
        ),
    decreases c,
{
    let t0: int = total_count(g, 0);
    let t1: int = total_count(g, 1);
    let t2: int = total_count(g, 2);
    let mask: Seq<bool> = interior_mask(g);
    if c == 0 {
        flat_steps(0, 0, 0, t1, t2);
        flat_splits(0, 0, 0, t1, t2);
        assert(mask.take(0).len() == 0);
        lemma_mul_basics(g.nj * g.nk);
        lemma_mul_basics(g.nk);
    } else {
        let b: int = c - 1;
        mask_prefix_is_counted(g, b);
        flat_joins(b, t0, t1, t2);
        let i: int = raw_of(g, b, 0);
        let j: int = raw_of(g, b, 1);
        let k: int = raw_of(g, b, 2);
        assert(mask.take(c).drop_last() =~= mask.take(b));
        assert(mask.take(c).last() == is_interior(g, b));
        flat_steps(i, j, k, t1, t2);
        let bj: int = layers_before(j, g.ng, g.nj);
        let bi: int = layers_before(i, g.ng, g.ni);
        lemma_mul_is_distributive_add_other_way(g.nk, bj, 1);
        lemma_mul_is_distributive_add_other_way(g.nj * g.nk, bi, 1);
        lemma_mul_basics(g.nk);
        lemma_mul_basics(g.nj * g.nk);
        if k + 1 < t2 {
            flat_splits(i, j, k + 1, t1, t2);
        } else if j + 1 < t1 {
            flat_splits(i, j + 1, 0, t1, t2);
        } else {
            flat_steps(i, j, 0, t1, t2);
            flat_splits(i + 1, 0, 0, t1, t2);
        }
    }
}

/// A grid has as many interior cells as the product of its interior counts.
pub proof fn interior_is_counted<S>(g: Grid<S>)
    requires
        is_sound(g),
    ensures
        count_set(interior_mask(g)) == g.ni * g.nj * g.nk,
{
    let t0: int = total_count(g, 0);
    let t1: int = total_count(g, 1);
    let t2: int = total_count(g, 2);
    let n: int = cell_count(g);
    assert(0 <= n) by (nonlinear_arith)
        requires
            n == t0 * t1 * t2,
            0 <= t0,
            0 <= t1,
            0 <= t2,
    ;
    mask_prefix_is_counted(g, n);
    assert(interior_mask(g).take(n) =~= interior_mask(g));
    assert(n == flat(t0, 0, 0, t1, t2));
    flat_splits(t0, 0, 0, t1, t2);
    lemma_mul_is_associative(g.ni, g.nj, g.nk);
}

} // verus!
