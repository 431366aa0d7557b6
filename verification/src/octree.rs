//! A finite-volume mesh over the leaves of a forest of octrees.
//!
//! The face list follows from the face neighbors of every leaf:
//! - a neighbor of the same level gives one face, listed once;
//! - a coarser neighbor gives a face of the fine leaf. All four fine leaves on the
//!   coarse face report it, so four fine faces cover the coarse face, and a
//!   two-sided scatter adds them up in the coarse cell;
//! - finer neighbors on this rank list those faces themselves; for finer neighbors
//!   on another rank the coarse leaf lists the sub-faces;
//! - a physical boundary gives a ghost cell mirrored across the face;
//! - a neighbor on another rank gives a face to its ghost cell, which the halo
//!   exchange fills.

use crate::amr::along_axis;
use crate::amr::axis_vector;
use crate::amr::copied;
use crate::forest::DirNeighbors;
use crate::forest::FinerSet;
use crate::forest::LeafInfo;
use crate::forest::NeighborSet;
use crate::halo::HaloLink;
use crate::halo::HaloPlan;
use crate::halo::Link;
use crate::mesh::AdaptiveMesh;
use crate::mesh::CartesianMesh;
use crate::mesh::CoarseFineFace;
use crate::mesh::Face;
use crate::mesh::FvMesh;
use crate::mesh::Vec3;
use crate::mesh::count_set;
use crate::scalar::Scalar;
use vstd::prelude::*;

verus! {

/// What a forest reports of itself on one rank.
pub struct ForestState<S> {
    /// The leaves of this rank.
    pub leaves: Vec<LeafInfo<S>>,
    /// The leaves of other ranks that touch this rank's, grouped by owner rank.
    pub ghosts: Vec<LeafInfo<S>>,
    /// The neighbors across each face: six per leaf, by face number.
    pub sides: Vec<NeighborSet>,
    /// Number of ranks.
    pub mpisize: usize,
    /// This rank.
    pub mpirank: usize,
    /// For each rank, where its ghosts start in the ghost layer; and their number.
    pub recv_off: Vec<i32>,
    /// For each rank, where the leaves to send to it start in `send_locals`; and
    /// the number of those.
    pub send_off: Vec<i32>,
    /// The leaves to send, grouped by receiving rank.
    pub send_locals: Vec<i32>,
}

/// One cell of the mesh.
#[derive(Debug, Clone, Copy)]
pub struct Cell<S> {
    /// Center in physical space.
    pub center: Vec3<S>,
    /// Extent along each axis.
    pub size: Vec3<S>,
    /// Refinement level.
    pub level: u8,
    /// The cell is not owned by this rank.
    pub is_ghost: bool,
}

// ---------------------------------------------------------------------------
// The model.
// ---------------------------------------------------------------------------

/// The leaves, ghosts and neighbors that a forest reports.
pub ghost struct Octants<S> {
    /// The leaves of this rank.
    pub leaves: Seq<LeafInfo<S>>,
    /// The ghost layer.
    pub ghosts: Seq<LeafInfo<S>>,
    /// The neighbors across each face, six per leaf.
    pub sides: Seq<NeighborSet>,
}

impl<S> View for ForestState<S> {
    type V = Octants<S>;

    open spec fn view(&self) -> Octants<S> {
        Octants { leaves: self.leaves@, ghosts: self.ghosts@, sides: self.sides@ }
    }
}

/// A level below zero counts as zero.
pub open spec fn cell_level(level: i8) -> u8 {
    if level < 0 {
        0
    } else {
        level as u8
    }
}

/// The cell of a leaf.
pub open spec fn cell_of<S>(leaf: LeafInfo<S>, is_ghost: bool) -> Cell<S> {
    Cell { center: leaf.center, size: leaf.size, level: cell_level(leaf.level), is_ghost }
}

/// The cells of the leaves, and after them those of the ghost layer.
pub open spec fn base_cells<S>(o: Octants<S>) -> Seq<Cell<S>> {
    Seq::new(
        o.leaves.len() + o.ghosts.len(),
        |c: int|
            if c < o.leaves.len() {
                cell_of(o.leaves[c], false)
            } else {
                cell_of(o.ghosts[c - o.leaves.len()], true)
            },
    )
}

/// The direction of side `t` along its axis.
pub open spec fn side_sign<S: Scalar>(t: int) -> S {
    if t % 2 == 1 {
        S::one_spec()
    } else {
        S::one_spec().negated_spec()
    }
}

/// The axis that side `t` is normal to.
pub open spec fn side_axis(t: int) -> int {
    t % 6 / 2
}

/// `v` moved by `d` along `axis`.
pub open spec fn moved<S: Scalar>(v: Vec3<S>, axis: int, d: S) -> Vec3<S> {
    if axis == 0 {
        [v[0].plus_spec(d), v[1], v[2]]
    } else if axis == 1 {
        [v[0], v[1].plus_spec(d), v[2]]
    } else {
        [v[0], v[1], v[2].plus_spec(d)]
    }
}

/// The face on side `t` of a cell of the given size and center.
pub open spec fn side_face<S: Scalar>(
    owner: int,
    other: int,
    t: int,
    size: Vec3<S>,
    center: Vec3<S>,
    patch: Option<u32>,
) -> Face<S> {
    let axis: int = side_axis(t);
    let sign: S = side_sign(t);
    Face {
        owner: owner as usize,
        other: other as usize,
        area_normal: axis_vector(
            axis,
            sign.times_spec(size[(axis + 1) % 3].times_spec(size[(axis + 2) % 3])),
        ),
        centroid: moved(
            center,
            axis,
            sign.times_spec(S::one_spec().halved_spec()).times_spec(size[axis]),
        ),
        patch,
    }
}

/// The ghost cell across side `t`, mirrored.
pub open spec fn mirrored<S: Scalar>(o: Octants<S>, t: int) -> Cell<S> {
    let cell: Cell<S> = base_cells(o)[t / 6];
    Cell {
        center: moved(
            cell.center,
            side_axis(t),
            side_sign::<S>(t).times_spec(cell.size[side_axis(t)]),
        ),
        size: cell.size,
        level: cell.level,
        is_ghost: true,
    }
}

/// The mirrored cells of the boundary sides among the first `t` sides.
pub open spec fn mirrored_upto<S: Scalar>(o: Octants<S>, t: int) -> Seq<Cell<S>>
    decreases t,
{
    if t <= 0 {
        Seq::empty()
    } else if o.sides[t - 1] is Boundary {
        mirrored_upto(o, t - 1).push(mirrored(o, t - 1))
    } else {
        mirrored_upto(o, t - 1)
    }
}

/// All cells: leaves, ghost layer, mirrored cells.
pub open spec fn all_cells<S: Scalar>(o: Octants<S>) -> Seq<Cell<S>> {
    base_cells(o) + mirrored_upto(o, o.sides.len() as int)
}

/// The index of the mirrored cell of boundary side `t`.
pub open spec fn mirrored_index<S: Scalar>(o: Octants<S>, t: int) -> int {
    (base_cells(o).len() + mirrored_upto(o, t).len()) as int
}

/// The ghost-layer index `g` exists.
pub open spec fn has_ghost<S>(o: Octants<S>, g: usize) -> bool {
    g < o.ghosts.len()
}

/// The cell of ghost-layer index `g`.
pub open spec fn ghost_cell<S>(o: Octants<S>, g: usize) -> int {
    o.leaves.len() + g
}

/// Some slot names a cell of another rank.
pub open spec fn reaches_out(fs: FinerSet) -> bool {
    fs.ghost_at(0) || fs.ghost_at(1) || fs.ghost_at(2) || fs.ghost_at(3)
}

/// The sub-face to slot `h` across side `t`, where the slot names a cell of another
/// rank.
pub open spec fn slot_face<S: Scalar>(o: Octants<S>, t: int, fs: FinerSet, h: int) -> Seq<
    Face<S>,
> {
    if fs.ghost_at(h as nat) && has_ghost(o, fs.idx[h]) {
        let g: int = ghost_cell(o, fs.idx[h]);
        let fine: Cell<S> = base_cells(o)[g];
        seq![side_face(t / 6, g, t, fine.size, fine.center, None)]
    } else {
        Seq::empty()
    }
}

/// The sub-faces to the first `h` slots across side `t`.
pub open spec fn slot_faces<S: Scalar>(o: Octants<S>, t: int, fs: FinerSet, h: int) -> Seq<Face<S>>
    decreases h,
{
    if h <= 0 {
        Seq::empty()
    } else {
        slot_faces(o, t, fs, h - 1) + slot_face(o, t, fs, h - 1)
    }
}

/// The face on side `t` of its leaf, to cell `other`.
pub open spec fn leaf_face<S: Scalar>(
    o: Octants<S>,
    t: int,
    other: int,
    patch: Option<u32>,
) -> Face<S> {
    let cell: Cell<S> = base_cells(o)[t / 6];
    side_face(t / 6, other, t, cell.size, cell.center, patch)
}

/// The faces that side `t` lists.
pub open spec fn faces_of_side<S: Scalar>(o: Octants<S>, t: int) -> Seq<Face<S>> {
    match o.sides[t] {
        NeighborSet::Boundary => seq![
            leaf_face(o, t, mirrored_index(o, t), Some((t % 6) as u32)),
        ],
        NeighborSet::Same(nj) => if t / 6 < nj {
            seq![leaf_face(o, t, nj as int, None)]
        } else {
            Seq::empty()
        },
        NeighborSet::Coarser(nj) => seq![leaf_face(o, t, nj as int, None)],
        NeighborSet::Finer(fs) => slot_faces(o, t, fs, 4),
        NeighborSet::Remote(g) => if has_ghost(o, g) {
            seq![leaf_face(o, t, ghost_cell(o, g), None)]
        } else {
            Seq::empty()
        },
    }
}

/// The coarse/fine pairs that side `t` lists: one where the neighbor is coarser.
pub open spec fn pairs_of_side<S: Scalar>(o: Octants<S>, t: int) -> Seq<CoarseFineFace<S>> {
    match o.sides[t] {
        NeighborSet::Coarser(nj) => {
            let face: Face<S> = leaf_face(o, t, nj as int, None);
            seq![
                CoarseFineFace {
                    coarse: nj,
                    fine: (t / 6) as usize,
                    area_normal: face.area_normal,
                    centroid: face.centroid,
                },
            ]
        },
        _ => Seq::empty(),
    }
}

/// The cells across side `t`; none where any of them is on another rank.
pub open spec fn neighbors_of_side<S: Scalar>(o: Octants<S>, t: int) -> Seq<usize> {
    match o.sides[t] {
        NeighborSet::Boundary => seq![mirrored_index(o, t) as usize],
        NeighborSet::Same(nj) => seq![nj],
        NeighborSet::Coarser(nj) => seq![nj],
        NeighborSet::Finer(fs) => if reaches_out(fs) {
            Seq::empty()
        } else {
            fs.idx@
        },
        NeighborSet::Remote(_) => Seq::empty(),
    }
}

/// The faces that the first `t` sides list.
pub open spec fn faces_upto<S: Scalar>(o: Octants<S>, t: int) -> Seq<Face<S>>
    decreases t,
{
    if t <= 0 {
        Seq::empty()
    } else {
        faces_upto(o, t - 1) + faces_of_side(o, t - 1)
    }
}

/// The coarse/fine pairs that the first `t` sides list.
pub open spec fn pairs_upto<S: Scalar>(o: Octants<S>, t: int) -> Seq<CoarseFineFace<S>>
    decreases t,
{
    if t <= 0 {
        Seq::empty()
    } else {
        pairs_upto(o, t - 1) + pairs_of_side(o, t - 1)
    }
}

/// All faces.
pub open spec fn all_faces<S: Scalar>(o: Octants<S>) -> Seq<Face<S>> {
    faces_upto(o, o.sides.len() as int)
}

/// All coarse/fine pairs.
pub open spec fn all_pairs<S: Scalar>(o: Octants<S>) -> Seq<CoarseFineFace<S>> {
    pairs_upto(o, o.sides.len() as int)
}

/// Every leaf has six sides.
pub open spec fn has_all_sides<S>(o: Octants<S>) -> bool {
    o.sides.len() == 6 * o.leaves.len()
}

// ---------------------------------------------------------------------------
// Building the topology.
// ---------------------------------------------------------------------------

/// The cell of a leaf.
fn make_cell<S: Scalar>(leaf: &LeafInfo<S>, is_ghost: bool) -> (r: Cell<S>)
    ensures
        r == cell_of(*leaf, is_ghost),
{
    let level: u8 = if leaf.level < 0 {
        0
    } else {
        leaf.level as u8
    };
    Cell { center: leaf.center, size: leaf.size, level, is_ghost }
}

/// `v` moved by `d` along `axis`.
fn move_along<S: Scalar>(v: Vec3<S>, axis: usize, d: S) -> (r: Vec3<S>)
    requires
        axis < 3,
    ensures
        r == moved(v, axis as int, d),
{
    if axis == 0 {
        [v[0].plus(d), v[1], v[2]]
    } else if axis == 1 {
        [v[0], v[1].plus(d), v[2]]
    } else {
        [v[0], v[1], v[2].plus(d)]
    }
}

/// The direction of a side along its axis.
fn sign_of<S: Scalar>(dir: usize) -> (r: S)
    ensures
        r == side_sign::<S>(dir as int),
{
    if dir % 2 == 1 {
        S::one()
    } else {
        S::one().negated()
    }
}

/// The face in direction `dir` (a face number) of a cell of the given size and
/// center.
fn make_face<S: Scalar>(
    owner: usize,
    other: usize,
    dir: usize,
    size: Vec3<S>,
    center: Vec3<S>,
    patch: Option<u32>,
) -> (r: Face<S>)
    requires
        dir < 6,
    ensures
        forall|t: int|
            t % 6 == dir && 0 <= t ==> r == #[trigger] side_face(
                owner as int,
                other as int,
                t,
                size,
                center,
                patch,
            ),
{
    let axis: usize = dir / 2;
    let sign: S = sign_of(dir);
    let area: S = size[(axis + 1) % 3].times(size[(axis + 2) % 3]);
    let area_normal: Vec3<S> = along_axis(axis, sign.times(area));
    let centroid: Vec3<S> = move_along(
        center,
        axis,
        sign.times(S::one().halved()).times(size[axis]),
    );
    let r: Face<S> = Face { owner, other, area_normal, centroid, patch };
    assert forall|t: int| t % 6 == dir && 0 <= t implies r == #[trigger] side_face(
        owner as int,
        other as int,
        t,
        size,
        center,
        patch,
    ) by {
        assert(t % 2 == dir % 2);
        assert(side_axis(t) == axis);
    }
    r
}

/// The lists of a mesh under construction.
struct Topology<S> {
    cells: Vec<Cell<S>>,
    faces: Vec<Face<S>>,
    coarse_fine: Vec<CoarseFineFace<S>>,
}

impl<S: Scalar> Topology<S> {
    /// The first `t` sides were dealt with.
    spec fn holds_upto(&self, o: Octants<S>, t: int) -> bool {
        &&& self.cells@ == base_cells(o) + mirrored_upto(o, t)
        &&& self.faces@ == faces_upto(o, t)
        &&& self.coarse_fine@ == pairs_upto(o, t)
    }

    /// The cells of the leaves and of the ghost layer, and no faces yet.
    fn start(state: &ForestState<S>) -> (r: Self)
        ensures
            r.holds_upto(state@, 0),
    {
        let ghost o: Octants<S> = state@;
        let mut cells: Vec<Cell<S>> = Vec::new();
        let mut i: usize = 0;
        while i < state.leaves.len()
            invariant
                o == state@,
                i <= state.leaves@.len(),
                cells@.len() == i,
                forall|c: int| 0 <= c < i ==> #[trigger] cells@[c] == base_cells(o)[c],
            decreases state.leaves@.len() - i,
        {
            cells.push(make_cell(&state.leaves[i], false));
            i = i + 1;
        }
        let mut g: usize = 0;
        while g < state.ghosts.len()
            invariant
                o == state@,
                g <= state.ghosts@.len(),
                cells@.len() == state.leaves@.len() + g,
                forall|c: int| 0 <= c < cells@.len() ==> #[trigger] cells@[c] == base_cells(o)[c],
            decreases state.ghosts@.len() - g,
        {
            cells.push(make_cell(&state.ghosts[g], true));
            g = g + 1;
        }
        assert(cells@ =~= base_cells(o) + mirrored_upto(o, 0));
        Topology { cells, faces: Vec::new(), coarse_fine: Vec::new() }
    }

    /// Deal with the side of leaf `li` in direction `dir`: append its cell, faces
    /// and pairs, and return the cells across it.
    fn push_side(&mut self, state: &ForestState<S>, li: usize, dir: usize) -> (r: DirNeighbors)
        requires
            has_all_sides(state@),
            li < state.leaves@.len(),
            dir < 6,
            old(self).holds_upto(state@, 6 * li + dir),
        ensures
            final(self).holds_upto(state@, 6 * li + dir + 1),
            r.valid(),
            r.list() == neighbors_of_side(state@, 6 * li + dir),
    {
        let ghost o: Octants<S> = state@;
        let ghost t: int = 6 * li + dir;
        let ghost before: Seq<Face<S>> = self.faces@;
        let n: usize = state.leaves.len();
        let n_ghost: usize = state.ghosts.len();
        let total: usize = self.cells.len();
        let owner: Cell<S> = self.cells[li];
        let n_sides: usize = state.sides.len();
        let side: NeighborSet = state.sides[6 * li + dir];
        proof {
            assert(t / 6 == li);
            assert(t % 6 == dir);
            assert(owner == base_cells(o)[li as int]);
            assert(o.sides[t] == side);
            assert(n + n_ghost <= total);
        }
        match side {
            NeighborSet::Boundary => {
                let axis: usize = dir / 2;
                let d: S = sign_of::<S>(dir).times(owner.size[axis]);
                let center: Vec3<S> = move_along(owner.center, axis, d);
                self.cells.push(
                    Cell { center, size: owner.size, level: owner.level, is_ghost: true },
                );
                self.faces.push(
                    make_face(li, total, dir, owner.size, owner.center, Some(dir as u32)),
                );
                proof {
                    assert(t % 2 == dir % 2);
                    assert(self.cells@.last() == mirrored(o, t));
                    assert(self.cells@ =~= base_cells(o) + mirrored_upto(o, t + 1));
                    assert(total == mirrored_index(o, t));
                    assert(self.faces@ =~= before + faces_of_side(o, t));
                    assert(self.coarse_fine@ =~= pairs_upto(o, t + 1));
                }
                DirNeighbors::one(total)
            },
            NeighborSet::Same(nj) => {
                if li < nj {
                    self.faces.push(make_face(li, nj, dir, owner.size, owner.center, None));
                }
                proof {
                    assert(self.faces@ =~= before + faces_of_side(o, t));
                    assert(self.coarse_fine@ =~= pairs_upto(o, t + 1));
                }
                DirNeighbors::one(nj)
            },
            NeighborSet::Coarser(nj) => {
                let face: Face<S> = make_face(li, nj, dir, owner.size, owner.center, None);
                self.coarse_fine.push(
                    CoarseFineFace {
                        coarse: nj,
                        fine: li,
                        area_normal: face.area_normal,
                        centroid: face.centroid,
                    },
                );
                self.faces.push(face);
                proof {
                    assert(face == leaf_face(o, t, nj as int, None));
                    assert(self.faces@ =~= before + faces_of_side(o, t));
                    assert(self.coarse_fine@ =~= pairs_upto(o, t + 1));
                }
                DirNeighbors::one(nj)
            },
            NeighborSet::Finer(fs) => {
                let mut h: usize = 0;
                while h < 4
                    invariant
                        h <= 4,
                        o == state@,
                        t == 6 * li + dir,
                        t / 6 == li,
                        t % 6 == dir,
                        dir < 6,
                        n == o.leaves.len(),
                        n_ghost == o.ghosts.len(),
                        n + n_ghost <= self.cells@.len(),
                        n + n_ghost <= total,
                        self.cells@ == base_cells(o) + mirrored_upto(o, t),
                        self.coarse_fine@ == pairs_upto(o, t),
                        self.faces@ == before + slot_faces(o, t, fs, h as int),
                    decreases 4 - h,
                {
                    let ghost held: Seq<Face<S>> = self.faces@;
                    if fs.is_ghost(h) {
                        let g: usize = fs.idx[h];
                        if g < n_ghost {
                            let gmesh: usize = n + g;
                            let fine: Cell<S> = self.cells[gmesh];
                            assert(fine == base_cells(o)[gmesh as int]);
                            self.faces.push(
                                make_face(li, gmesh, dir, fine.size, fine.center, None),
                            );
                        }
                    }
                    assert(self.faces@ =~= held + slot_face(o, t, fs, h as int));
                    h = h + 1;
                    assert(self.faces@ =~= before + slot_faces(o, t, fs, h as int));
                }
                proof {
                    assert(self.faces@ =~= before + faces_of_side(o, t));
                    assert(self.coarse_fine@ =~= pairs_upto(o, t + 1));
                }
                if fs.is_ghost(0) || fs.is_ghost(1) || fs.is_ghost(2) || fs.is_ghost(3) {
                    DirNeighbors::none()
                } else {
                    DirNeighbors::four(fs.idx)
                }
            },
            NeighborSet::Remote(g) => {
                if g < n_ghost {
                    let nj: usize = n + g;
                    self.faces.push(make_face(li, nj, dir, owner.size, owner.center, None));
                }
                proof {
                    assert(self.faces@ =~= before + faces_of_side(o, t));
                    assert(self.coarse_fine@ =~= pairs_upto(o, t + 1));
                }
                DirNeighbors::none()
            },
        }
    }
}

/// The stencil of a leaf is what lies across its six sides.
pub open spec fn is_stencil<S: Scalar>(o: Octants<S>, c: int, stencil: [DirNeighbors; 6]) -> bool {
    forall|d: int|
        0 <= d < 6 ==> (#[trigger] stencil[d]).valid() && stencil[d].list() == neighbors_of_side(
            o,
            6 * c + d,
        )
}

/// Build the cell list, the face list and the per-leaf stencils from a forest's
/// leaves and ghost layer.
fn build_topology<S: Scalar>(state: &ForestState<S>) -> (r: (
    Topology<S>,
    Vec<[DirNeighbors; 6]>,
))
    requires
        has_all_sides(state@),
    ensures
        r.0.holds_upto(state@, state@.sides.len() as int),
        r.1@.len() == state@.leaves.len(),
        forall|c: int| 0 <= c < r.1@.len() ==> is_stencil(state@, c, #[trigger] r.1@[c]),
{
    let ghost o: Octants<S> = state@;
    let n: usize = state.leaves.len();
    let mut topology: Topology<S> = Topology::start(state);
    let mut stencils: Vec<[DirNeighbors; 6]> = Vec::new();
    let mut li: usize = 0;
    while li < n
        invariant
            o == state@,
            has_all_sides(o),
            n == o.leaves.len(),
            li <= n,
            topology.holds_upto(o, 6 * li),
            stencils@.len() == li,
            forall|c: int| 0 <= c < li ==> is_stencil(o, c, #[trigger] stencils@[c]),
        decreases n - li,
    {
        let xl: DirNeighbors = topology.push_side(state, li, 0);
        let xh: DirNeighbors = topology.push_side(state, li, 1);
        let yl: DirNeighbors = topology.push_side(state, li, 2);
        let yh: DirNeighbors = topology.push_side(state, li, 3);
        let zl: DirNeighbors = topology.push_side(state, li, 4);
        let zh: DirNeighbors = topology.push_side(state, li, 5);
        let stencil: [DirNeighbors; 6] = [xl, xh, yl, yh, zl, zh];
        assert(is_stencil(o, li as int, stencil)) by {
            assert forall|d: int| 0 <= d < 6 implies (#[trigger] stencil[d]).valid()
                && stencil[d].list() == neighbors_of_side(o, 6 * li + d) by {
                assert(d == 0 || d == 1 || d == 2 || d == 3 || d == 4 || d == 5);
            }
        }
        stencils.push(stencil);
        li = li + 1;
    }
    (topology, stencils)
}

// ---------------------------------------------------------------------------
// The halo plan.
// ---------------------------------------------------------------------------

/// The numbers from `a` up to below `b`, none where `b` is not above `a`.
pub open spec fn numbers(a: int, b: int) -> Seq<int> {
    Seq::new(
        if a < b {
            (b - a) as nat
        } else {
            0
        },
        |i: int| a + i,
    )
}

/// The link to rank `r`: its ghosts are received, its mirrors are sent.
pub open spec fn rank_link<S>(state: ForestState<S>, r: int) -> Link {
    Link {
        rank: r,
        send: state.send_locals@.subrange(
            state.send_off@[r] as int,
            state.send_off@[r + 1] as int,
        ).map_values(|l: i32| (l as usize) as int),
        recv: numbers(state.recv_off@[r] as int, state.recv_off@[r + 1] as int).map_values(
            |g: int| state.leaves@.len() + g,
        ),
    }
}

/// The links to the first `r` ranks: one for every other rank with which there is
/// something to exchange.
pub open spec fn rank_links_upto<S>(state: ForestState<S>, r: int) -> Seq<Link>
    decreases r,
{
    if r <= 0 {
        Seq::empty()
    } else {
        let rest: Seq<Link> = rank_links_upto(state, r - 1);
        let link: Link = rank_link(state, r - 1);
        if r - 1 == state.mpirank || (link.recv.len() == 0 && link.send.len() == 0) {
            rest
        } else {
            rest.push(link)
        }
    }
}

/// All links; none on a single rank.
pub open spec fn rank_links<S>(state: ForestState<S>) -> Seq<Link> {
    if state.mpisize <= 1 {
        Seq::empty()
    } else {
        rank_links_upto(state, state.mpisize as int)
    }
}

/// On several ranks, the offsets delimit ranges of the ghost layer and of the list
/// of leaves to send.
pub open spec fn offsets_fit<S>(state: ForestState<S>) -> bool {
    state.mpisize > 1 ==> {
        &&& state.mpisize <= i32::MAX
        &&& state.recv_off@.len() > state.mpisize
        &&& state.send_off@.len() > state.mpisize
        &&& forall|r: int|
            0 <= r <= state.mpisize ==> 0 <= #[trigger] state.recv_off@[r] <= state.ghosts@.len()
        &&& forall|r: int|
            0 <= r < state.mpisize ==> 0 <= #[trigger] state.send_off@[r] <= state.send_off@[r + 1]
                <= state.send_locals@.len()
    }
}

/// Turn the ghost (receive) and mirror (send) ranges of a forest into a
/// [`HaloPlan`]. A rank's mirrors come in the order in which their receiver lists
/// them as ghosts, so that the two ends of a link line up.
fn build_halo_plan<S: Scalar>(state: &ForestState<S>) -> (r: HaloPlan)
    requires
        offsets_fit(*state),
        state.leaves@.len() + state.ghosts@.len() <= usize::MAX,
    ensures
        r@ == rank_links(*state),
{
    let mut links: Vec<HaloLink> = Vec::new();
    let ghost mut views: Seq<Link> = Seq::empty();
    if state.mpisize > 1 {
        let base: usize = state.leaves.len();
        let mut r: usize = 0;
        while r < state.mpisize
            invariant
                state.mpisize > 1,
                offsets_fit(*state),
                base == state.leaves@.len(),
                base + state.ghosts@.len() <= usize::MAX,
                r <= state.mpisize,
                views == rank_links_upto(*state, r as int),
                links@.len() == views.len(),
                forall|i: int| 0 <= i < links@.len() ==> (#[trigger] links@[i])@ == views[i],
            decreases state.mpisize - r,
        {
            assert(0 <= state.recv_off@[r as int] <= state.ghosts@.len());
            assert(0 <= state.recv_off@[r + 1] <= state.ghosts@.len());
            assert(0 <= state.send_off@[r as int] <= state.send_off@[r + 1]);
            if r != state.mpirank {
                let link: HaloLink = build_link(state, r, base);
                if link.recv_cells.len() != 0 || link.send_cells.len() != 0 {
                    proof {
                        assert(link@.recv.len() == link.recv_cells@.len());
                        assert(link@.send.len() == link.send_cells@.len());
                        views = views.push(link@);
                    }
                    links.push(link);
                } else {
                    assert(link@.recv.len() == 0 && link@.send.len() == 0);
                }
            }
            r = r + 1;
        }
    }
    let plan: HaloPlan = HaloPlan { links };
    assert(plan@ =~= rank_links(*state));
    plan
}

/// The link to rank `r`.
fn build_link<S: Scalar>(state: &ForestState<S>, r: usize, base: usize) -> (link: HaloLink)
    requires
        offsets_fit(*state),
        1 < state.mpisize,
        r < state.mpisize,
        base == state.leaves@.len(),
        base + state.ghosts@.len() <= usize::MAX,
    ensures
        link@ == rank_link(*state, r as int),
{
    assert(0 <= state.recv_off@[r as int] <= state.ghosts@.len());
    assert(0 <= state.recv_off@[r + 1] <= state.ghosts@.len());
    assert(0 <= state.send_off@[r as int] <= state.send_off@[r + 1]);
    let first: usize = state.recv_off[r] as usize;
    let end: usize = state.recv_off[r + 1] as usize;
    let ghost want: Link = rank_link(*state, r as int);
    let mut recv_cells: Vec<usize> = Vec::new();
    let mut g: usize = first;
    while g < end
        invariant
            base == state.leaves@.len(),
            base + state.ghosts@.len() <= usize::MAX,
            end <= state.ghosts@.len(),
            first <= g,
            g <= end || g == first,
            recv_cells@.len() == g - first,
            forall|i: int| 0 <= i < g - first ==> #[trigger] recv_cells@[i] == base + first + i,
        decreases end - g,
    {
        recv_cells.push(base + g);
        g = g + 1;
    }
    let from: usize = state.send_off[r] as usize;
    let upto: usize = state.send_off[r + 1] as usize;
    let mut send_cells: Vec<usize> = Vec::new();
    let mut k: usize = from;
    while k < upto
        invariant
            from <= k <= upto <= state.send_locals@.len(),
            send_cells@.len() == k - from,
            forall|i: int|
                0 <= i < k - from ==> #[trigger] send_cells@[i] == state.send_locals@[from
                    + i] as usize,
        decreases upto - k,
    {
        send_cells.push(#[verifier::truncate] (state.send_locals[k] as usize));
        k = k + 1;
    }
    let link: HaloLink = HaloLink { rank: r as i32, send_cells, recv_cells };
    assert(link@.send =~= want.send);
    assert(link@.recv =~= want.recv);
    link
}

// ---------------------------------------------------------------------------
// The mesh.
// ---------------------------------------------------------------------------

/// The marks of owned cells.
pub open spec fn owned_mask<S>(cells: Seq<Cell<S>>) -> Seq<bool> {
    cells.map_values(|c: Cell<S>| !c.is_ghost)
}

/// The least level among some cells; zero if there are none.
pub open spec fn least_level<S>(cells: Seq<Cell<S>>) -> u8
    decreases cells.len(),
{
    if cells.len() == 0 {
        0
    } else if cells.len() == 1 || cells.last().level < least_level(cells.drop_last()) {
        cells.last().level
    } else {
        least_level(cells.drop_last())
    }
}

/// How many of some cells have a level.
pub open spec fn count_at_level<S>(cells: Seq<Cell<S>>, level: u8) -> nat
    decreases cells.len(),
{
    if cells.len() == 0 {
        0
    } else {
        count_at_level(cells.drop_last(), level) + (if cells.last().level == level {
            1nat
        } else {
            0nat
        })
    }
}

/// The face joins an owned cell to one of another rank, at another level.
pub open spec fn crosses<S>(cells: Seq<Cell<S>>, face: Face<S>) -> bool {
    &&& face.patch is None
    &&& cells[face.other as int].is_ghost
    &&& cells[face.owner as int].level != cells[face.other as int].level
}

/// How many of some faces cross to another rank at another level.
pub open spec fn count_crossing<S>(cells: Seq<Cell<S>>, faces: Seq<Face<S>>) -> nat
    decreases faces.len(),
{
    if faces.len() == 0 {
        0
    } else {
        count_crossing(cells, faces.drop_last()) + (if crosses(cells, faces.last()) {
            1nat
        } else {
            0nat
        })
    }
}

/// An adaptive mesh: a flat cell list (leaves, ghost layer, mirrored cells) with
/// its faces and its halo plan.
pub struct ForestMesh<S> {
    cells: Vec<Cell<S>>,
    n_local: usize,
    faces: Vec<Face<S>>,
    coarse_fine: Vec<CoarseFineFace<S>>,
    axis_nbr: Vec<[DirNeighbors; 6]>,
    no_nbr: DirNeighbors,
    halo: HaloPlan,
}

impl<S: Scalar> ForestMesh<S> {
    /// The cells.
    pub closed spec fn cell_list(&self) -> Seq<Cell<S>> {
        self.cells@
    }

    /// Number of leaves.
    pub closed spec fn leaf_count(&self) -> int {
        self.n_local as int
    }

    /// The coarse/fine pairs.
    pub closed spec fn pair_list(&self) -> Seq<CoarseFineFace<S>> {
        self.coarse_fine@
    }

    /// The cells across the side of leaf `c` in direction `d`.
    pub closed spec fn stencil(&self, c: int, d: int) -> Seq<usize> {
        self.axis_nbr@[c][d].list()
    }

    /// The leaves come first, are the owned cells, and have stencils.
    pub closed spec fn is_built(&self) -> bool {
        &&& self.n_local <= self.cells@.len()
        &&& self.axis_nbr@.len() == self.n_local
        &&& count_set(owned_mask(self.cells@)) == self.n_local
        &&& self.no_nbr.valid()
        &&& self.no_nbr.list() == Seq::<usize>::empty()
        &&& forall|c: int, d: int|
            0 <= c < self.n_local && 0 <= d < 6 ==> (#[trigger] self.axis_nbr@[c][d]).valid()
    }

    /// The mesh is that of the leaves, ghosts and neighbors `o`.
    pub open spec fn is_mesh_of(&self, o: Octants<S>) -> bool {
        &&& self.cell_list() == all_cells(o)
        &&& self.leaf_count() == o.leaves.len()
        &&& self.face_list() == all_faces(o)
        &&& self.pair_list() == all_pairs(o)
        &&& forall|c: int, d: int|
            0 <= c < o.leaves.len() && 0 <= d < 6 ==> #[trigger] self.stencil(c, d)
                == neighbors_of_side(o, 6 * c + d)
    }

    /// Every face joins two cells.
    pub open spec fn is_linked(&self) -> bool {
        forall|p: int|
            0 <= p < self.face_list().len() ==> (#[trigger] self.face_list()[p]).owner
                < self.cell_list().len() && self.face_list()[p].other < self.cell_list().len()
    }

    /// Build the finite-volume mesh from what a forest reports.
    pub fn new(state: &ForestState<S>) -> (r: Self)
        requires
            has_all_sides(state@),
            offsets_fit(*state),
        ensures
            r.valid(),
            r.is_mesh_of(state@),
            r.plan()@ == rank_links(*state),
    {
        let ghost o: Octants<S> = state@;
        let (topology, axis_nbr): (Topology<S>, Vec<[DirNeighbors; 6]>) = build_topology(state);
        let total: usize = topology.cells.len();
        let halo: HaloPlan = build_halo_plan(state);
        let r: ForestMesh<S> = ForestMesh {
            cells: topology.cells,
            n_local: state.leaves.len(),
            faces: topology.faces,
            coarse_fine: topology.coarse_fine,
            axis_nbr,
            no_nbr: DirNeighbors::none(),
            halo,
        };
        proof {
            leaves_are_owned(o, o.sides.len() as int);
            assert forall|c: int, d: int| 0 <= c < r.n_local && 0 <= d < 6 implies (
            #[trigger] r.axis_nbr@[c][d]).valid() && r.stencil(c, d) == neighbors_of_side(
                o,
                6 * c + d,
            ) by {
                assert(is_stencil(o, c, r.axis_nbr@[c]));
            }
        }
        r
    }

    /// Recompute the mesh from what the forest reports after it was adapted.
    pub fn rebuild(&mut self, state: &ForestState<S>)
        requires
            has_all_sides(state@),
            offsets_fit(*state),
        ensures
            final(self).valid(),
            final(self).is_mesh_of(state@),
            final(self).plan()@ == rank_links(*state),
    {
        *self = ForestMesh::new(state);
    }

    /// Full axis-aligned extent of cell `c`.
    pub fn cell_size_at(&self, c: usize) -> (r: Vec3<S>)
        requires
            c < self.cell_list().len(),
        ensures
            r == self.cell_list()[c as int].size,
    {
        self.cells[c].size
    }

    /// `(center, size)` of each leaf, in cell-index order: the geometry needed to
    /// transfer a per-cell field onto an adapted mesh (see [`locate_in`]).
    ///
    /// [`locate_in`]: crate::regrid::locate_in
    pub fn interior_geometry(&self) -> (r: Vec<(Vec3<S>, Vec3<S>)>)
        requires
            self.valid(),
        ensures
            r@ == self.cell_list().take(self.leaf_count()).map_values(
                |c: Cell<S>| (c.center, c.size),
            ),
    {
        let mut r: Vec<(Vec3<S>, Vec3<S>)> = Vec::new();
        let mut i: usize = 0;
        while i < self.n_local
            invariant
                self.is_built(),
                i <= self.n_local,
                r@.len() == i,
                forall|c: int|
                    0 <= c < i ==> #[trigger] r@[c] == (self.cells@[c].center, self.cells@[c].size),
            decreases self.n_local - i,
        {
            r.push((self.cells[i].center, self.cells[i].size));
            i = i + 1;
        }
        assert(r@ =~= self.cell_list().take(self.leaf_count()).map_values(
            |c: Cell<S>| (c.center, c.size),
        ));
        r
    }

    /// Number of faces to a cell of another rank at a different refinement level.
    pub fn cross_rank_refinement_faces(&self) -> (r: usize)
        requires
            self.is_linked(),
        ensures
            r == count_crossing(self.cell_list(), self.face_list()),
    {
        let mut count: usize = 0;
        let mut p: usize = 0;
        while p < self.faces.len()
            invariant
                self.is_linked(),
                p <= self.faces@.len(),
                count <= p,
                count == count_crossing(self.cell_list(), self.face_list().take(p as int)),
            decreases self.faces@.len() - p,
        {
            let face: Face<S> = self.faces[p];
            assert(face == self.face_list()[p as int]);
            assert(self.face_list().take(p + 1).drop_last() =~= self.face_list().take(p as int));
            let crosses_over: bool = face.patch.is_none() && self.cells[face.other].is_ghost
                && self.cells[face.owner].level != self.cells[face.other].level;
            if crosses_over {
                count = count + 1;
            }
            p = p + 1;
        }
        assert(self.face_list().take(p as int) =~= self.face_list());
        count
    }

    /// (coarse-leaf count, fine-leaf count), coarse leaves being those of the least
    /// level.
    pub fn level_counts(&self) -> (r: (usize, usize))
        requires
            self.valid(),
        ensures
            ({
                let leaves: Seq<Cell<S>> = self.cell_list().take(self.leaf_count());
                &&& r.0 == count_at_level(leaves, least_level(leaves))
                &&& r.0 + r.1 == leaves.len()
            }),
    {
        let ghost leaves: Seq<Cell<S>> = self.cells@.take(self.n_local as int);
        let mut min: u8 = 0;
        let mut i: usize = 0;
        while i < self.n_local
            invariant
                self.is_built(),
                leaves == self.cells@.take(self.n_local as int),
                i <= self.n_local,
                min == least_level(leaves.take(i as int)),
            decreases self.n_local - i,
        {
            assert(leaves.take(i + 1).drop_last() =~= leaves.take(i as int));
            if i == 0 || self.cells[i].level < min {
                min = self.cells[i].level;
            }
            i = i + 1;
        }
        let mut coarse: usize = 0;
        let mut k: usize = 0;
        assert(leaves.take(i as int) =~= leaves);
        while k < self.n_local
            invariant
                self.is_built(),
                leaves == self.cells@.take(self.n_local as int),
                k <= self.n_local,
                coarse <= k,
                coarse == count_at_level(leaves.take(k as int), min),
            decreases self.n_local - k,
        {
            assert(leaves.take(k + 1).drop_last() =~= leaves.take(k as int));
            if self.cells[k].level == min {
                coarse = coarse + 1;
            }
            k = k + 1;
        }
        assert(leaves.take(k as int) =~= leaves);
        (coarse, self.n_local - coarse)
    }
}

impl<S: Scalar> FvMesh<S> for ForestMesh<S> {
    open spec fn valid(&self) -> bool {
        self.is_built()
    }

    open spec fn owned(&self) -> Seq<bool> {
        owned_mask(self.cell_list())
    }

    open spec fn volume_of(&self, c: int) -> S {
        let size: Vec3<S> = self.cell_list()[c].size;
        size[0].times_spec(size[1]).times_spec(size[2])
    }

    open spec fn centroid_of(&self, c: int) -> Seq<S> {
        self.cell_list()[c].center@
    }

    open spec fn has_faces(&self) -> bool {
        true
    }

    closed spec fn face_list(&self) -> Seq<Face<S>> {
        self.faces@
    }

    closed spec fn plan(&self) -> HaloPlan {
        self.halo
    }

    fn n_local_cells(&self) -> (r: usize)
        ensures
            r == self.leaf_count(),
    {
        self.n_local
    }

    fn n_cells_total(&self) -> (r: usize) {
        self.cells.len()
    }

    fn is_local_cell(&self, c: usize) -> (r: bool) {
        !self.cells[c].is_ghost
    }

    fn cell_volume(&self, c: usize) -> (r: S) {
        let size: Vec3<S> = self.cells[c].size;
        size[0].times(size[1]).times(size[2])
    }

    fn cell_centroid(&self, c: usize) -> (r: Vec3<S>) {
        self.cells[c].center
    }

    fn faces(&self) -> (r: Vec<Face<S>>) {
        copied(&self.faces)
    }

    fn halo_plan(&self) -> (r: &HaloPlan) {
        &self.halo
    }
}

impl<S: Scalar> CartesianMesh<S> for ForestMesh<S> {
    open spec fn neighbors_of(&self, c: int, axis: int, hi: bool) -> Seq<usize> {
        if c >= self.leaf_count() {
            Seq::empty()
        } else {
            self.stencil(
                c,
                axis * 2 + (if hi {
                    1int
                } else {
                    0int
                }),
            )
        }
    }

    fn axis_neighbors(&self, c: usize, axis: usize, hi: bool) -> (r: &[usize]) {
        if c >= self.n_local {
            return self.no_nbr.as_slice();
        }
        let dir: usize = axis * 2 + (if hi {
            1usize
        } else {
            0usize
        });
        assert(self.axis_nbr@[c as int][dir as int].valid());
        self.axis_nbr[c][dir].as_slice()
    }
}

impl<S: Scalar> AdaptiveMesh<S> for ForestMesh<S> {
    open spec fn level_of(&self, c: int) -> u8 {
        self.cell_list()[c].level
    }

    open spec fn coarse_fine_list(&self) -> Seq<CoarseFineFace<S>> {
        self.pair_list()
    }

    fn cell_level(&self, c: usize) -> (r: u8) {
        self.cells[c].level
    }

    fn coarse_fine_faces(&self) -> (r: Vec<CoarseFineFace<S>>) {
        copied(&self.coarse_fine)
    }
}

/// The owned cells are the leaves.
pub proof fn leaves_are_owned<S: Scalar>(o: Octants<S>, t: int)
    requires
        0 <= t,
    ensures
        count_set(owned_mask(base_cells(o) + mirrored_upto(o, t))) == o.leaves.len(),
    decreases t,
{
    if t == 0 {
        let base: Seq<Cell<S>> = base_cells(o);
        assert(base + mirrored_upto(o, 0) =~= base);
        leading_marks(owned_mask(base), o.leaves.len());
    } else {
        leaves_are_owned(o, t - 1);
        let before: Seq<Cell<S>> = base_cells(o) + mirrored_upto(o, t - 1);
        let after: Seq<Cell<S>> = base_cells(o) + mirrored_upto(o, t);
        if o.sides[t - 1] is Boundary {
            assert(after =~= before.push(mirrored(o, t - 1)));
            assert(owned_mask(after).drop_last() =~= owned_mask(before));
        }
    }
}

/// A mask that is set up to `n` and clear from there on has `n` marks.
proof fn leading_marks(mask: Seq<bool>, n: nat)
    requires
        n <= mask.len(),
        forall|c: int| 0 <= c < mask.len() ==> #[trigger] mask[c] == (c < n),
    ensures
        count_set(mask) == n,
    decreases mask.len(),
{
    if mask.len() > 0 {
        let rest: Seq<bool> = mask.drop_last();
        assert forall|c: int| 0 <= c < rest.len() implies #[trigger] rest[c] == (c < n) by {
            assert(rest[c] == mask[c]);
        }
        if n == mask.len() {
            assert forall|c: int| 0 <= c < rest.len() implies #[trigger] rest[c] == (c < n
                - 1) by {
                assert(rest[c] == mask[c]);
            }
            leading_marks(rest, (n - 1) as nat);
        } else {
            leading_marks(rest, n);
        }
    }
}

} // verus!
