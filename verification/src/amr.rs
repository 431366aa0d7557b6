//! A two-level block-adaptive [`ForestMesh`]: a coarse base grid where selected
//! cells are split into a `2x2x2` block of fine leaves.
//!
//! Conservation holds by construction. A coarse face that abuts smaller fine faces
//! is presented as one face per fine sub-interface, everywhere, so that a
//! two-sided scatter of face fluxes adds the fine fluxes up in the coarse owner.

use crate::halo::HaloPlan;
use crate::index::first_of;
use crate::index::flat;
use crate::index::flat_is_inside;
use crate::index::flat_joins;
use crate::index::flat_splits;
use crate::index::flat_steps;
use crate::index::second_of;
use crate::index::third_of;
use crate::mesh::AdaptiveMesh;
use crate::mesh::CoarseFineFace;
use crate::mesh::Face;
use crate::mesh::FvMesh;
use crate::mesh::Vec3;
use crate::mesh::count_set;
use crate::scalar::Scalar;
use vstd::arithmetic::mul::*;
use vstd::prelude::*;

verus! {

/// Build plan for a [`ForestMesh`]: a coarse base grid plus the coarse cells to
/// refine.
#[derive(Clone, Debug)]
pub struct ForestConfig<S> {
    /// Coarse cells along x.
    pub ncx: usize,
    /// Coarse cells along y.
    pub ncy: usize,
    /// Coarse cells along z.
    pub ncz: usize,
    /// Lower corner of the domain.
    pub bounds_lo: Vec3<S>,
    /// Upper corner of the domain.
    pub bounds_hi: Vec3<S>,
    /// Coarse cells `[i, j, k]` to refine, by interior index.
    pub refine: Vec<[usize; 3]>,
}

/// One leaf of the mesh.
#[derive(Clone, Copy)]
pub struct Leaf<S> {
    /// Refinement level: zero for a coarse leaf, one for a fine leaf.
    pub level: u8,
    /// Center in physical space.
    pub center: Vec3<S>,
    /// Extent along each axis.
    pub size: Vec3<S>,
    /// The leaf lies in the ghost layer around the domain.
    pub is_ghost: bool,
}

// ---------------------------------------------------------------------------
// The model.
// ---------------------------------------------------------------------------

/// A coarse grid with one ghost layer, some of whose cells are refined.
///
/// Raw coarse indices count from the ghost layer. The slots are the cells of the
/// grid that refining every coarse cell would give.
pub ghost struct Forest<S> {
    /// Coarse cells per axis.
    pub nc: Seq<int>,
    /// Lower corner of the domain.
    pub lo: Vec3<S>,
    /// Extent of a coarse cell.
    pub dc: Vec3<S>,
    /// For each coarse cell, ghosts included, whether it is refined.
    pub refined: Seq<bool>,
}

/// Coarse cells along `axis`, ghosts included.
pub open spec fn coarse_total<S>(f: Forest<S>, axis: int) -> int {
    f.nc[axis] + 2
}

/// Number of coarse cells, ghosts included.
pub open spec fn coarse_count<S>(f: Forest<S>) -> int {
    coarse_total(f, 0) * coarse_total(f, 1) * coarse_total(f, 2)
}

/// Number of the coarse cell with raw indices `(ci, cj, ck)`.
pub open spec fn coarse_number<S>(f: Forest<S>, ci: int, cj: int, ck: int) -> int {
    flat(ci, cj, ck, coarse_total(f, 1), coarse_total(f, 2))
}

/// Raw index of coarse cell number `m` along `axis`.
pub open spec fn coarse_index<S>(f: Forest<S>, m: int, axis: int) -> int {
    if axis == 0 {
        first_of(m, coarse_total(f, 1), coarse_total(f, 2))
    } else if axis == 1 {
        second_of(m, coarse_total(f, 1), coarse_total(f, 2))
    } else {
        third_of(m, coarse_total(f, 2))
    }
}

/// Raw index `i` lies in the ghost layer of an axis of `n` cells.
pub open spec fn is_outside(i: int, n: int) -> bool {
    i < 1 || i >= 1 + n
}

/// Coarse cell number `m` lies in the ghost layer.
pub open spec fn is_ghost_coarse<S>(f: Forest<S>, m: int) -> bool {
    ||| is_outside(coarse_index(f, m, 0), f.nc[0])
    ||| is_outside(coarse_index(f, m, 1), f.nc[1])
    ||| is_outside(coarse_index(f, m, 2), f.nc[2])
}

/// Lower corner, along one axis, of the coarse cells with raw index `i`.
pub open spec fn coarse_corner<S: Scalar>(lo: S, d: S, i: int) -> S {
    lo.plus_spec(S::count_spec(i).minus_spec(S::count_spec(1)).times_spec(d))
}

/// Center, along one axis, of child `s` of a refined coarse cell with raw index
/// `i`.
pub open spec fn child_center<S: Scalar>(lo: S, d: S, i: int, s: int) -> S {
    coarse_corner(lo, d, i).plus_spec(
        S::count_spec(s).plus_spec(S::one_spec().halved_spec()).times_spec(d.halved_spec()),
    )
}

/// Center, along one axis, of an unrefined coarse cell with raw index `i`.
pub open spec fn whole_center<S: Scalar>(lo: S, d: S, i: int) -> S {
    coarse_corner(lo, d, i).plus_spec(d.halved_spec())
}

/// Child number `q` of refined coarse cell number `m`.
pub open spec fn child_leaf<S: Scalar>(f: Forest<S>, m: int, q: int) -> Leaf<S> {
    Leaf {
        level: 1,
        center: [
            child_center(f.lo[0], f.dc[0], coarse_index(f, m, 0), first_of(q, 2, 2)),
            child_center(f.lo[1], f.dc[1], coarse_index(f, m, 1), second_of(q, 2, 2)),
            child_center(f.lo[2], f.dc[2], coarse_index(f, m, 2), third_of(q, 2)),
        ],
        size: [f.dc[0].halved_spec(), f.dc[1].halved_spec(), f.dc[2].halved_spec()],
        is_ghost: is_ghost_coarse(f, m),
    }
}

/// Unrefined coarse cell number `m`.
pub open spec fn whole_leaf<S: Scalar>(f: Forest<S>, m: int) -> Leaf<S> {
    Leaf {
        level: 0,
        center: [
            whole_center(f.lo[0], f.dc[0], coarse_index(f, m, 0)),
            whole_center(f.lo[1], f.dc[1], coarse_index(f, m, 1)),
            whole_center(f.lo[2], f.dc[2], coarse_index(f, m, 2)),
        ],
        size: f.dc,
        is_ghost: is_ghost_coarse(f, m),
    }
}

/// The leaves of coarse cell number `m`: its eight children, or itself.
pub open spec fn coarse_leaves<S: Scalar>(f: Forest<S>, m: int) -> Seq<Leaf<S>> {
    if f.refined[m] {
        Seq::new(8, |q: int| child_leaf(f, m, q))
    } else {
        seq![whole_leaf(f, m)]
    }
}

/// The leaves of the first `m` coarse cells.
pub open spec fn leaves_upto<S: Scalar>(f: Forest<S>, m: int) -> Seq<Leaf<S>>
    decreases m,
{
    if m <= 0 {
        Seq::empty()
    } else {
        leaves_upto(f, m - 1) + coarse_leaves(f, m - 1)
    }
}

/// All leaves.
pub open spec fn all_leaves<S: Scalar>(f: Forest<S>) -> Seq<Leaf<S>> {
    leaves_upto(f, coarse_count(f))
}

/// The index of the first leaf of coarse cell number `m`.
pub open spec fn first_leaf<S>(f: Forest<S>, m: int) -> int
    decreases m,
{
    if m <= 0 {
        0
    } else {
        first_leaf(f, m - 1) + (if f.refined[m - 1] {
            8int
        } else {
            1int
        })
    }
}

/// Slots along `axis`.
pub open spec fn slot_total<S>(f: Forest<S>, axis: int) -> int {
    2 * coarse_total(f, axis)
}

/// Number of slots.
pub open spec fn slot_count<S>(f: Forest<S>) -> int {
    slot_total(f, 0) * slot_total(f, 1) * slot_total(f, 2)
}

/// Number of the coarse cell that holds slot `(fi, fj, fk)`.
pub open spec fn slot_coarse<S>(f: Forest<S>, fi: int, fj: int, fk: int) -> int {
    coarse_number(f, fi / 2, fj / 2, fk / 2)
}

/// The index of the leaf that covers slot `(fi, fj, fk)`.
pub open spec fn slot_leaf<S>(f: Forest<S>, fi: int, fj: int, fk: int) -> int {
    let m: int = slot_coarse(f, fi, fj, fk);
    first_leaf(f, m) + (if f.refined[m] {
        flat(fi % 2, fj % 2, fk % 2, 2, 2)
    } else {
        0
    })
}

/// The slot after `(fi, fj, fk)` along `axis`.
pub open spec fn next_slot(fi: int, fj: int, fk: int, axis: int) -> (int, int, int) {
    if axis == 0 {
        (fi + 1, fj, fk)
    } else if axis == 1 {
        (fi, fj + 1, fk)
    } else {
        (fi, fj, fk + 1)
    }
}

/// The next slot along `axis` lies within the slot grid.
pub open spec fn has_next<S>(f: Forest<S>, fi: int, fj: int, fk: int, axis: int) -> bool {
    let (ni, nj, nk): (int, int, int) = next_slot(fi, fj, fk, axis);
    ni < slot_total(f, 0) && nj < slot_total(f, 1) && nk < slot_total(f, 2)
}

/// Area of a sub-interface normal to `axis`.
pub open spec fn sub_area<S: Scalar>(f: Forest<S>, axis: int) -> S {
    f.dc[(axis + 1) % 3].halved_spec().times_spec(f.dc[(axis + 2) % 3].halved_spec())
}

/// The vector of length `a` along `axis`.
pub open spec fn axis_vector<S: Scalar>(axis: int, a: S) -> Vec3<S> {
    let o: S = S::zero_spec();
    if axis == 0 {
        [a, o, o]
    } else if axis == 1 {
        [o, a, o]
    } else {
        [o, o, a]
    }
}

/// Lower bound, along one axis, of slot `i`.
pub open spec fn slot_corner<S: Scalar>(lo: S, d: S, i: int) -> S {
    coarse_corner(lo, d, i / 2).plus_spec(S::count_spec(i % 2).times_spec(d.halved_spec()))
}

/// Center, along one axis, of slot `i`.
pub open spec fn slot_center<S: Scalar>(lo: S, d: S, i: int) -> S {
    child_center(lo, d, i / 2, i % 2)
}

/// Center of the high side of slot `(fi, fj, fk)` along `axis`: on the interface
/// along the axis, at the center of the slot along the other two.
pub open spec fn sub_center<S: Scalar>(
    f: Forest<S>,
    fi: int,
    fj: int,
    fk: int,
    axis: int,
) -> Vec3<S> {
    [
        if axis == 0 {
            slot_corner(f.lo[0], f.dc[0], fi + 1)
        } else {
            slot_center(f.lo[0], f.dc[0], fi)
        },
        if axis == 1 {
            slot_corner(f.lo[1], f.dc[1], fj + 1)
        } else {
            slot_center(f.lo[1], f.dc[1], fj)
        },
        if axis == 2 {
            slot_corner(f.lo[2], f.dc[2], fk + 1)
        } else {
            slot_center(f.lo[2], f.dc[2], fk)
        },
    ]
}

/// The face between leaf `a` and leaf `b` across a sub-interface of the given area
/// and center, `b` lying on the high side along `axis`. The owner is the local one of the two, the low one
/// where both are, and the normal points away from it.
pub open spec fn face_between<S: Scalar>(
    leaves: Seq<Leaf<S>>,
    area: S,
    center: Vec3<S>,
    axis: int,
    a: int,
    b: int,
) -> Face<S> {
    if !leaves[a].is_ghost {
        Face {
            owner: a as usize,
            other: b as usize,
            area_normal: axis_vector(axis, area),
            centroid: center,
            patch: if leaves[b].is_ghost {
                Some((2 * axis + 1) as u32)
            } else {
                None
            },
        }
    } else {
        Face {
            owner: b as usize,
            other: a as usize,
            area_normal: axis_vector(axis, area.negated_spec()),
            centroid: center,
            patch: Some((2 * axis) as u32),
        }
    }
}

/// The faces across the high side of slot `(fi, fj, fk)` along `axis`: one where
/// two leaves meet there that are not both ghosts, none otherwise.
pub open spec fn slot_axis_faces<S: Scalar>(
    f: Forest<S>,
    fi: int,
    fj: int,
    fk: int,
    axis: int,
) -> Seq<Face<S>> {
    let leaves: Seq<Leaf<S>> = all_leaves(f);
    let (ni, nj, nk): (int, int, int) = next_slot(fi, fj, fk, axis);
    let a: int = slot_leaf(f, fi, fj, fk);
    let b: int = slot_leaf(f, ni, nj, nk);
    if !has_next(f, fi, fj, fk, axis) || a == b || (leaves[a].is_ghost && leaves[b].is_ghost) {
        Seq::empty()
    } else {
        seq![face_between(leaves, sub_area(f, axis), sub_center(f, fi, fj, fk, axis), axis, a, b)]
    }
}

/// The faces across the high sides of slot number `s`.
pub open spec fn slot_faces<S: Scalar>(f: Forest<S>, s: int) -> Seq<Face<S>> {
    let fi: int = first_of(s, slot_total(f, 1), slot_total(f, 2));
    let fj: int = second_of(s, slot_total(f, 1), slot_total(f, 2));
    let fk: int = third_of(s, slot_total(f, 2));
    slot_axis_faces(f, fi, fj, fk, 0) + slot_axis_faces(f, fi, fj, fk, 1) + slot_axis_faces(
        f,
        fi,
        fj,
        fk,
        2,
    )
}

/// The faces of the first `s` slots.
pub open spec fn slot_faces_upto<S: Scalar>(f: Forest<S>, s: int) -> Seq<Face<S>>
    decreases s,
{
    if s <= 0 {
        Seq::empty()
    } else {
        slot_faces_upto(f, s - 1) + slot_faces(f, s - 1)
    }
}

/// All faces.
pub open spec fn forest_faces<S: Scalar>(f: Forest<S>) -> Seq<Face<S>> {
    slot_faces_upto(f, slot_count(f))
}

/// The coarse/fine pair that a face stands for, where its two leaves differ in
/// level.
pub open spec fn pair_of<S: Scalar>(leaves: Seq<Leaf<S>>, face: Face<S>) -> CoarseFineFace<S> {
    let owner_is_coarse: bool = leaves[face.owner as int].level == 0;
    CoarseFineFace {
        coarse: if owner_is_coarse {
            face.owner
        } else {
            face.other
        },
        fine: if owner_is_coarse {
            face.other
        } else {
            face.owner
        },
        area_normal: face.area_normal,
        centroid: face.centroid,
    }
}

/// The coarse/fine pairs among a list of faces, in order.
pub open spec fn pairs_of<S: Scalar>(
    leaves: Seq<Leaf<S>>,
    faces: Seq<Face<S>>,
) -> Seq<CoarseFineFace<S>>
    decreases faces.len(),
{
    if faces.len() == 0 {
        Seq::empty()
    } else {
        let face: Face<S> = faces.last();
        let rest: Seq<CoarseFineFace<S>> = pairs_of(leaves, faces.drop_last());
        if leaves[face.owner as int].level != leaves[face.other as int].level {
            rest.push(pair_of(leaves, face))
        } else {
            rest
        }
    }
}

/// The marks of local leaves.
pub open spec fn local_mask<S>(leaves: Seq<Leaf<S>>) -> Seq<bool> {
    leaves.map_values(|l: Leaf<S>| !l.is_ghost)
}

// ---------------------------------------------------------------------------
// From configuration to model.
// ---------------------------------------------------------------------------

/// Extent of one of `n` cells between `lo` and `hi`.
pub open spec fn cell_extent<S: Scalar>(lo: S, hi: S, n: int) -> S {
    hi.minus_spec(lo).over_spec(S::count_spec(n))
}

/// The coarse cell with raw indices `(ci, cj, ck)` is listed for refinement.
pub open spec fn is_listed(refine: Seq<[usize; 3]>, ci: int, cj: int, ck: int) -> bool {
    exists|r: int|
        0 <= r < refine.len() && (#[trigger] refine[r])[0] + 1 == ci && refine[r][1] + 1 == cj
            && refine[r][2] + 1 == ck
}

impl<S: Scalar> ForestConfig<S> {
    /// What the configuration describes.
    pub open spec fn forest(&self) -> Forest<S> {
        let nc: Seq<int> = seq![self.ncx as int, self.ncy as int, self.ncz as int];
        let t1: int = nc[1] + 2;
        let t2: int = nc[2] + 2;
        Forest {
            nc,
            lo: self.bounds_lo,
            dc: [
                cell_extent(self.bounds_lo[0], self.bounds_hi[0], nc[0]),
                cell_extent(self.bounds_lo[1], self.bounds_hi[1], nc[1]),
                cell_extent(self.bounds_lo[2], self.bounds_hi[2], nc[2]),
            ],
            refined: Seq::new(
                ((nc[0] + 2) * t1 * t2) as nat,
                |m: int|
                    is_listed(
                        self.refine@,
                        first_of(m, t1, t2),
                        second_of(m, t1, t2),
                        third_of(m, t2),
                    ),
            ),
        }
    }

    /// The listed cells exist, and the slots can be numbered.
    pub open spec fn can_build(&self) -> bool {
        &&& forall|r: int|
            0 <= r < self.refine@.len() ==> (#[trigger] self.refine@[r])[0] < self.ncx
                && self.refine@[r][1] < self.ncy && self.refine@[r][2] < self.ncz
        &&& slot_total(self.forest(), 0) <= usize::MAX
        &&& slot_total(self.forest(), 1) <= usize::MAX
        &&& slot_total(self.forest(), 2) <= usize::MAX
        &&& slot_count(self.forest()) <= usize::MAX
    }
}

/// The model is consistent.
pub open spec fn is_forest<S>(f: Forest<S>) -> bool {
    &&& f.nc.len() == 3
    &&& forall|a: int| 0 <= a < 3 ==> #[trigger] f.nc[a] >= 0
    &&& f.refined.len() == coarse_count(f)
    &&& slot_total(f, 0) <= usize::MAX
    &&& slot_total(f, 1) <= usize::MAX
    &&& slot_total(f, 2) <= usize::MAX
    &&& slot_count(f) <= usize::MAX
}

// ---------------------------------------------------------------------------
// Numbering of leaves.
// ---------------------------------------------------------------------------

/// The leaves of the first coarse cells are as many as the index of the next leaf.
pub proof fn first_leaf_counts<S: Scalar>(f: Forest<S>, m: int)
    requires
        0 <= m,
    ensures
        leaves_upto(f, m).len() == first_leaf(f, m),
        m <= first_leaf(f, m) <= 8 * m,
    decreases m,
{
    if m > 0 {
        first_leaf_counts(f, m - 1);
    }
}

/// The leaves of an earlier coarse cell stay where they are.
pub proof fn leaves_stay<S: Scalar>(f: Forest<S>, m: int, n: int, q: int)
    requires
        0 <= m < n,
        0 <= q < coarse_leaves(f, m).len(),
    ensures
        0 <= first_leaf(f, m) + q < leaves_upto(f, n).len(),
        leaves_upto(f, n)[first_leaf(f, m) + q] == coarse_leaves(f, m)[q],
    decreases n,
{
    first_leaf_counts(f, m);
    first_leaf_counts(f, n - 1);
    if m < n - 1 {
        leaves_stay(f, m, n - 1, q);
    }
}

/// The coarse cell of a slot exists, and so does its leaf.
pub proof fn slot_has_leaf<S: Scalar>(f: Forest<S>, fi: int, fj: int, fk: int)
    requires
        is_forest(f),
        0 <= fi < slot_total(f, 0),
        0 <= fj < slot_total(f, 1),
        0 <= fk < slot_total(f, 2),
    ensures
        0 <= slot_coarse(f, fi, fj, fk) < coarse_count(f),
        0 <= slot_leaf(f, fi, fj, fk) < all_leaves(f).len(),
        all_leaves(f).len() <= usize::MAX,
        coarse_index(f, slot_coarse(f, fi, fj, fk), 0) == fi / 2,
        coarse_index(f, slot_coarse(f, fi, fj, fk), 1) == fj / 2,
        coarse_index(f, slot_coarse(f, fi, fj, fk), 2) == fk / 2,
        all_leaves(f)[slot_leaf(f, fi, fj, fk)].is_ghost == is_ghost_coarse(
            f,
            slot_coarse(f, fi, fj, fk),
        ),
        all_leaves(f)[slot_leaf(f, fi, fj, fk)].level == (if f.refined[slot_coarse(
            f,
            fi,
            fj,
            fk,
        )] {
            1u8
        } else {
            0u8
        }),
{
    let t0: int = coarse_total(f, 0);
    let t1: int = coarse_total(f, 1);
    let t2: int = coarse_total(f, 2);
    assert(f.nc[0] >= 0 && f.nc[1] >= 0 && f.nc[2] >= 0);
    flat_is_inside(fi / 2, fj / 2, fk / 2, t0, t1, t2);
    flat_splits(fi / 2, fj / 2, fk / 2, t1, t2);
    let m: int = slot_coarse(f, fi, fj, fk);
    flat_is_inside(fi % 2, fj % 2, fk % 2, 2, 2, 2);
    let q: int = if f.refined[m] {
        flat(fi % 2, fj % 2, fk % 2, 2, 2)
    } else {
        0
    };
    leaves_stay(f, m, coarse_count(f), q);
    leaves_fit(f);
}

/// There are no more leaves than slots.
pub proof fn leaves_fit<S: Scalar>(f: Forest<S>)
    requires
        is_forest(f),
    ensures
        all_leaves(f).len() == first_leaf(f, coarse_count(f)),
        0 <= coarse_count(f),
        8 * coarse_count(f) == slot_count(f),
        all_leaves(f).len() <= slot_count(f) <= usize::MAX,
{
    let t0: int = coarse_total(f, 0);
    let t1: int = coarse_total(f, 1);
    let t2: int = coarse_total(f, 2);
    assert(f.nc[0] >= 0 && f.nc[1] >= 0 && f.nc[2] >= 0);
    assert((2 * t0) * (2 * t1) * (2 * t2) == 8 * (t0 * t1 * t2)) by (nonlinear_arith);
    assert(0 <= t0 * t1 * t2) by (nonlinear_arith)
        requires
            0 <= t0,
            0 <= t1,
            0 <= t2,
    ;
    first_leaf_counts(f, coarse_count(f));
}

// ---------------------------------------------------------------------------
// Building the mesh.
// ---------------------------------------------------------------------------

/// The coarse grid of a mesh under construction.
struct Base<S> {
    nc: [usize; 3],
    lo: Vec3<S>,
    dc: Vec3<S>,
    refined: Vec<bool>,
}

impl<S: Scalar> Base<S> {
    spec fn forest(&self) -> Forest<S> {
        Forest {
            nc: seq![self.nc[0] as int, self.nc[1] as int, self.nc[2] as int],
            lo: self.lo,
            dc: self.dc,
            refined: self.refined@,
        }
    }

    /// The coarse grid that `cfg` describes.
    fn new(cfg: &ForestConfig<S>) -> (r: Self)
        requires
            cfg.can_build(),
        ensures
            r.forest() == cfg.forest(),
            is_forest(r.forest()),
    {
        let nc: [usize; 3] = [cfg.ncx, cfg.ncy, cfg.ncz];
        let lo: Vec3<S> = cfg.bounds_lo;
        let hi: Vec3<S> = cfg.bounds_hi;
        let dc: Vec3<S> = [
            hi[0].minus(lo[0]).over(S::from_count(nc[0])),
            hi[1].minus(lo[1]).over(S::from_count(nc[1])),
            hi[2].minus(lo[2]).over(S::from_count(nc[2])),
        ];
        let refined: Vec<bool> = mark_refined(cfg);
        let r: Base<S> = Base { nc, lo, dc, refined };
        proof {
            assert(r.forest().nc =~= cfg.forest().nc);
            assert(r.forest().refined =~= cfg.forest().refined);
        }
        r
    }

    /// Whether the coarse cell with these raw indices lies in the ghost layer.
    fn is_ghost(&self, ci: usize, cj: usize, ck: usize) -> (r: bool)
        requires
            is_forest(self.forest()),
        ensures
            r == (is_outside(ci as int, self.nc[0] as int) || is_outside(
                cj as int,
                self.nc[1] as int,
            ) || is_outside(ck as int, self.nc[2] as int)),
    {
        assert(slot_total(self.forest(), 0) <= usize::MAX);
        ci < 1 || ci >= 1 + self.nc[0] || cj < 1 || cj >= 1 + self.nc[1] || ck < 1 || ck >= 1
            + self.nc[2]
    }

    /// Append the leaves of the coarse cell with these raw indices.
    fn push_leaves(&self, ci: usize, cj: usize, ck: usize, leaves: &mut Vec<Leaf<S>>)
        requires
            is_forest(self.forest()),
            ci < coarse_total(self.forest(), 0),
            cj < coarse_total(self.forest(), 1),
            ck < coarse_total(self.forest(), 2),
        ensures
            final(leaves)@ == old(leaves)@ + coarse_leaves(
                self.forest(),
                coarse_number(self.forest(), ci as int, cj as int, ck as int),
            ),
    {
        let ghost f: Forest<S> = self.forest();
        let ghost m: int = coarse_number(f, ci as int, cj as int, ck as int);
        let t1: usize = self.nc[1] + 2;
        let t2: usize = self.nc[2] + 2;
        proof {
            flat_splits(ci as int, cj as int, ck as int, t1 as int, t2 as int);
            flat_is_inside(
                ci as int,
                cj as int,
                ck as int,
                coarse_total(f, 0),
                t1 as int,
                t2 as int,
            );
            leaves_fit(f);
        }
        let number: usize = (ci * t1 + cj) * t2 + ck;
        let is_ghost: bool = self.is_ghost(ci, cj, ck);
        let one: S = S::from_count(1);
        let x: S = self.lo[0].plus(S::from_count(ci).minus(one).times(self.dc[0]));
        let y: S = self.lo[1].plus(S::from_count(cj).minus(one).times(self.dc[1]));
        let z: S = self.lo[2].plus(S::from_count(ck).minus(one).times(self.dc[2]));
        let hx: S = self.dc[0].halved();
        let hy: S = self.dc[1].halved();
        let hz: S = self.dc[2].halved();
        if self.refined[number] {
            let half: S = S::one().halved();
            let mut q: usize = 0;
            while q < 8
                invariant
                    q <= 8,
                    f == self.forest(),
                    m == coarse_number(f, ci as int, cj as int, ck as int),
                    coarse_index(f, m, 0) == ci,
                    coarse_index(f, m, 1) == cj,
                    coarse_index(f, m, 2) == ck,
                    is_ghost == is_ghost_coarse(f, m),
                    half == S::one_spec().halved_spec(),
                    x == coarse_corner(self.lo[0], self.dc[0], ci as int),
                    y == coarse_corner(self.lo[1], self.dc[1], cj as int),
                    z == coarse_corner(self.lo[2], self.dc[2], ck as int),
                    hx == self.dc[0].halved_spec(),
                    hy == self.dc[1].halved_spec(),
                    hz == self.dc[2].halved_spec(),
                    leaves@ == old(leaves)@ + Seq::new(
                        q as nat,
                        |p: int| child_leaf(f, m, p),
                    ),
                decreases 8 - q,
            {
                let sx: usize = q / 2 / 2;
                let sy: usize = q / 2 % 2;
                let sz: usize = q % 2;
                leaves.push(
                    Leaf {
                        level: 1,
                        center: [
                            x.plus(S::from_count(sx).plus(half).times(hx)),
                            y.plus(S::from_count(sy).plus(half).times(hy)),
                            z.plus(S::from_count(sz).plus(half).times(hz)),
                        ],
                        size: [hx, hy, hz],
                        is_ghost,
                    },
                );
                assert(leaves@.last() == child_leaf(f, m, q as int));
                q = q + 1;
                assert(leaves@ =~= old(leaves)@ + Seq::new(
                    q as nat,
                    |p: int| child_leaf(f, m, p),
                ));
            }
        } else {
            leaves.push(
                Leaf {
                    level: 0,
                    center: [x.plus(hx), y.plus(hy), z.plus(hz)],
                    size: self.dc,
                    is_ghost,
                },
            );
            assert(leaves@.last() == whole_leaf(f, m));
            assert(leaves@ =~= old(leaves)@ + coarse_leaves(f, m));
        }
    }

    /// All leaves, and the index of the first leaf of each coarse cell.
    fn build_leaves(&self) -> (r: (Vec<Leaf<S>>, Vec<usize>))
        requires
            is_forest(self.forest()),
        ensures
            r.0@ == all_leaves(self.forest()),
            r.1@.len() == coarse_count(self.forest()),
            forall|m: int|
                0 <= m < r.1@.len() ==> #[trigger] r.1@[m] == first_leaf(self.forest(), m),
    {
        let ghost f: Forest<S> = self.forest();
        let t0: usize = self.nc[0] + 2;
        let t1: usize = self.nc[1] + 2;
        let t2: usize = self.nc[2] + 2;
        let mut leaves: Vec<Leaf<S>> = Vec::new();
        let mut first: Vec<usize> = Vec::new();
        proof {
            flat_steps(0, 0, 0, t1 as int, t2 as int);
            leaves_fit(f);
        }
        let mut ci: usize = 0;
        while ci < t0
            invariant
                f == self.forest(),
                is_forest(f),
                t0 == coarse_total(f, 0),
                t1 == coarse_total(f, 1),
                t2 == coarse_total(f, 2),
                ci <= t0,
                first@.len() == coarse_number(f, ci as int, 0, 0),
                leaves@ == leaves_upto(f, first@.len() as int),
                forall|m: int|
                    0 <= m < first@.len() ==> #[trigger] first@[m] == first_leaf(f, m),
            decreases t0 - ci,
        {
            let mut cj: usize = 0;
            while cj < t1
                invariant
                    f == self.forest(),
                    is_forest(f),
                    t0 == coarse_total(f, 0),
                    t1 == coarse_total(f, 1),
                    t2 == coarse_total(f, 2),
                    ci < t0,
                    cj <= t1,
                    first@.len() == coarse_number(f, ci as int, cj as int, 0),
                    leaves@ == leaves_upto(f, first@.len() as int),
                    forall|m: int|
                        0 <= m < first@.len() ==> #[trigger] first@[m] == first_leaf(f, m),
                decreases t1 - cj,
            {
                let mut ck: usize = 0;
                while ck < t2
                    invariant
                        f == self.forest(),
                        is_forest(f),
                        t0 == coarse_total(f, 0),
                        t1 == coarse_total(f, 1),
                        t2 == coarse_total(f, 2),
                        ci < t0,
                        cj < t1,
                        ck <= t2,
                        first@.len() == coarse_number(f, ci as int, cj as int, ck as int),
                        leaves@ == leaves_upto(f, first@.len() as int),
                        forall|m: int|
                            0 <= m < first@.len() ==> #[trigger] first@[m] == first_leaf(f, m),
                    decreases t2 - ck,
                {
                    proof {
                        first_leaf_counts(f, first@.len() as int);
                        flat_steps(ci as int, cj as int, ck as int, t1 as int, t2 as int);
                        flat_is_inside(
                            ci as int,
                            cj as int,
                            ck as int,
                            t0 as int,
                            t1 as int,
                            t2 as int,
                        );
                    }
                    first.push(leaves.len());
                    self.push_leaves(ci, cj, ck, &mut leaves);
                    ck = ck + 1;
                }
                proof {
                    flat_steps(ci as int, cj as int, 0, t1 as int, t2 as int);
                }
                cj = cj + 1;
            }
            proof {
                flat_steps(ci as int, 0, 0, t1 as int, t2 as int);
            }
            ci = ci + 1;
        }
        assert(coarse_number(f, t0 as int, 0, 0) == coarse_count(f));
        (leaves, first)
    }

    /// The index of the leaf that covers a slot.
    fn leaf_at(&self, first: &Vec<usize>, fi: usize, fj: usize, fk: usize) -> (r: usize)
        requires
            is_forest(self.forest()),
            first@.len() == coarse_count(self.forest()),
            forall|m: int|
                0 <= m < first@.len() ==> #[trigger] first@[m] == first_leaf(self.forest(), m),
            fi < slot_total(self.forest(), 0),
            fj < slot_total(self.forest(), 1),
            fk < slot_total(self.forest(), 2),
        ensures
            r == slot_leaf(self.forest(), fi as int, fj as int, fk as int),
            r < all_leaves(self.forest()).len(),
    {
        let ghost f: Forest<S> = self.forest();
        let t1: usize = self.nc[1] + 2;
        let t2: usize = self.nc[2] + 2;
        proof {
            slot_has_leaf(f, fi as int, fj as int, fk as int);
            flat_is_inside(
                fi as int / 2,
                fj as int / 2,
                fk as int / 2,
                coarse_total(f, 0),
                t1 as int,
                t2 as int,
            );
            leaves_fit(f);
        }
        let m: usize = (fi / 2 * t1 + fj / 2) * t2 + fk / 2;
        if self.refined[m] {
            first[m] + ((fi % 2 * 2 + fj % 2) * 2 + fk % 2)
        } else {
            first[m]
        }
    }

    /// The high end of slot `i` along axis `a`, or its center.
    fn side_at(&self, a: usize, i: usize, at_end: bool) -> (r: S)
        requires
            a < 3,
            i < usize::MAX,
        ensures
            r == (if at_end {
                slot_corner(self.lo[a as int], self.dc[a as int], i + 1)
            } else {
                slot_center(self.lo[a as int], self.dc[a as int], i as int)
            }),
    {
        let n: usize = if at_end {
            i + 1
        } else {
            i
        };
        let half: S = self.dc[a].halved();
        let corner: S = self.lo[a].plus(
            S::from_count(n / 2).minus(S::from_count(1)).times(self.dc[a]),
        );
        if at_end {
            corner.plus(S::from_count(n % 2).times(half))
        } else {
            corner.plus(S::from_count(n % 2).plus(S::one().halved()).times(half))
        }
    }

    /// Append the face across the high side of a slot along `axis`, if there is
    /// one, and the coarse/fine pair that it stands for, if it is one.
    fn push_faces(
        &self,
        leaves: &Vec<Leaf<S>>,
        first: &Vec<usize>,
        slot: [usize; 3],
        axis: usize,
        faces: &mut Vec<Face<S>>,
        pairs: &mut Vec<CoarseFineFace<S>>,
    )
        requires
            is_forest(self.forest()),
            leaves@ == all_leaves(self.forest()),
            first@.len() == coarse_count(self.forest()),
            forall|m: int|
                0 <= m < first@.len() ==> #[trigger] first@[m] == first_leaf(self.forest(), m),
            slot[0] < slot_total(self.forest(), 0),
            slot[1] < slot_total(self.forest(), 1),
            slot[2] < slot_total(self.forest(), 2),
            axis < 3,
            old(pairs)@ == pairs_of(leaves@, old(faces)@),
        ensures
            final(faces)@ == old(faces)@ + slot_axis_faces(
                self.forest(),
                slot[0] as int,
                slot[1] as int,
                slot[2] as int,
                axis as int,
            ),
            final(pairs)@ == pairs_of(leaves@, final(faces)@),
    {
        let ghost f: Forest<S> = self.forest();
        let ghost (fi, fj, fk): (int, int, int) = (
            slot[0] as int,
            slot[1] as int,
            slot[2] as int,
        );
        let n: usize = 2 * (self.nc[axis] + 2);
        assert(n == slot_total(f, axis as int));
        let mut next: [usize; 3] = slot;
        if slot[axis] + 1 >= n {
            assert(!has_next(f, fi, fj, fk, axis as int));
            assert(faces@ =~= old(faces)@ + slot_axis_faces(f, fi, fj, fk, axis as int));
            return;
        }
        next[axis] = slot[axis] + 1;
        proof {
            slot_has_leaf(f, fi, fj, fk);
            assert(next_slot(fi, fj, fk, axis as int) == (
                next[0] as int,
                next[1] as int,
                next[2] as int,
            ));
            slot_has_leaf(f, next[0] as int, next[1] as int, next[2] as int);
        }
        let a: usize = self.leaf_at(first, slot[0], slot[1], slot[2]);
        let b: usize = self.leaf_at(first, next[0], next[1], next[2]);
        if a == b || (leaves[a].is_ghost && leaves[b].is_ghost) {
            assert(faces@ =~= old(faces)@ + slot_axis_faces(f, fi, fj, fk, axis as int));
            return;
        }
        let area: S = self.dc[(axis + 1) % 3].halved().times(self.dc[(axis + 2) % 3].halved());
        let low_is_local: bool = !leaves[a].is_ghost;
        let owner: usize = if low_is_local {
            a
        } else {
            b
        };
        let other: usize = if low_is_local {
            b
        } else {
            a
        };
        let patch: Option<u32> = if low_is_local {
            if leaves[b].is_ghost {
                Some(2 * axis as u32 + 1)
            } else {
                None
            }
        } else {
            Some(2 * axis as u32)
        };
        let area_normal: Vec3<S> = along_axis(
            axis,
            if low_is_local {
                area
            } else {
                area.negated()
            },
        );
        let centroid: Vec3<S> = [
            self.side_at(0, slot[0], axis == 0),
            self.side_at(1, slot[1], axis == 1),
            self.side_at(2, slot[2], axis == 2),
        ];
        let face: Face<S> = Face { owner, other, area_normal, centroid, patch };
        proof {
            assert(face == face_between(
                leaves@,
                sub_area(f, axis as int),
                sub_center(f, fi, fj, fk, axis as int),
                axis as int,
                a as int,
                b as int,
            ));
            assert(faces@.push(face).drop_last() =~= faces@);
        }
        if leaves[owner].level != leaves[other].level {
            let owner_is_coarse: bool = leaves[owner].level == 0;
            pairs.push(
                CoarseFineFace {
                    coarse: if owner_is_coarse {
                        owner
                    } else {
                        other
                    },
                    fine: if owner_is_coarse {
                        other
                    } else {
                        owner
                    },
                    area_normal,
                    centroid,
                },
            );
        }
        faces.push(face);
        assert(faces@ =~= old(faces)@ + slot_axis_faces(f, fi, fj, fk, axis as int));
    }

    /// All faces and coarse/fine pairs, slot by slot.
    fn build_faces(&self, leaves: &Vec<Leaf<S>>, first: &Vec<usize>) -> (r: (
        Vec<Face<S>>,
        Vec<CoarseFineFace<S>>,
    ))
        requires
            is_forest(self.forest()),
            leaves@ == all_leaves(self.forest()),
            first@.len() == coarse_count(self.forest()),
            forall|m: int|
                0 <= m < first@.len() ==> #[trigger] first@[m] == first_leaf(self.forest(), m),
        ensures
            r.0@ == forest_faces(self.forest()),
            r.1@ == pairs_of(leaves@, r.0@),
    {
        let ghost f: Forest<S> = self.forest();
        let n0: usize = 2 * (self.nc[0] + 2);
        let n1: usize = 2 * (self.nc[1] + 2);
        let n2: usize = 2 * (self.nc[2] + 2);
        let mut faces: Vec<Face<S>> = Vec::new();
        let mut pairs: Vec<CoarseFineFace<S>> = Vec::new();
        proof {
            flat_steps(0, 0, 0, n1 as int, n2 as int);
            assert(pairs@ =~= pairs_of(leaves@, faces@));
        }
        let mut fi: usize = 0;
        while fi < n0
            invariant
                f == self.forest(),
                is_forest(f),
                leaves@ == all_leaves(f),
                first@.len() == coarse_count(f),
                forall|m: int|
                    0 <= m < first@.len() ==> #[trigger] first@[m] == first_leaf(f, m),
                n0 == slot_total(f, 0),
                n1 == slot_total(f, 1),
                n2 == slot_total(f, 2),
                fi <= n0,
                faces@ == slot_faces_upto(f, flat(fi as int, 0, 0, n1 as int, n2 as int)),
                pairs@ == pairs_of(leaves@, faces@),
            decreases n0 - fi,
        {
            let mut fj: usize = 0;
            while fj < n1
                invariant
                    f == self.forest(),
                    is_forest(f),
                    leaves@ == all_leaves(f),
                    first@.len() == coarse_count(f),
                    forall|m: int|
                        0 <= m < first@.len() ==> #[trigger] first@[m] == first_leaf(f, m),
                    n0 == slot_total(f, 0),
                    n1 == slot_total(f, 1),
                    n2 == slot_total(f, 2),
                    fi < n0,
                    fj <= n1,
                    faces@ == slot_faces_upto(
                        f,
                        flat(fi as int, fj as int, 0, n1 as int, n2 as int),
                    ),
                    pairs@ == pairs_of(leaves@, faces@),
                decreases n1 - fj,
            {
                let mut fk: usize = 0;
                while fk < n2
                    invariant
                        f == self.forest(),
                        is_forest(f),
                        leaves@ == all_leaves(f),
                        first@.len() == coarse_count(f),
                        forall|m: int|
                            0 <= m < first@.len() ==> #[trigger] first@[m] == first_leaf(f, m),
                        n0 == slot_total(f, 0),
                        n1 == slot_total(f, 1),
                        n2 == slot_total(f, 2),
                        fi < n0,
                        fj < n1,
                        fk <= n2,
                        faces@ == slot_faces_upto(
                            f,
                            flat(fi as int, fj as int, fk as int, n1 as int, n2 as int),
                        ),
                        pairs@ == pairs_of(leaves@, faces@),
                    decreases n2 - fk,
                {
                    let ghost before: Seq<Face<S>> = faces@;
                    proof {
                        flat_splits(fi as int, fj as int, fk as int, n1 as int, n2 as int);
                        flat_steps(fi as int, fj as int, fk as int, n1 as int, n2 as int);
                        flat_is_inside(
                            fi as int,
                            fj as int,
                            fk as int,
                            n0 as int,
                            n1 as int,
                            n2 as int,
                        );
                    }
                    let slot: [usize; 3] = [fi, fj, fk];
                    self.push_faces(leaves, first, slot, 0, &mut faces, &mut pairs);
                    self.push_faces(leaves, first, slot, 1, &mut faces, &mut pairs);
                    self.push_faces(leaves, first, slot, 2, &mut faces, &mut pairs);
                    proof {
                        let s: int = flat(fi as int, fj as int, fk as int, n1 as int, n2 as int);
                        assert(faces@ =~= before + slot_faces(f, s));
                    }
                    fk = fk + 1;
                }
                proof {
                    flat_steps(fi as int, fj as int, 0, n1 as int, n2 as int);
                }
                fj = fj + 1;
            }
            proof {
                flat_steps(fi as int, 0, 0, n1 as int, n2 as int);
            }
            fi = fi + 1;
        }
        assert(flat(n0 as int, 0, 0, n1 as int, n2 as int) == slot_count(f));
        (faces, pairs)
    }
}

/// The vector of length `a` along `axis`.
pub fn along_axis<S: Scalar>(axis: usize, a: S) -> (r: Vec3<S>)
    requires
        axis < 3,
    ensures
        r == axis_vector(axis as int, a),
{
    let o: S = S::zero();
    if axis == 0 {
        [a, o, o]
    } else if axis == 1 {
        [o, a, o]
    } else {
        [o, o, a]
    }
}

/// For each coarse cell, ghosts included, whether it is listed for refinement.
fn mark_refined<S: Scalar>(cfg: &ForestConfig<S>) -> (r: Vec<bool>)
    requires
        cfg.can_build(),
    ensures
        r@ == cfg.forest().refined,
{
    let ghost f: Forest<S> = cfg.forest();
    let t0: usize = cfg.ncx + 2;
    let t1: usize = cfg.ncy + 2;
    let t2: usize = cfg.ncz + 2;
    proof {
        assert(coarse_count(f) == t0 * t1 * t2);
        assert((2 * t0) * (2 * t1) * (2 * t2) == 8 * (t0 * t1 * t2)) by (nonlinear_arith);
        assert(0 <= t0 * t1 && t0 * t1 <= t0 * t1 * t2) by (nonlinear_arith)
            requires
                0 <= t0,
                0 <= t1,
                1 <= t2,
        ;
    }
    let n: usize = t0 * t1 * t2;
    let mut marks: Vec<bool> = Vec::new();
    while marks.len() < n
        invariant
            marks@.len() <= n,
            forall|m: int| 0 <= m < marks@.len() ==> !(#[trigger] marks@[m]),
        decreases n - marks@.len(),
    {
        marks.push(false);
    }
    let mut r: usize = 0;
    assert forall|m: int| 0 <= m < n implies #[trigger] marks@[m] == is_listed(
        cfg.refine@.take(0),
        first_of(m, t1 as int, t2 as int),
        second_of(m, t1 as int, t2 as int),
        third_of(m, t2 as int),
    ) by {}
    while r < cfg.refine.len()
        invariant
            cfg.can_build(),
            t0 == cfg.ncx + 2,
            t1 == cfg.ncy + 2,
            t2 == cfg.ncz + 2,
            n == t0 * t1 * t2,
            r <= cfg.refine@.len(),
            marks@.len() == n,
            forall|m: int|
                0 <= m < n ==> #[trigger] marks@[m] == is_listed(
                    cfg.refine@.take(r as int),
                    first_of(m, t1 as int, t2 as int),
                    second_of(m, t1 as int, t2 as int),
                    third_of(m, t2 as int),
                ),
        decreases cfg.refine@.len() - r,
    {
        let cell: [usize; 3] = cfg.refine[r];
        assert(cfg.refine@[r as int][0] < cfg.ncx);
        let (ci, cj, ck): (usize, usize, usize) = (cell[0] + 1, cell[1] + 1, cell[2] + 1);
        proof {
            flat_is_inside(ci as int, cj as int, ck as int, t0 as int, t1 as int, t2 as int);
            flat_splits(ci as int, cj as int, ck as int, t1 as int, t2 as int);
        }
        let number: usize = (ci * t1 + cj) * t2 + ck;
        let ghost before: Seq<bool> = marks@;
        marks[number] = true;
        r = r + 1;
        proof {
            let old_list: Seq<[usize; 3]> = cfg.refine@.take(r - 1);
            let new_list: Seq<[usize; 3]> = cfg.refine@.take(r as int);
            assert forall|m: int| 0 <= m < n implies #[trigger] marks@[m] == is_listed(
                new_list,
                first_of(m, t1 as int, t2 as int),
                second_of(m, t1 as int, t2 as int),
                third_of(m, t2 as int),
            ) by {
                let (i, j, k): (int, int, int) = (
                    first_of(m, t1 as int, t2 as int),
                    second_of(m, t1 as int, t2 as int),
                    third_of(m, t2 as int),
                );
                flat_joins(m, t0 as int, t1 as int, t2 as int);
                assert(before[m] == is_listed(old_list, i, j, k));
                if is_listed(old_list, i, j, k) {
                    let w: int = choose|w: int|
                        0 <= w < old_list.len() && (#[trigger] old_list[w])[0] + 1 == i
                            && old_list[w][1] + 1 == j && old_list[w][2] + 1 == k;
                    assert(new_list[w] == old_list[w]);
                }
                if m == number {
                    assert(new_list[r - 1] == cell);
                } else if is_listed(new_list, i, j, k) {
                    let w: int = choose|w: int|
                        0 <= w < new_list.len() && (#[trigger] new_list[w])[0] + 1 == i
                            && new_list[w][1] + 1 == j && new_list[w][2] + 1 == k;
                    assert(w != r - 1);
                    assert(old_list[w] == new_list[w]);
                }
            }
        }
    }
    assert(cfg.refine@.take(r as int) =~= cfg.refine@);
    assert(marks@ =~= f.refined);
    marks
}

/// A two-level block-adaptive Cartesian mesh.
pub struct ForestMesh<S> {
    leaves: Vec<Leaf<S>>,
    n_local: usize,
    faces: Vec<Face<S>>,
    coarse_fine: Vec<CoarseFineFace<S>>,
    halo: HaloPlan,
}

impl<S: Scalar> ForestMesh<S> {
    /// The leaves, ghosts included.
    pub closed spec fn leaf_list(&self) -> Seq<Leaf<S>> {
        self.leaves@
    }

    /// The number of local leaves is the one that is kept.
    pub closed spec fn count_agrees(&self) -> bool {
        self.n_local == count_set(local_mask(self.leaves@))
    }

    /// The coarse/fine pairs that are kept.
    pub closed spec fn pair_list(&self) -> Seq<CoarseFineFace<S>> {
        self.coarse_fine@
    }

    /// Builds the mesh from a coarse base grid and a refinement list.
    pub fn from_config(cfg: &ForestConfig<S>) -> (r: Self)
        requires
            cfg.can_build(),
        ensures
            r.valid(),
            is_forest(cfg.forest()),
            r.leaf_list() == all_leaves(cfg.forest()),
            r.face_list() == forest_faces(cfg.forest()),
            r.coarse_fine_list() == pairs_of(
                all_leaves(cfg.forest()),
                forest_faces(cfg.forest()),
            ),
            r.plan().links@.len() == 0,
    {
        let base: Base<S> = Base::new(cfg);
        let (leaves, first): (Vec<Leaf<S>>, Vec<usize>) = base.build_leaves();
        let (faces, coarse_fine): (Vec<Face<S>>, Vec<CoarseFineFace<S>>) = base.build_faces(
            &leaves,
            &first,
        );
        let mut n_local: usize = 0;
        let mut c: usize = 0;
        while c < leaves.len()
            invariant
                c <= leaves@.len(),
                n_local == count_set(local_mask(leaves@).take(c as int)),
                n_local <= c,
            decreases leaves@.len() - c,
        {
            assert(local_mask(leaves@).take(c + 1).drop_last() =~= local_mask(leaves@).take(
                c as int,
            ));
            if !leaves[c].is_ghost {
                n_local = n_local + 1;
            }
            c = c + 1;
        }
        assert(local_mask(leaves@).take(c as int) =~= local_mask(leaves@));
        ForestMesh { leaves, n_local, faces, coarse_fine, halo: HaloPlan::empty() }
    }

    /// Number of leaves that are fine.
    pub open spec fn fine_count(leaves: Seq<Leaf<S>>) -> nat {
        count_set(leaves.map_values(|l: Leaf<S>| l.level == 1))
    }

    /// Number of leaves at each refinement level, ghosts included.
    pub fn level_counts(&self) -> (r: (usize, usize))
        ensures
            r.1 == Self::fine_count(self.leaf_list()),
            r.0 + r.1 == self.leaf_list().len(),
    {
        let mut fine: usize = 0;
        let mut c: usize = 0;
        let ghost mask: Seq<bool> = self.leaves@.map_values(|l: Leaf<S>| l.level == 1);
        while c < self.leaves.len()
            invariant
                mask == self.leaves@.map_values(|l: Leaf<S>| l.level == 1),
                c <= self.leaves@.len(),
                fine == count_set(mask.take(c as int)),
                fine <= c,
            decreases self.leaves@.len() - c,
        {
            assert(mask.take(c + 1).drop_last() =~= mask.take(c as int));
            if self.leaves[c].level == 1 {
                fine = fine + 1;
            }
            c = c + 1;
        }
        assert(mask.take(c as int) =~= mask);
        (self.leaves.len() - fine, fine)
    }
}

/// A copy of a list.
pub fn copied<T: Copy>(list: &Vec<T>) -> (r: Vec<T>)
    ensures
        r@ == list@,
{
    let mut r: Vec<T> = Vec::new();
    let mut i: usize = 0;
    while i < list.len()
        invariant
            i <= list@.len(),
            r@ == list@.take(i as int),
        decreases list@.len() - i,
    {
        r.push(list[i]);
        i = i + 1;
        assert(r@ =~= list@.take(i as int));
    }
    assert(r@ =~= list@);
    r
}

impl<S: Scalar> FvMesh<S> for ForestMesh<S> {
    open spec fn valid(&self) -> bool {
        self.count_agrees()
    }

    open spec fn owned(&self) -> Seq<bool> {
        local_mask(self.leaf_list())
    }

    open spec fn volume_of(&self, c: int) -> S {
        let size: Vec3<S> = self.leaf_list()[c].size;
        size[0].times_spec(size[1]).times_spec(size[2])
    }

    open spec fn centroid_of(&self, c: int) -> Seq<S> {
        self.leaf_list()[c].center@
    }

    open spec fn has_faces(&self) -> bool {
        true
    }

    closed spec fn face_list(&self) -> Seq<Face<S>> {
        self.faces@
    }

    closed spec fn plan(&self) -> HaloPlan {
        self.halo
    }

    fn n_local_cells(&self) -> (r: usize) {
        self.n_local
    }

    fn n_cells_total(&self) -> (r: usize) {
        self.leaves.len()
    }

    fn is_local_cell(&self, c: usize) -> (r: bool) {
        !self.leaves[c].is_ghost
    }

    fn cell_volume(&self, c: usize) -> (r: S) {
        let size: Vec3<S> = self.leaves[c].size;
        size[0].times(size[1]).times(size[2])
    }

    fn cell_centroid(&self, c: usize) -> (r: Vec3<S>) {
        self.leaves[c].center
    }

    fn faces(&self) -> (r: Vec<Face<S>>) {
        copied(&self.faces)
    }

    fn halo_plan(&self) -> (r: &HaloPlan) {
        &self.halo
    }
}

impl<S: Scalar> AdaptiveMesh<S> for ForestMesh<S> {
    open spec fn level_of(&self, c: int) -> u8 {
        self.leaf_list()[c].level
    }

    open spec fn coarse_fine_list(&self) -> Seq<CoarseFineFace<S>> {
        self.pair_list()
    }

    fn cell_level(&self, c: usize) -> (r: u8) {
        self.leaves[c].level
    }

    fn coarse_fine_faces(&self) -> (r: Vec<CoarseFineFace<S>>) {
        copied(&self.coarse_fine)
    }
}

} // verus!
