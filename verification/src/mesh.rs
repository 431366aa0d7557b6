//! [`FvMesh`] - the finite-volume view of a mesh - and its structured, Cartesian
//! and adaptive extensions.
//!
//! A finite-volume update needs cells with volumes and faces that connect an
//! `owner` cell to an `other` cell with an area-weighted normal. Capabilities
//! beyond that live in extension traits, required only by the solvers that need
//! them.

use crate::halo::HaloPlan;
use crate::scalar::Scalar;
use vstd::prelude::*;

verus! {

/// A 3-component spatial vector (or point), in physical units.
pub type Vec3<S> = [S; 3];

/// Identifies a named boundary patch. Structured meshes use the indices of the
/// six [`BoundarySide`] values; other meshes assign their own.
pub type PatchId = u32;

/// The six axis-aligned boundary sides of a structured subdomain.
#[derive(Debug, Clone, Copy, PartialEq, Eq, Structural)]
pub enum BoundarySide {
    /// Low x.
    XLo,
    /// High x.
    XHi,
    /// Low y.
    YLo,
    /// High y.
    YHi,
    /// Low z.
    ZLo,
    /// High z.
    ZHi,
}

impl BoundarySide {
    /// The number of a side: twice its axis, plus one on the high side.
    pub open spec fn number(self) -> int {
        match self {
            BoundarySide::XLo => 0,
            BoundarySide::XHi => 1,
            BoundarySide::YLo => 2,
            BoundarySide::YHi => 3,
            BoundarySide::ZLo => 4,
            BoundarySide::ZHi => 5,
        }
    }

    /// The [`PatchId`] of this side.
    pub fn index(self) -> (r: u32)
        ensures
            r == self.number(),
    {
        match self {
            BoundarySide::XLo => 0,
            BoundarySide::XHi => 1,
            BoundarySide::YLo => 2,
            BoundarySide::YHi => 3,
            BoundarySide::ZLo => 4,
            BoundarySide::ZHi => 5,
        }
    }

    /// The axis (0=x, 1=y, 2=z) this side is normal to.
    pub fn axis(self) -> (r: usize)
        ensures
            r == self.number() / 2,
    {
        (self.index() / 2) as usize
    }

    /// `false` for the low side, `true` for the high side.
    pub fn is_high(self) -> (r: bool)
        ensures
            r == (self.number() % 2 == 1),
    {
        self.index() % 2 == 1
    }

    /// Recover a side from its [`PatchId`] index, for physics that reads
    /// [`Face::patch`] and dispatches on the side.
    pub fn from_index(i: u32) -> (r: Option<BoundarySide>)
        ensures
            r is Some <==> i < 6,
            r matches Some(side) ==> side.number() == i,
    {
        match i {
            0 => Some(BoundarySide::XLo),
            1 => Some(BoundarySide::XHi),
            2 => Some(BoundarySide::YLo),
            3 => Some(BoundarySide::YHi),
            4 => Some(BoundarySide::ZLo),
            5 => Some(BoundarySide::ZHi),
            _ => None,
        }
    }
}

/// The numbers of the sides go axis by axis, x first, the low side before the high
/// one.
pub proof fn sides_are_numbered_by_axis(a: BoundarySide)
    ensures
        (a is XLo || a is XHi) <==> a.number() / 2 == 0,
        (a is YLo || a is YHi) <==> a.number() / 2 == 1,
        (a is ZLo || a is ZHi) <==> a.number() / 2 == 2,
        (a is XHi || a is YHi || a is ZHi) <==> a.number() % 2 == 1,
{
}

/// A side is determined by its number, and so by its axis and direction.
pub proof fn sides_have_distinct_numbers(a: BoundarySide, b: BoundarySide)
    ensures
        a.number() == b.number() <==> a == b,
        (a.number() / 2 == b.number() / 2 && a.number() % 2 == b.number() % 2) <==> a == b,
{
}

/// One face of the mesh, presented to the generic (shape-agnostic) flux loop.
///
/// A face separates two cells. Its `area_normal` points from `owner` toward
/// `other`, so a flux computed for this face leaves `owner` and enters `other`.
///
/// - Interior face: `patch` is `None`; `other` is a real neighbor cell, possibly
///   a halo cell whose value an exchange supplies.
/// - Physical-boundary face: `patch` is `Some(side)`; `other` is the ghost cell on
///   that side, whose value a boundary condition fills.
#[derive(Clone, Copy)]
pub struct Face<S> {
    /// Owning cell index (always a local interior cell).
    pub owner: usize,
    /// The other cell index: interior, halo, or boundary ghost.
    pub other: usize,
    /// Area-weighted outward normal, pointing from `owner` to `other`.
    pub area_normal: Vec3<S>,
    /// Face centroid in physical space.
    pub centroid: Vec3<S>,
    /// `Some(side)` if this face lies on a physical domain boundary.
    pub patch: Option<PatchId>,
}

/// The number of marks set in `mask`.
pub open spec fn count_set(mask: Seq<bool>) -> nat
    decreases mask.len(),
{
    if mask.len() == 0 {
        0
    } else {
        count_set(mask.drop_last()) + (if mask.last() {
            1nat
        } else {
            0nat
        })
    }
}

/// The cell-centered finite-volume mesh interface.
pub trait FvMesh<S: Scalar>: Send + Sync + 'static {
    /// The mesh is well formed.
    closed spec fn valid(&self) -> bool {
        arbitrary()
    }

    /// For each cell, ghosts included, whether it is a local, owned cell.
    closed spec fn owned(&self) -> Seq<bool> {
        arbitrary()
    }

    /// Control volume of cell `c`.
    closed spec fn volume_of(&self, c: int) -> S {
        arbitrary()
    }

    /// Centroid of cell `c`.
    closed spec fn centroid_of(&self, c: int) -> Seq<S> {
        arbitrary()
    }

    /// Every face of the subdomain has a cell on either side.
    closed spec fn has_faces(&self) -> bool {
        arbitrary()
    }

    /// All faces, in the order of a visit.
    closed spec fn face_list(&self) -> Seq<Face<S>> {
        arbitrary()
    }

    /// The halo exchange plan.
    closed spec fn plan(&self) -> HaloPlan {
        arbitrary()
    }

    /// Number of owned (local, non-ghost) cells.
    fn n_local_cells(&self) -> (r: usize)
        requires
            self.valid(),
        ensures
            r == count_set(self.owned()),
    ;

    /// Total number of cells including ghost/halo cells: the length every field
    /// store is resized to.
    fn n_cells_total(&self) -> (r: usize)
        requires
            self.valid(),
        ensures
            r == self.owned().len(),
    ;

    /// Whether cell `c` is a local owned cell, as opposed to a ghost/halo cell.
    /// Owned cells are not necessarily a contiguous prefix of the storage.
    fn is_local_cell(&self, c: usize) -> (r: bool)
        requires
            self.valid(),
            c < self.owned().len(),
        ensures
            r == self.owned()[c as int],
    ;

    /// Control volume of cell `c`.
    fn cell_volume(&self, c: usize) -> (r: S)
        requires
            self.valid(),
            c < self.owned().len(),
        ensures
            r == self.volume_of(c as int),
    ;

    /// Centroid of cell `c` in physical space.
    fn cell_centroid(&self, c: usize) -> (r: Vec3<S>)
        requires
            self.valid(),
            c < self.owned().len(),
        ensures
            r@ == self.centroid_of(c as int),
    ;

    /// Every face exactly once, in visiting order. Interior faces carry no patch;
    /// physical-boundary faces carry the patch of their side.
    fn faces(&self) -> (r: Vec<Face<S>>)
        requires
            self.valid(),
            self.has_faces(),
        ensures
            r@ == self.face_list(),
    ;

    /// The halo exchange plan for this rank's subdomain. Without links for a
    /// serial run.
    fn halo_plan(&self) -> (r: &HaloPlan)
        requires
            self.valid(),
        ensures
            *r == self.plan(),
    ;
}

/// The 8-cell bracket around a point: the raw indices of its lower corner and
/// the fractions of the point between lower and upper corner.
pub ghost struct Bracket<S> {
    /// Raw lower-corner index per axis.
    pub lo: Seq<int>,
    /// Fraction per axis.
    pub t: Seq<S>,
}

/// Extension for meshes with structured `(i,j,k)` topology.
///
/// Indices are ghost-offset: interior cell `(0,0,0)` lives at flat index
/// `idx(0,0,0)`, which is not `0` when there are ghost layers.
pub trait StructuredMesh<S: Scalar>: FvMesh<S> {
    /// Interior cells along `axis`.
    closed spec fn dim(&self, axis: int) -> int {
        arbitrary()
    }

    /// Ghost layers on each side.
    closed spec fn ghosts(&self) -> int {
        arbitrary()
    }

    /// Flat index of the cell with ghost-inclusive indices `(ir, jr, kr)`.
    closed spec fn raw_index(&self, ir: int, jr: int, kr: int) -> int {
        arbitrary()
    }

    /// Cell width along `axis` at interior index `n`.
    closed spec fn width_of(&self, axis: int, n: int) -> S {
        arbitrary()
    }

    /// The raw lower corner and the fractions of the 8-cell bracket around a
    /// point, if it lies in this rank's extent.
    closed spec fn bracket_of(&self, point: Vec3<S>) -> Option<Bracket<S>> {
        arbitrary()
    }

    /// Interior cell counts `[ni, nj, nk]` (this rank's subdomain).
    fn dims(&self) -> (r: [usize; 3])
        requires
            self.valid(),
        ensures
            forall|a: int| 0 <= a < 3 ==> #[trigger] r[a] == self.dim(a),
    ;

    /// Number of ghost cell layers on each side.
    fn n_ghost(&self) -> (r: usize)
        requires
            self.valid(),
        ensures
            r == self.ghosts(),
    ;

    /// Total cell counts including ghost layers.
    fn total_dims(&self) -> (r: [usize; 3])
        requires
            self.valid(),
        ensures
            forall|a: int| 0 <= a < 3 ==> #[trigger] r[a] == self.dim(a) + 2 * self.ghosts(),
    ;

    /// Flat storage index of interior cell `(i, j, k)` (ghost offset applied).
    fn idx(&self, i: usize, j: usize, k: usize) -> (r: usize)
        requires
            self.valid(),
            i < self.dim(0) + self.ghosts(),
            j < self.dim(1) + self.ghosts(),
            k < self.dim(2) + self.ghosts(),
        ensures
            r == self.raw_index(i + self.ghosts(), j + self.ghosts(), k + self.ghosts()),
            r < self.owned().len(),
    ;

    /// Flat storage index from raw, ghost-inclusive per-axis indices: the access
    /// wide stencils need.
    fn idx_raw(&self, ir: usize, jr: usize, kr: usize) -> (r: usize)
        requires
            self.valid(),
            ir < self.dim(0) + 2 * self.ghosts(),
            jr < self.dim(1) + 2 * self.ghosts(),
            kr < self.dim(2) + 2 * self.ghosts(),
        ensures
            r == self.raw_index(ir as int, jr as int, kr as int),
            r < self.owned().len(),
    ;

    /// Cell width along `axis` (0=x, 1=y, 2=z) at interior index `n` along it.
    fn spacing(&self, axis: usize, n: usize) -> (r: S)
        requires
            self.valid(),
            axis < 3,
            n < self.dim(axis as int) + self.ghosts(),
        ensures
            r == self.width_of(axis as int, n as int),
    ;

    /// Locate a physical `point`: the raw (ghost-inclusive) lower-corner cell
    /// indices and the trilinear fractions of the 8-cell bracket around it, or
    /// `None` if the point is outside this rank's full extent (interior and ghost).
    fn locate(&self, point: Vec3<S>) -> (r: Option<([usize; 3], [S; 3])>)
        requires
            self.valid(),
        ensures
            match r {
                Some((lo, t)) => {
                    &&& self.bracket_of(point) matches Some(b)
                    &&& forall|a: int| 0 <= a < 3 ==> #[trigger] lo[a] == b.lo[a]
                    &&& t@ == b.t
                    &&& forall|a: int|
                        0 <= a < 3 ==> #[trigger] lo[a] + 1 < self.dim(a) + 2 * self.ghosts()
                },
                None => self.bracket_of(point) is None,
            },
    ;
}

/// Extension for axis-aligned (Cartesian) meshes: per-cell face neighbours grouped
/// by the six axis directions, as directional reconstruction stencils need them.
pub trait CartesianMesh<S: Scalar>: FvMesh<S> {
    /// The neighbours of cell `c` across its face on `axis`, on the high side if
    /// `hi`.
    closed spec fn neighbors_of(&self, c: int, axis: int, hi: bool) -> Seq<usize> {
        arbitrary()
    }

    /// Neighbour cell indices across cell `c`'s face on `axis` (0=x, 1=y, 2=z),
    /// the high side if `hi` else the low side.
    ///
    /// One index for a same- or coarser-level neighbour or a boundary ghost cell,
    /// four for finer neighbours, and none where a neighbour is across a non-local
    /// (cross-rank) boundary, so that the caller falls back to first order there, or
    /// where the cell carries no stencil.
    fn axis_neighbors(&self, c: usize, axis: usize, hi: bool) -> (r: &[usize])
        requires
            self.valid(),
            axis < 3,
        ensures
            r@ == self.neighbors_of(c as int, axis as int, hi),
    ;
}

/// A coarse/fine face pair across a refinement boundary, for flux refluxing.
#[derive(Clone, Copy)]
pub struct CoarseFineFace<S> {
    /// The coarse cell.
    pub coarse: usize,
    /// The fine cell.
    pub fine: usize,
    /// Area-weighted normal of the shared face.
    pub area_normal: Vec3<S>,
    /// Centroid of the shared face.
    pub centroid: Vec3<S>,
}

/// Extension for adaptively refined meshes.
pub trait AdaptiveMesh<S: Scalar>: FvMesh<S> {
    /// Refinement level of cell `c` (0 = coarsest).
    closed spec fn level_of(&self, c: int) -> u8 {
        arbitrary()
    }

    /// The coarse/fine face pairs, in the order of a visit.
    closed spec fn coarse_fine_list(&self) -> Seq<CoarseFineFace<S>> {
        arbitrary()
    }

    /// Refinement level of cell `c` (0 = coarsest).
    fn cell_level(&self, c: usize) -> (r: u8)
        requires
            self.valid(),
            c < self.owned().len(),
        ensures
            r == self.level_of(c as int),
    ;

    /// Each coarse/fine face pair that needs flux correction (refluxing).
    fn coarse_fine_faces(&self) -> (r: Vec<CoarseFineFace<S>>)
        requires
            self.valid(),
        ensures
            r@ == self.coarse_fine_list(),
    ;
}

} // verus!
