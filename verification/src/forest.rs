//! Forest-of-octrees building blocks: leaves, faces, face neighbours and the
//! layout of the root trees.
//!
//! The forest itself lives in an octree library. What crosses that boundary is
//! plain: leaf geometry, one raw record per face query, and marks per rank. This
//! module turns those records into values the mesh is built from.

use crate::mesh::Vec3;
use crate::scalar::Scalar;
use crate::scalar::is_ring;
use crate::scalar::minus_restores;
use crate::scalar::plus_commutes;
use vstd::arithmetic::power2::lemma2_to64;
use vstd::arithmetic::power2::lemma_pow2_adds;
use vstd::arithmetic::power2::pow2;
use vstd::bits::lemma_u64_shl_is_mul;
use vstd::prelude::*;

verus! {

/// One leaf of a forest.
#[derive(Debug, Clone, Copy)]
pub struct LeafInfo<S> {
    /// The root tree that holds the leaf.
    pub tree_id: i32,
    /// Refinement level.
    pub level: i8,
    /// Center in physical space.
    pub center: Vec3<S>,
    /// Full extent along each axis.
    pub size: Vec3<S>,
}

impl<S: Scalar> Default for LeafInfo<S> {
    /// A leaf of no extent at the origin.
    fn default() -> (r: Self)
        ensures
            r.tree_id == 0,
            r.level == 0,
            r.center == [S::zero_spec(), S::zero_spec(), S::zero_spec()],
            r.size == [S::zero_spec(), S::zero_spec(), S::zero_spec()],
    {
        let o: S = S::zero();
        LeafInfo { tree_id: 0, level: 0, center: [o, o, o], size: [o, o, o] }
    }
}

/// One of the six axis-aligned faces of a leaf.
#[derive(Debug, Clone, Copy, PartialEq, Eq, Structural)]
pub enum Face {
    /// Low x.
    XLo,
    /// High x.
    XHi,
    /// Low y.
    YLo,
    /// High y.
    YHi,
    /// Low z.
    ZLo,
    /// High z.
    ZHi,
}

impl Face {
    /// The number of a face: twice its axis, plus one on the high side.
    pub open spec fn number(self) -> int {
        match self {
            Face::XLo => 0,
            Face::XHi => 1,
            Face::YLo => 2,
            Face::YHi => 3,
            Face::ZLo => 4,
            Face::ZHi => 5,
        }
    }

    /// All faces, by ascending number.
    pub fn all() -> (r: [Face; 6])
        ensures
            forall|i: int| 0 <= i < 6 ==> (#[trigger] r[i]).number() == i,
    {
        [Face::XLo, Face::XHi, Face::YLo, Face::YHi, Face::ZLo, Face::ZHi]
    }

    /// The number of this face.
    pub fn index(self) -> (r: usize)
        ensures
            r == self.number(),
    {
        match self {
            Face::XLo => 0,
            Face::XHi => 1,
            Face::YLo => 2,
            Face::YHi => 3,
            Face::ZLo => 4,
            Face::ZHi => 5,
        }
    }
}

/// Result of a face-neighbor query for a single leaf.
#[derive(Debug, Clone, Copy, PartialEq, Eq)]
pub enum NeighborSet {
    /// The face is on the physical domain boundary.
    Boundary,
    /// One neighbor of the same level, by leaf index.
    Same(usize),
    /// One coarser neighbor, by leaf index.
    Coarser(usize),
    /// Four finer neighbors covering the face.
    Finer(FinerSet),
    /// A same-level or coarser neighbor on another rank, by ghost-layer index.
    Remote(usize),
}

/// The four finer neighbors across one face, with a per-slot local/ghost split.
#[derive(Debug, Clone, Copy, PartialEq, Eq)]
pub struct FinerSet {
    /// Per-slot index: a local leaf index, or a ghost-layer index where the bit of
    /// the slot is set in `ghost_mask`.
    pub idx: [usize; 4],
    /// Bit `h` set: `idx[h]` is a ghost-layer index.
    pub ghost_mask: u8,
}

impl FinerSet {
    /// Bit `h` of the ghost mask is set.
    pub open spec fn ghost_at(&self, h: nat) -> bool {
        self.ghost_mask as int / pow2(h) as int % 2 == 1
    }

    /// Whether slot `h`'s neighbor lives on another rank (a ghost).
    pub fn is_ghost(&self, h: usize) -> (r: bool)
        requires
            h < 8,
        ensures
            r == self.ghost_at(h as nat),
    {
        let m: u8 = self.ghost_mask;
        proof {
            lemma2_to64();
            assert((m & (1u8 << 0usize) != 0) == (m / 1 % 2 == 1)) by (bit_vector);
            assert((m & (1u8 << 1usize) != 0) == (m / 2 % 2 == 1)) by (bit_vector);
            assert((m & (1u8 << 2usize) != 0) == (m / 4 % 2 == 1)) by (bit_vector);
            assert((m & (1u8 << 3usize) != 0) == (m / 8 % 2 == 1)) by (bit_vector);
            assert((m & (1u8 << 4usize) != 0) == (m / 16 % 2 == 1)) by (bit_vector);
            assert((m & (1u8 << 5usize) != 0) == (m / 32 % 2 == 1)) by (bit_vector);
            assert((m & (1u8 << 6usize) != 0) == (m / 64 % 2 == 1)) by (bit_vector);
            assert((m & (1u8 << 7usize) != 0) == (m / 128 % 2 == 1)) by (bit_vector);
        }
        m & (1u8 << h) != 0
    }
}

/// A face-neighbor record as the octree library fills it.
#[derive(Debug, Clone, Copy)]
pub struct RawNeighbors {
    /// Boundary, same level, coarser, finer or ghost, from zero up.
    pub kind: i32,
    /// Number of neighbors.
    pub count: i32,
    /// Neighbor indices, negative where there is none.
    pub idx: [i64; 4],
    /// Bit per slot: set where the index is a ghost-layer index.
    pub ghost_mask: i32,
}

/// Kind of a face on the physical boundary.
pub const NEIGHBOR_BOUNDARY: i32 = 0;

/// Kind of a face with one neighbor of the same level.
pub const NEIGHBOR_SAME: i32 = 1;

/// Kind of a face with one coarser neighbor.
pub const NEIGHBOR_COARSER: i32 = 2;

/// Kind of a face with four finer neighbors.
pub const NEIGHBOR_FINER: i32 = 3;

/// Kind of a face with one neighbor on another rank.
pub const NEIGHBOR_GHOST: i32 = 4;

impl RawNeighbors {
    /// A record of the boundary kind, to be filled in.
    pub fn unfilled() -> (r: Self)
        ensures
            r.kind == NEIGHBOR_BOUNDARY,
            r.count == 0,
            r.idx@ == seq![-1i64, -1i64, -1i64, -1i64],
            r.ghost_mask == 0,
    {
        let r: RawNeighbors = RawNeighbors {
            kind: NEIGHBOR_BOUNDARY,
            count: 0,
            idx: [-1, -1, -1, -1],
            ghost_mask: 0,
        };
        assert(r.idx@ =~= seq![-1i64, -1i64, -1i64, -1i64]);
        r
    }

    /// What a record says: its index where there is one neighbor, its four
    /// indices and mask where there are finer ones, and a physical boundary for
    /// an unknown kind.
    pub open spec fn meaning(&self, r: NeighborSet) -> bool {
        match r {
            NeighborSet::Boundary => self.kind < NEIGHBOR_SAME || self.kind > NEIGHBOR_GHOST,
            NeighborSet::Same(i) => self.kind == NEIGHBOR_SAME && i == self.idx[0] as usize,
            NeighborSet::Coarser(i) => self.kind == NEIGHBOR_COARSER && i == self.idx[0] as usize,
            NeighborSet::Finer(fs) => {
                &&& self.kind == NEIGHBOR_FINER
                &&& forall|h: int| 0 <= h < 4 ==> #[trigger] fs.idx[h] == self.idx[h] as usize
                &&& fs.ghost_mask == self.ghost_mask as u8
            },
            NeighborSet::Remote(i) => self.kind == NEIGHBOR_GHOST && i == self.idx[0] as usize,
        }
    }

    /// Decode the record.
    pub fn decode(&self) -> (r: NeighborSet)
        ensures
            self.meaning(r),
    {
        if self.kind == NEIGHBOR_SAME {
            NeighborSet::Same(#[verifier::truncate] (self.idx[0] as usize))
        } else if self.kind == NEIGHBOR_COARSER {
            NeighborSet::Coarser(#[verifier::truncate] (self.idx[0] as usize))
        } else if self.kind == NEIGHBOR_FINER {
            NeighborSet::Finer(
                FinerSet {
                    idx: [
                        #[verifier::truncate] (self.idx[0] as usize),
                        #[verifier::truncate] (self.idx[1] as usize),
                        #[verifier::truncate] (self.idx[2] as usize),
                        #[verifier::truncate] (self.idx[3] as usize),
                    ],
                    ghost_mask: #[verifier::truncate] (self.ghost_mask as u8),
                },
            )
        } else if self.kind == NEIGHBOR_GHOST {
            NeighborSet::Remote(#[verifier::truncate] (self.idx[0] as usize))
        } else {
            NeighborSet::Boundary
        }
    }
}

/// The ranks whose mark is set, ascending.
pub open spec fn marked_of(marked: Seq<i32>) -> Seq<i32>
    decreases marked.len(),
{
    if marked.len() == 0 {
        Seq::empty()
    } else if marked.last() != 0 {
        marked_of(marked.drop_last()).push((marked.len() - 1) as i32)
    } else {
        marked_of(marked.drop_last())
    }
}

/// The ranks whose mark is set, ascending.
pub fn marked_ranks(marked: &[i32]) -> (r: Vec<i32>)
    requires
        marked@.len() <= i32::MAX,
    ensures
        r@ == marked_of(marked@),
{
    let mut ranks: Vec<i32> = Vec::new();
    let mut rank: usize = 0;
    while rank < marked.len()
        invariant
            rank <= marked@.len() <= i32::MAX,
            ranks@ == marked_of(marked@.take(rank as int)),
        decreases marked@.len() - rank,
    {
        assert(marked@.take(rank + 1).drop_last() =~= marked@.take(rank as int));
        if marked[rank] != 0 {
            ranks.push(rank as i32);
        }
        rank = rank + 1;
    }
    assert(marked@.take(rank as int) =~= marked@);
    ranks
}

/// A rank is listed exactly if its mark is set, and ranks are listed in ascending
/// order, each once.
pub proof fn marked_ranks_ascend(marked: Seq<i32>, j: int, k: int, rank: i32)
    requires
        marked.len() <= i32::MAX,
        0 <= j < k < marked_of(marked).len(),
    ensures
        0 <= marked_of(marked)[j] < marked_of(marked)[k] < marked.len(),
        marked_of(marked).contains(rank) <==> 0 <= rank < marked.len() && marked[rank as int] != 0,
    decreases marked.len(),
{
    marked_rank_is_listed(marked, rank);
    let rest: Seq<i32> = marked.drop_last();
    if k < marked_of(rest).len() {
        marked_ranks_ascend(rest, j, k, rank);
    } else {
        marked_rank_is_listed(rest, marked_of(rest)[j]);
    }
}

/// A rank is listed exactly if its mark is set.
pub proof fn marked_rank_is_listed(marked: Seq<i32>, rank: i32)
    requires
        marked.len() <= i32::MAX,
    ensures
        marked_of(marked).contains(rank) <==> 0 <= rank < marked.len() && marked[rank as int] != 0,
    decreases marked.len(),
{
    if marked.len() > 0 {
        let rest: Seq<i32> = marked.drop_last();
        let sub: Seq<i32> = marked_of(rest);
        let last: i32 = (marked.len() - 1) as i32;
        marked_rank_is_listed(rest, rank);
        if marked.last() != 0 {
            let all: Seq<i32> = sub.push(last);
            assert(all[sub.len() as int] == last);
            if sub.contains(rank) {
                let i: int = choose|i: int| 0 <= i < sub.len() && sub[i] == rank;
                assert(all[i] == rank);
            }
            if all.contains(rank) && rank != last {
                let i: int = choose|i: int| 0 <= i < all.len() && all[i] == rank;
                assert(sub[i] == rank);
            }
        }
    }
}

/// Layout of a forest of octrees over a Cartesian box: a brick of root trees,
/// mapped onto the box.
#[derive(Debug, Clone, Copy)]
pub struct ForestLayout<S> {
    /// Root trees along x.
    pub trees_x: i32,
    /// Root trees along y.
    pub trees_y: i32,
    /// Root trees along z.
    pub trees_z: i32,
    /// Low x of the box.
    pub xmin: S,
    /// High x of the box.
    pub xmax: S,
    /// Low y of the box.
    pub ymin: S,
    /// High y of the box.
    pub ymax: S,
    /// Low z of the box.
    pub zmin: S,
    /// High z of the box.
    pub zmax: S,
    /// Level of the leaves of a new forest.
    pub min_level: i32,
}

/// The edge length of one of `trees` root trees between `lo` and `hi`.
pub open spec fn tree_edge<S: Scalar>(lo: S, hi: S, trees: i32) -> S {
    hi.minus_spec(lo).over_spec(S::count_spec(trees as int))
}

impl<S: Scalar> ForestLayout<S> {
    /// Per-tree edge length along each axis. Cells are cubic where all three are
    /// equal.
    pub fn tree_extent(&self) -> (r: [S; 3])
        ensures
            r@ == seq![
                tree_edge(self.xmin, self.xmax, self.trees_x),
                tree_edge(self.ymin, self.ymax, self.trees_y),
                tree_edge(self.zmin, self.zmax, self.trees_z),
            ],
    {
        let r: [S; 3] = [
            self.xmax.minus(self.xmin).over(S::from_signed(self.trees_x as i64)),
            self.ymax.minus(self.ymin).over(S::from_signed(self.trees_y as i64)),
            self.zmax.minus(self.zmin).over(S::from_signed(self.trees_z as i64)),
        ];
        assert(r@ =~= seq![
            tree_edge(self.xmin, self.xmax, self.trees_x),
            tree_edge(self.ymin, self.ymax, self.trees_y),
            tree_edge(self.zmin, self.zmax, self.trees_z),
        ]);
        r
    }

    /// Number of root trees in the brick.
    pub open spec fn tree_count(&self) -> int {
        self.trees_x * self.trees_y * self.trees_z
    }

    /// Number of root trees in the brick.
    pub fn n_trees(&self) -> (r: i64)
        requires
            i64::MIN <= self.tree_count() <= i64::MAX,
        ensures
            r == self.tree_count(),
    {
        let x: i64 = self.trees_x as i64;
        let y: i64 = self.trees_y as i64;
        let z: i64 = self.trees_z as i64;
        proof {
            assert(-0x4000_0000_0000_0000 <= x * y <= 0x4000_0000_0000_0000) by (nonlinear_arith)
                requires
                    -0x8000_0000 <= x <= 0x7fff_ffff,
                    -0x8000_0000 <= y <= 0x7fff_ffff,
            ;
        }
        x * y * z
    }

    /// Cell count of the forest if every tree were refined to `level`: eight times
    /// as many with each level.
    pub fn uniform_count_at_level(&self, level: i32) -> (r: u64)
        requires
            0 <= level <= 21,
            0 <= self.tree_count() <= i64::MAX,
            pow2(3 * level as nat) * self.tree_count() <= u64::MAX,
        ensures
            r == pow2(3 * level as nat) * self.tree_count(),
    {
        let shift: u64 = 3 * level as u64;
        proof {
            pow2_is_small(shift as nat);
            lemma_u64_shl_is_mul(1u64, shift);
        }
        let cells_per_tree: u64 = 1u64 << shift;
        let trees: i64 = self.n_trees();
        cells_per_tree * (trees as u64)
    }
}

/// A power of two with an exponent below 64 is a 64-bit number.
proof fn pow2_is_small(e: nat)
    requires
        e < 64,
    ensures
        pow2(e) <= u64::MAX,
{
    lemma2_to64();
    vstd::arithmetic::power2::lemma_pow2_strictly_increases(e, 64);
    assert(pow2(64) == 0x1_0000_0000_0000_0000);
}

/// The root trees fill the box: as many tree edges as there are trees along an axis
/// make up its length, where the length divides evenly.
pub proof fn trees_fill_the_box<S: Scalar>(lo: S, hi: S, trees: i32)
    requires
        is_ring::<S>(),
        ({
            let n: S = S::count_spec(trees as int);
            n.times_spec(hi.minus_spec(lo).over_spec(n)) == hi.minus_spec(lo)
        }),
    ensures
        lo.plus_spec(S::count_spec(trees as int).times_spec(tree_edge(lo, hi, trees))) == hi,
{
    minus_restores(hi, lo);
    plus_commutes(hi.minus_spec(lo), lo);
}

/// Each level of refinement multiplies the uniform cell count by eight.
pub proof fn uniform_count_grows_eightfold<S: Scalar>(layout: ForestLayout<S>, level: nat)
    ensures
        pow2(3 * (level + 1)) * layout.tree_count() == 8 * (pow2(3 * level) * layout.tree_count()),
{
    lemma_pow2_adds(3 * level, 3);
    lemma2_to64();
    assert(pow2(3) == 8);
    let a: int = pow2(3 * level) as int;
    let t: int = layout.tree_count();
    assert((a * 8) * t == 8 * (a * t)) by (nonlinear_arith);
}

/// Neighbor cell indices across one of a cell's six axis faces: none, one, or four
/// on the finer side.
#[derive(Debug, Clone, Copy)]
pub struct DirNeighbors {
    /// The indices, in the first `n` entries.
    pub idx: [usize; 4],
    /// How many there are.
    pub n: u8,
}

impl DirNeighbors {
    /// No more indices than there is room for.
    pub open spec fn valid(&self) -> bool {
        self.n <= 4
    }

    /// The indices.
    pub open spec fn list(&self) -> Seq<usize> {
        self.idx@.take(self.n as int)
    }

    /// No neighbors.
    pub fn none() -> (r: Self)
        ensures
            r.valid(),
            r.list() == Seq::<usize>::empty(),
    {
        let r: DirNeighbors = DirNeighbors { idx: [0, 0, 0, 0], n: 0 };
        assert(r.list() =~= Seq::<usize>::empty());
        r
    }

    /// One neighbor.
    pub fn one(i: usize) -> (r: Self)
        ensures
            r.valid(),
            r.list() == seq![i],
    {
        let r: DirNeighbors = DirNeighbors { idx: [i, 0, 0, 0], n: 1 };
        assert(r.list() =~= seq![i]);
        r
    }

    /// Four neighbors.
    pub fn four(v: [usize; 4]) -> (r: Self)
        ensures
            r.valid(),
            r.list() == v@,
    {
        let r: DirNeighbors = DirNeighbors { idx: v, n: 4 };
        assert(r.list() =~= v@);
        r
    }

    /// The indices as a slice.
    pub fn as_slice(&self) -> (r: &[usize])
        requires
            self.valid(),
        ensures
            r@ == self.list(),
    {
        let all: &[usize] = self.idx.as_slice();
        let r: &[usize] = vstd::slice::slice_subrange(all, 0, self.n as usize);
        assert(r@ =~= self.list());
        r
    }
}

impl Default for DirNeighbors {
    fn default() -> (r: Self)
        ensures
            r.valid(),
            r.list() == Seq::<usize>::empty(),
    {
        DirNeighbors::none()
    }
}

} // verus!
