//! Spatial ownership directory for coupling packages.
//!
//! The directory says which rank owns a point, or which ranks overlap a spatial
//! support. It does not choose what data to exchange or how to interpolate it.

use crate::decomposition::partition_span;
use crate::decomposition::rank_at;
use crate::decomposition::shape_of;
use crate::decomposition::span_count;
use crate::decomposition::span_is_inside;
use crate::decomposition::span_start;
use crate::decomposition::spans_are_balanced;
use crate::decomposition::spans_ascend;
use crate::decomposition::spans_tile_the_axis;
use crate::decomposition::volume;
use crate::grid::axis_edges;
use crate::grid::local_edge;
use crate::index::first_of;
use crate::index::flat;
use crate::index::flat_is_inside;
use crate::index::flat_joins;
use crate::index::flat_splits;
use crate::index::flat_steps;
use crate::index::second_of;
use crate::index::third_of;
use crate::mesh::Vec3;
use crate::scalar::Scalar;
use crate::scalar::is_ordered;
use crate::uniform::Domain;
use crate::uniform::UniformMeshConfig;
use crate::uniform::build_global_edges;
use vstd::prelude::*;

verus! {

// ---------------------------------------------------------------------------
// Boxes.
// ---------------------------------------------------------------------------

/// Axis-aligned bounds in physical coordinates.
#[derive(Debug, Clone, Copy, PartialEq)]
pub struct Bounds3<S> {
    /// Lower corner.
    pub lo: Vec3<S>,
    /// Upper corner.
    pub hi: Vec3<S>,
}

/// The lower corner is nowhere above the upper one.
pub open spec fn is_box<S: Scalar>(lo: Vec3<S>, hi: Vec3<S>) -> bool {
    &&& lo[0].at_most_spec(hi[0])
    &&& lo[1].at_most_spec(hi[1])
    &&& lo[2].at_most_spec(hi[2])
}

/// Two boxes share a stretch of `axis` of positive length.
pub open spec fn overlap_along<S: Scalar>(a: Bounds3<S>, b: Bounds3<S>, axis: int) -> bool {
    a.lo[axis].less_spec(b.hi[axis]) && b.lo[axis].less_spec(a.hi[axis])
}

/// Two boxes share a positive volume.
pub open spec fn overlap<S: Scalar>(a: Bounds3<S>, b: Bounds3<S>) -> bool {
    overlap_along(a, b, 0) && overlap_along(a, b, 1) && overlap_along(a, b, 2)
}

impl<S: Scalar> Bounds3<S> {
    /// Bounds from a lower and an upper corner.
    pub fn new(lo: Vec3<S>, hi: Vec3<S>) -> (r: Self)
        requires
            is_box(lo, hi),
        ensures
            r == (Bounds3 { lo, hi }),
    {
        Bounds3 { lo, hi }
    }

    /// Whether two boxes share a positive volume.
    fn has_positive_overlap(self, other: Self) -> (r: bool)
        ensures
            r == overlap(self, other),
    {
        self.lo[0].less(other.hi[0]) && other.lo[0].less(self.hi[0]) && self.lo[1].less(
            other.hi[1],
        ) && other.lo[1].less(self.hi[1]) && self.lo[2].less(other.hi[2]) && other.lo[2].less(
            self.hi[2],
        )
    }
}

/// One owned spatial extent of one rank.
#[derive(Debug, Clone, Copy, PartialEq)]
pub struct PartitionExtent<S> {
    /// The owning rank.
    pub role_rank: i32,
    /// Owned physical bounds.
    pub bounds: Bounds3<S>,
}

// ---------------------------------------------------------------------------
// Ownership of points and supports.
// ---------------------------------------------------------------------------

/// `x` lies within `[lo, hi)`, or within `[lo, hi]` where `hi` is the global end.
pub open spec fn within<S: Scalar>(lo: S, hi: S, global_hi: S, x: S) -> bool {
    &&& lo.at_most_spec(x)
    &&& x.less_spec(hi) || (hi.equals_spec(global_hi) && x.at_most_spec(hi))
}

/// `x` lies within the global bounds.
pub open spec fn in_domain<S: Scalar>(global: Bounds3<S>, point: Vec3<S>) -> bool {
    &&& global.lo[0].at_most_spec(point[0]) && point[0].at_most_spec(global.hi[0])
    &&& global.lo[1].at_most_spec(point[1]) && point[1].at_most_spec(global.hi[1])
    &&& global.lo[2].at_most_spec(point[2]) && point[2].at_most_spec(global.hi[2])
}

/// The extent holds the point: half-open along every axis, closed at the global
/// high boundary.
pub open spec fn holds<S: Scalar>(
    global: Bounds3<S>,
    extent: PartitionExtent<S>,
    point: Vec3<S>,
) -> bool {
    let b: Bounds3<S> = extent.bounds;
    &&& within(b.lo[0], b.hi[0], global.hi[0], point[0])
    &&& within(b.lo[1], b.hi[1], global.hi[1], point[1])
    &&& within(b.lo[2], b.hi[2], global.hi[2], point[2])
}

/// The rank of the first extent from number `from` on that holds the point.
pub open spec fn first_holder<S: Scalar>(
    global: Bounds3<S>,
    extents: Seq<PartitionExtent<S>>,
    point: Vec3<S>,
    from: int,
) -> Option<i32>
    decreases extents.len() - from,
{
    if from >= extents.len() {
        None
    } else if holds(global, extents[from], point) {
        Some(extents[from].role_rank)
    } else {
        first_holder(global, extents, point, from + 1)
    }
}

/// The owner of a point.
pub open spec fn owner_of<S: Scalar>(
    global: Bounds3<S>,
    extents: Seq<PartitionExtent<S>>,
    point: Vec3<S>,
) -> Option<i32> {
    if in_domain(global, point) {
        first_holder(global, extents, point, 0)
    } else {
        None
    }
}

/// One of the first `n` extents belongs to `rank` and shares a positive volume
/// with `support`.
pub open spec fn overlaps_upto<S: Scalar>(
    extents: Seq<PartitionExtent<S>>,
    support: Bounds3<S>,
    rank: i32,
    n: int,
) -> bool {
    exists|i: int|
        0 <= i < n && (#[trigger] extents[i]).role_rank == rank && overlap(
            extents[i].bounds,
            support,
        )
}

/// The support has no volume: along some axis its corners coincide.
pub open spec fn has_no_volume<S: Scalar>(support: Bounds3<S>) -> bool {
    ||| support.lo[0].equals_spec(support.hi[0])
    ||| support.lo[1].equals_spec(support.hi[1])
    ||| support.lo[2].equals_spec(support.hi[2])
}

/// Strictly ascending.
pub open spec fn ascends(s: Seq<i32>) -> bool {
    forall|i: int, j: int| 0 <= i < j < s.len() ==> s[i] < s[j]
}

/// Insert `x` into a strictly ascending list, unless it is there.
fn insert_sorted(list: &mut Vec<i32>, x: i32)
    requires
        ascends(old(list)@),
    ensures
        ascends(final(list)@),
        forall|y: i32| #[trigger]
            final(list)@.contains(y) <==> old(list)@.contains(y) || y == x,
{
    let mut i: usize = 0;
    while i < list.len() && list[i] < x
        invariant
            list@ == old(list)@,
            ascends(list@),
            i <= list@.len(),
            forall|j: int| 0 <= j < i ==> #[trigger] list@[j] < x,
        decreases list@.len() - i,
    {
        i = i + 1;
    }
    let ghost before: Seq<i32> = list@;
    if i < list.len() && list[i] == x {
        assert(before[i as int] == x);
    } else {
        list.insert(i, x);
        proof {
            let after: Seq<i32> = list@;
            assert(after == before.insert(i as int, x));
            assert forall|y: i32| #[trigger] after.contains(y) <==> before.contains(y) || y
                == x by {
                if before.contains(y) {
                    let j: int = choose|j: int| 0 <= j < before.len() && before[j] == y;
                    if j < i {
                        assert(after[j] == y);
                    } else {
                        assert(after[j + 1] == y);
                    }
                }
                if y == x {
                    assert(after[i as int] == y);
                }
                if after.contains(y) {
                    let j: int = choose|j: int| 0 <= j < after.len() && after[j] == y;
                    if j < i {
                        assert(before[j] == y);
                    } else if j > i {
                        assert(before[j - 1] == y);
                    }
                }
            }
        }
    }
}

// ---------------------------------------------------------------------------
// The directory of a split structured grid.
// ---------------------------------------------------------------------------

/// The cell edges of a domain along `axis`.
pub open spec fn domain_edges<S: Scalar>(d: Domain<S>, axis: int) -> Seq<S> {
    if axis == 0 {
        axis_edges(None, d.nx as int, d.lo[0], d.hi[0])
    } else if axis == 1 {
        d.all_y_edges()
    } else {
        d.all_z_edges()
    }
}

/// The edge at which part `p` of `parts` starts along `axis`.
pub open spec fn part_lo<S: Scalar>(d: Domain<S>, decomp: Seq<int>, axis: int, p: int) -> S {
    domain_edges(d, axis)[span_start(d.counts()[axis], decomp[axis], p)]
}

/// The edge at which part `p` of `parts` ends along `axis`.
pub open spec fn part_hi<S: Scalar>(d: Domain<S>, decomp: Seq<int>, axis: int, p: int) -> S {
    domain_edges(d, axis)[span_start(d.counts()[axis], decomp[axis], p) + span_count(
        d.counts()[axis],
        decomp[axis],
        p,
    )]
}

/// The extent of the rank at position `(px, py, pz)` of the process grid.
pub open spec fn extent_at<S: Scalar>(
    d: Domain<S>,
    decomp: Seq<int>,
    px: int,
    py: int,
    pz: int,
) -> PartitionExtent<S> {
    PartitionExtent {
        role_rank: rank_at(px, py, pz, decomp[1], decomp[2]) as i32,
        bounds: Bounds3 {
            lo: [
                part_lo(d, decomp, 0, px),
                part_lo(d, decomp, 1, py),
                part_lo(d, decomp, 2, pz),
            ],
            hi: [
                part_hi(d, decomp, 0, px),
                part_hi(d, decomp, 1, py),
                part_hi(d, decomp, 2, pz),
            ],
        },
    }
}

/// The extents of all ranks, in rank order.
pub open spec fn all_extents<S: Scalar>(d: Domain<S>, decomp: Seq<int>) -> Seq<
    PartitionExtent<S>,
> {
    Seq::new(
        volume(decomp) as nat,
        |q: int|
            extent_at(
                d,
                decomp,
                first_of(q, decomp[1], decomp[2]),
                second_of(q, decomp[1], decomp[2]),
                third_of(q, decomp[2]),
            ),
    )
}

/// The process grid splits the domain into parts that all have cells, and its
/// ranks can be numbered.
pub open spec fn splits<S: Scalar>(d: Domain<S>, decomp: Seq<int>) -> bool {
    &&& 0 < decomp[0] <= d.nx
    &&& 0 < decomp[1] <= d.ny
    &&& 0 < decomp[2] <= d.nz
    &&& volume(decomp) <= i32::MAX
}

/// The bounds of every part and of the domain are boxes.
pub open spec fn has_boxes<S: Scalar>(d: Domain<S>, decomp: Seq<int>) -> bool {
    &&& is_box(d.lo, d.hi)
    &&& forall|q: int|
        0 <= q < volume(decomp) ==> is_box(
            (#[trigger] all_extents(d, decomp)[q]).bounds.lo,
            all_extents(d, decomp)[q].bounds.hi,
        )
}

/// Evenly spaced cell edges of an axis.
fn uniform_edges<S: Scalar>(n: usize, lo: S, hi: S) -> (r: Vec<S>)
    requires
        n < usize::MAX,
    ensures
        r@ == axis_edges(None, n as int, lo, hi),
{
    let none: Option<Vec<S>> = None;
    build_global_edges(n, lo, hi, &none)
}

/// The edges at which a part starts and ends along an axis.
fn part_edges<S: Scalar>(
    edges: &Vec<S>,
    n: usize,
    parts: i32,
    p: i32,
) -> (r: (S, S))
    requires
        edges@.len() == n + 1,
        0 <= p < parts <= n,
    ensures
        r.0 == edges@[span_start(n as int, parts as int, p as int)],
        r.1 == edges@[span_start(n as int, parts as int, p as int) + span_count(
            n as int,
            parts as int,
            p as int,
        )],
{
    proof {
        span_is_inside(n as int, parts as int, p as int);
    }
    let (offset, count): (usize, usize) = partition_span(n, parts as usize, p as usize);
    (edges[offset], edges[offset + count])
}

/// Searchable directory of rank ownership.
///
/// A rank may own several extents, which accommodates adaptive forests and
/// disconnected partitions.
#[derive(Debug, Clone, PartialEq)]
pub struct PartitionDirectory<S> {
    role_size: i32,
    global: Bounds3<S>,
    extents: Vec<PartitionExtent<S>>,
}

impl<S: Scalar> PartitionDirectory<S> {
    /// Number of ranks.
    pub closed spec fn size(&self) -> int {
        self.role_size as int
    }

    /// The bounds of the domain.
    pub closed spec fn domain(&self) -> Bounds3<S> {
        self.global
    }

    /// The recorded extents.
    pub closed spec fn list(&self) -> Seq<PartitionExtent<S>> {
        self.extents@
    }

    /// There are ranks, and every extent belongs to one of them.
    pub open spec fn valid(&self) -> bool {
        &&& self.size() > 0
        &&& forall|i: int|
            0 <= i < self.list().len() ==> 0 <= (#[trigger] self.list()[i]).role_rank < self.size()
    }

    /// Build a directory from explicit rank extents.
    pub fn new(role_size: i32, global: Bounds3<S>, extents: Vec<PartitionExtent<S>>) -> (r: Self)
        requires
            role_size > 0,
            forall|i: int|
                0 <= i < extents@.len() ==> 0 <= (#[trigger] extents@[i]).role_rank < role_size,
        ensures
            r.valid(),
            r.size() == role_size,
            r.domain() == global,
            r.list() == extents@,
    {
        PartitionDirectory { role_size, global, extents }
    }

    /// Construct the exact Cartesian ownership directory used by
    /// [`crate::uniform::UniformMesh::from_config_decomposed`].
    pub fn from_uniform_config(cfg: &UniformMeshConfig<S>, decomp: [i32; 3]) -> (r: Self)
        requires
            splits(cfg@, shape_of(decomp)),
            has_boxes(cfg@, shape_of(decomp)),
            cfg@.edges_match(),
            cfg.nx < usize::MAX,
            cfg.ny < usize::MAX,
            cfg.nz < usize::MAX,
        ensures
            r.valid(),
            r.size() == volume(shape_of(decomp)),
            r.domain() == (Bounds3 { lo: cfg.bounds_lo, hi: cfg.bounds_hi }),
            r.list() == all_extents(cfg@, shape_of(decomp)),
    {
        let ghost d: Domain<S> = cfg@;
        let ghost s: Seq<int> = shape_of(decomp);
        let ghost want: Seq<PartitionExtent<S>> = all_extents(d, s);
        let x_edges: Vec<S> = uniform_edges(cfg.nx, cfg.bounds_lo[0], cfg.bounds_hi[0]);
        let y_edges: Vec<S> = build_global_edges(
            cfg.ny,
            cfg.bounds_lo[1],
            cfg.bounds_hi[1],
            &cfg.y_edges,
        );
        let z_edges: Vec<S> = build_global_edges(
            cfg.nz,
            cfg.bounds_lo[2],
            cfg.bounds_hi[2],
            &cfg.z_edges,
        );
        let (nx, ny, nz): (i32, i32, i32) = (decomp[0], decomp[1], decomp[2]);
        proof {
            assert(s[0] == nx && s[1] == ny && s[2] == nz);
            flat_is_inside(0, 0, 0, nx as int, ny as int, nz as int);
            flat_steps(0, 0, 0, ny as int, nz as int);
            assert(nx * ny >= 1 && ny * nz >= 1 && ny * nz <= nx * ny * nz) by (nonlinear_arith)
                requires
                    nx >= 1,
                    ny >= 1,
                    nz >= 1,
            ;
        }
        let size: i32 = nx * ny * nz;
        let mut extents: Vec<PartitionExtent<S>> = Vec::new();
        let mut px: i32 = 0;
        while px < nx
            invariant
                d == cfg@,
                s == shape_of(decomp),
                s[0] == nx && s[1] == ny && s[2] == nz,
                0 < nx <= cfg.nx && 0 < ny <= cfg.ny && 0 < nz <= cfg.nz,
                size == nx * ny * nz,
                ny * nz <= i32::MAX,
                x_edges@ == domain_edges(d, 0) && x_edges@.len() == cfg.nx + 1,
                y_edges@ == domain_edges(d, 1) && y_edges@.len() == cfg.ny + 1,
                z_edges@ == domain_edges(d, 2) && z_edges@.len() == cfg.nz + 1,
                want == all_extents(d, s),
                has_boxes(d, s),
                0 <= px <= nx,
                extents@ == want.take(flat(px as int, 0, 0, ny as int, nz as int)),
            decreases nx - px,
        {
            let mut py: i32 = 0;
            while py < ny
                invariant
                    d == cfg@,
                    s == shape_of(decomp),
                    s[0] == nx && s[1] == ny && s[2] == nz,
                    0 < nx <= cfg.nx && 0 < ny <= cfg.ny && 0 < nz <= cfg.nz,
                    size == nx * ny * nz,
                    ny * nz <= i32::MAX,
                    x_edges@ == domain_edges(d, 0) && x_edges@.len() == cfg.nx + 1,
                    y_edges@ == domain_edges(d, 1) && y_edges@.len() == cfg.ny + 1,
                    z_edges@ == domain_edges(d, 2) && z_edges@.len() == cfg.nz + 1,
                    want == all_extents(d, s),
                    has_boxes(d, s),
                    0 <= px < nx,
                    0 <= py <= ny,
                    extents@ == want.take(flat(px as int, py as int, 0, ny as int, nz as int)),
                decreases ny - py,
            {
                let mut pz: i32 = 0;
                while pz < nz
                    invariant
                        d == cfg@,
                        s == shape_of(decomp),
                        s[0] == nx && s[1] == ny && s[2] == nz,
                        0 < nx <= cfg.nx && 0 < ny <= cfg.ny && 0 < nz <= cfg.nz,
                        size == nx * ny * nz,
                        ny * nz <= i32::MAX,
                        x_edges@ == domain_edges(d, 0) && x_edges@.len() == cfg.nx + 1,
                        y_edges@ == domain_edges(d, 1) && y_edges@.len() == cfg.ny + 1,
                        z_edges@ == domain_edges(d, 2) && z_edges@.len() == cfg.nz + 1,
                        want == all_extents(d, s),
                        has_boxes(d, s),
                        0 <= px < nx,
                        0 <= py < ny,
                        0 <= pz <= nz,
                        extents@ == want.take(
                            flat(px as int, py as int, pz as int, ny as int, nz as int),
                        ),
                    decreases nz - pz,
                {
                    let ghost q: int = flat(px as int, py as int, pz as int, ny as int, nz as int);
                    proof {
                        flat_is_inside(
                            px as int,
                            py as int,
                            pz as int,
                            nx as int,
                            ny as int,
                            nz as int,
                        );
                        flat_splits(px as int, py as int, pz as int, ny as int, nz as int);
                        flat_steps(px as int, py as int, pz as int, ny as int, nz as int);
                        rank_is_flat(px as int, py as int, pz as int, ny as int, nz as int);
                        assert(want[q] == extent_at(d, s, px as int, py as int, pz as int));
                    }
                    let (x_lo, x_hi): (S, S) = part_edges(&x_edges, cfg.nx, nx, px);
                    let (y_lo, y_hi): (S, S) = part_edges(&y_edges, cfg.ny, ny, py);
                    let (z_lo, z_hi): (S, S) = part_edges(&z_edges, cfg.nz, nz, pz);
                    let role_rank: i32 = px * (ny * nz) + py * nz + pz;
                    let lo: Vec3<S> = [x_lo, y_lo, z_lo];
                    let hi: Vec3<S> = [x_hi, y_hi, z_hi];
                    proof {
                        assert(want[q].bounds.lo == lo);
                        assert(want[q].bounds.hi == hi);
                        assert(is_box(want[q].bounds.lo, want[q].bounds.hi));
                    }
                    extents.push(PartitionExtent { role_rank, bounds: Bounds3::new(lo, hi) });
                    assert(want.take(q + 1) =~= want.take(q).push(want[q]));
                    pz = pz + 1;
                }
                proof {
                    flat_steps(px as int, py as int, 0, ny as int, nz as int);
                }
                py = py + 1;
            }
            proof {
                flat_steps(px as int, 0, 0, ny as int, nz as int);
            }
            px = px + 1;
        }
        proof {
            assert(flat(nx as int, 0, 0, ny as int, nz as int) == size);
            assert(want.take(size as int) =~= want);
            assert forall|i: int| 0 <= i < extents@.len() implies 0 <= (
            #[trigger] extents@[i]).role_rank < size by {
                ranks_follow_the_list(d, s, i);
            }
        }
        PartitionDirectory::new(size, Bounds3::new(cfg.bounds_lo, cfg.bounds_hi), extents)
    }

    /// Number of ranks.
    pub fn role_size(&self) -> (r: i32)
        ensures
            r == self.size(),
    {
        self.role_size
    }

    /// All recorded extents in deterministic construction order.
    pub fn extents(&self) -> (r: &[PartitionExtent<S>])
        ensures
            r@ == self.list(),
    {
        self.extents.as_slice()
    }

    /// Unique owner of a point under half-open partition semantics. Shared
    /// internal boundaries belong to the high-side partition; the global high
    /// boundary remains inside the domain.
    pub fn owner_rank(&self, point: Vec3<S>) -> (r: Option<i32>)
        ensures
            r == owner_of(self.domain(), self.list(), point),
    {
        let g: Bounds3<S> = self.global;
        let inside: bool = g.lo[0].at_most(point[0]) && point[0].at_most(g.hi[0])
            && g.lo[1].at_most(point[1]) && point[1].at_most(g.hi[1]) && g.lo[2].at_most(point[2])
            && point[2].at_most(g.hi[2]);
        if !inside {
            return None;
        }
        let mut i: usize = 0;
        while i < self.extents.len()
            invariant
                g == self.domain(),
                in_domain(g, point),
                i <= self.extents@.len(),
                first_holder(g, self.list(), point, i as int) == owner_of(
                    self.domain(),
                    self.list(),
                    point,
                ),
            decreases self.extents@.len() - i,
        {
            let b: Bounds3<S> = self.extents[i].bounds;
            if Self::is_within(b.lo[0], b.hi[0], g.hi[0], point[0]) && Self::is_within(
                b.lo[1],
                b.hi[1],
                g.hi[1],
                point[1],
            ) && Self::is_within(b.lo[2], b.hi[2], g.hi[2], point[2]) {
                return Some(self.extents[i].role_rank);
            }
            i = i + 1;
        }
        None
    }

    /// Whether `x` lies within `[lo, hi)`, or within `[lo, hi]` at the global end.
    fn is_within(lo: S, hi: S, global_hi: S, x: S) -> (r: bool)
        ensures
            r == within(lo, hi, global_hi, x),
    {
        lo.at_most(x) && (x.less(hi) || (hi.equals(global_hi) && x.at_most(hi)))
    }

    /// Sorted, deduplicated ranks with positive-volume overlap with `support`. A
    /// zero-volume support is treated as a point ownership query at its lower corner.
    pub fn overlapping_ranks(&self, support: Bounds3<S>) -> (r: Vec<i32>)
        ensures
            ascends(r@),
            has_no_volume(support) ==> r@ == (match owner_of(
                self.domain(),
                self.list(),
                support.lo,
            ) {
                Some(rank) => seq![rank],
                None => Seq::empty(),
            }),
            !has_no_volume(support) ==> forall|rank: i32| #[trigger]
                r@.contains(rank) <==> overlaps_upto(
                    self.list(),
                    support,
                    rank,
                    self.list().len() as int,
                ),
    {
        let mut ranks: Vec<i32> = Vec::new();
        if support.lo[0].equals(support.hi[0]) || support.lo[1].equals(support.hi[1])
            || support.lo[2].equals(support.hi[2]) {
            let owner: Option<i32> = self.owner_rank(support.lo);
            if let Some(rank) = owner {
                ranks.push(rank);
                assert(ranks@ =~= seq![rank]);
            }
            return ranks;
        }
        let mut i: usize = 0;
        while i < self.extents.len()
            invariant
                i <= self.extents@.len(),
                ascends(ranks@),
                forall|rank: i32| #[trigger]
                    ranks@.contains(rank) <==> overlaps_upto(
                        self.list(),
                        support,
                        rank,
                        i as int,
                    ),
            decreases self.extents@.len() - i,
        {
            let extent: PartitionExtent<S> = self.extents[i];
            let ghost before: Seq<i32> = ranks@;
            let meets: bool = extent.bounds.has_positive_overlap(support);
            if meets {
                insert_sorted(&mut ranks, extent.role_rank);
            }
            proof {
                let list: Seq<PartitionExtent<S>> = self.list();
                assert(list[i as int] == extent);
                assert forall|rank: i32| #[trigger] ranks@.contains(rank) <==> overlaps_upto(
                    list,
                    support,
                    rank,
                    i + 1,
                ) by {
                    assert(before.contains(rank) <==> overlaps_upto(
                        list,
                        support,
                        rank,
                        i as int,
                    ));
                    if overlaps_upto(list, support, rank, i as int) {
                        let j: int = choose|j: int|
                            0 <= j < i && (#[trigger] list[j]).role_rank == rank && overlap(
                                list[j].bounds,
                                support,
                            );
                        assert(0 <= j < i + 1 && list[j].role_rank == rank);
                    }
                    if overlaps_upto(list, support, rank, i + 1) {
                        let j: int = choose|j: int|
                            0 <= j < i + 1 && (#[trigger] list[j]).role_rank == rank && overlap(
                                list[j].bounds,
                                support,
                            );
                        if j < i {
                            assert(0 <= j < i && list[j].role_rank == rank);
                        }
                    }
                }
            }
            i = i + 1;
        }
        ranks
    }
}

// ---------------------------------------------------------------------------
// Laws.
// ---------------------------------------------------------------------------

/// The rank of a position is its place in the list of positions.
pub proof fn rank_is_flat(px: int, py: int, pz: int, ny: int, nz: int)
    requires
        0 <= px,
        0 <= py,
        0 <= pz,
        0 < ny,
        0 < nz,
    ensures
        rank_at(px, py, pz, ny, nz) == flat(px, py, pz, ny, nz),
        0 <= px * (ny * nz),
        0 <= py * nz,
{
    assert(px * (ny * nz) + py * nz == (px * ny + py) * nz) by (nonlinear_arith);
    assert(0 <= ny * nz) by (nonlinear_arith)
        requires
            0 < ny,
            0 < nz,
    ;
    assert(0 <= px * (ny * nz)) by (nonlinear_arith)
        requires
            0 <= px,
            0 <= ny * nz,
    ;
    assert(0 <= py * nz) by (nonlinear_arith)
        requires
            0 <= py,
            0 < nz,
    ;
}

/// Extent number `q` of a split grid belongs to rank `q`.
pub proof fn ranks_follow_the_list<S: Scalar>(d: Domain<S>, decomp: Seq<int>, q: int)
    requires
        splits(d, decomp),
        0 <= q < volume(decomp),
    ensures
        all_extents(d, decomp)[q].role_rank == q,
{
    flat_joins(q, decomp[0], decomp[1], decomp[2]);
    rank_is_flat(
        first_of(q, decomp[1], decomp[2]),
        second_of(q, decomp[1], decomp[2]),
        third_of(q, decomp[2]),
        decomp[1],
        decomp[2],
    );
}

/// Along every axis, each part of a split grid ends at the edge at which the next
/// one starts; the first starts at the first edge and the last ends at the last.
pub proof fn parts_lie_end_to_end<S: Scalar>(d: Domain<S>, decomp: Seq<int>, axis: int, p: int)
    requires
        splits(d, decomp),
        0 <= axis < 3,
        0 <= p < decomp[axis],
    ensures
        p + 1 < decomp[axis] ==> part_hi(d, decomp, axis, p) == part_lo(d, decomp, axis, p + 1),
        part_lo(d, decomp, axis, 0) == domain_edges(d, axis)[0],
        part_hi(d, decomp, axis, decomp[axis] - 1) == domain_edges(d, axis)[d.counts()[axis]],
{
    let n: int = d.counts()[axis];
    spans_tile_the_axis(n, decomp[axis]);
    assert(span_start(n, decomp[axis], p + 1) == span_start(n, decomp[axis], p) + span_count(
        n,
        decomp[axis],
        p,
    ));
    let last: int = decomp[axis] - 1;
    assert(span_start(n, decomp[axis], last + 1) == n);
}

/// Evenly spaced edges end at the upper bound of the domain, so the last part does
/// too and its extent is closed there.
pub proof fn even_edges_end_at_the_bound<S: Scalar>(d: Domain<S>, decomp: Seq<int>, axis: int)
    requires
        splits(d, decomp),
        0 <= axis < 3,
        axis == 1 ==> d.y_edges is None,
        axis == 2 ==> d.z_edges is None,
    ensures
        part_hi(d, decomp, axis, decomp[axis] - 1) == d.hi[axis],
{
    parts_lie_end_to_end(d, decomp, axis, 0);
}

/// The extent of a part is bounded, along y and z, by the outermost edges of the
/// cells that the mesh of that part owns.
pub proof fn extents_bound_the_cells<S: Scalar>(
    d: Domain<S>,
    decomp: Seq<int>,
    axis: int,
    p: int,
)
    requires
        splits(d, decomp),
        axis == 1 || axis == 2,
        0 <= p < decomp[axis],
    ensures
        ({
            let first: int = span_start(d.counts()[axis], decomp[axis], p);
            let n: int = span_count(d.counts()[axis], decomp[axis], p);
            let ng: int = d.ng as int;
            &&& part_lo(d, decomp, axis, p) == local_edge(domain_edges(d, axis), first, n, ng, ng)
            &&& part_hi(d, decomp, axis, p) == local_edge(
                domain_edges(d, axis),
                first,
                n,
                ng,
                ng + n,
            )
        }),
{
    span_is_inside(d.counts()[axis], decomp[axis], p);
}

/// The edges of an axis ascend, from the lower to the upper bound of the domain.
pub open spec fn spans_domain<S: Scalar>(d: Domain<S>, axis: int) -> bool {
    let e: Seq<S> = domain_edges(d, axis);
    &&& forall|i: int, j: int|
        0 <= i < j < e.len() ==> (#[trigger] e[i]).less_spec(#[trigger] e[j])
    &&& e[0].at_most_spec(d.lo[axis])
    &&& e.last().equals_spec(d.hi[axis])
}

/// Along one axis, exactly one part holds a coordinate within the domain.
proof fn one_part_holds<S: Scalar>(
    d: Domain<S>,
    decomp: Seq<int>,
    axis: int,
    x: S,
) -> (p: int)
    requires
        is_ordered::<S>(),
        splits(d, decomp),
        d.edges_match(),
        0 <= axis < 3,
        spans_domain(d, axis),
        d.lo[axis].at_most_spec(x),
        x.at_most_spec(d.hi[axis]),
    ensures
        0 <= p < decomp[axis],
        within(part_lo(d, decomp, axis, p), part_hi(d, decomp, axis, p), d.hi[axis], x),
        forall|q: int|
            0 <= q < decomp[axis] && #[trigger] within(
                part_lo(d, decomp, axis, q),
                part_hi(d, decomp, axis, q),
                d.hi[axis],
                x,
            ) ==> q == p,
{
    let n: int = d.counts()[axis];
    let parts: int = decomp[axis];
    let e: Seq<S> = domain_edges(d, axis);
    assert(e.len() == n + 1);
    reveal(is_ordered);
    spans_tile_the_axis(n, parts);
    assert(part_lo(d, decomp, axis, 0) == e[0]);
    let p: int = last_part_not_above(d, decomp, axis, x, parts - 1);
    parts_lie_end_to_end(d, decomp, axis, p);
    let (lo, hi): (S, S) = (part_lo(d, decomp, axis, p), part_hi(d, decomp, axis, p));
    if p == parts - 1 {
        assert(hi == e.last());
        assert(hi.equals_spec(d.hi[axis]));
        assert(x.at_most_spec(hi));
    } else {
        assert(x.less_spec(part_lo(d, decomp, axis, p + 1)));
    }
    assert forall|q: int|
        0 <= q < parts && #[trigger] within(
            part_lo(d, decomp, axis, q),
            part_hi(d, decomp, axis, q),
            d.hi[axis],
            x,
        ) implies q == p by {
        if q < p {
            two_parts_do_not_hold(d, decomp, axis, x, q, p);
        } else if p < q {
            two_parts_do_not_hold(d, decomp, axis, x, p, q);
        }
    }
    p
}

/// The last of the parts up to `upto` that starts at or below `x`; the next part
/// starts above it.
proof fn last_part_not_above<S: Scalar>(
    d: Domain<S>,
    decomp: Seq<int>,
    axis: int,
    x: S,
    upto: int,
) -> (p: int)
    requires
        is_ordered::<S>(),
        0 <= upto,
        part_lo(d, decomp, axis, 0).at_most_spec(x),
    ensures
        0 <= p <= upto,
        part_lo(d, decomp, axis, p).at_most_spec(x),
        p < upto ==> x.less_spec(part_lo(d, decomp, axis, p + 1)),
    decreases upto,
{
    reveal(is_ordered);
    if part_lo(d, decomp, axis, upto).at_most_spec(x) {
        upto
    } else {
        let p: int = last_part_not_above(d, decomp, axis, x, upto - 1);
        assert(p == upto - 1 ==> x.less_spec(part_lo(d, decomp, axis, p + 1)));
        p
    }
}

/// A coordinate is not held by two parts.
proof fn two_parts_do_not_hold<S: Scalar>(
    d: Domain<S>,
    decomp: Seq<int>,
    axis: int,
    x: S,
    p: int,
    q: int,
)
    requires
        is_ordered::<S>(),
        splits(d, decomp),
        d.edges_match(),
        0 <= axis < 3,
        spans_domain(d, axis),
        0 <= p < q < decomp[axis],
        within(part_lo(d, decomp, axis, p), part_hi(d, decomp, axis, p), d.hi[axis], x),
    ensures
        !within(part_lo(d, decomp, axis, q), part_hi(d, decomp, axis, q), d.hi[axis], x),
{
    let n: int = d.counts()[axis];
    let parts: int = decomp[axis];
    let e: Seq<S> = domain_edges(d, axis);
    reveal(is_ordered);
    spans_ascend(n, parts, p, q);
    spans_are_balanced(n, parts, q, q);
    span_is_inside(n, parts, p);
    span_is_inside(n, parts, q);
    let end: int = span_start(n, parts, p) + span_count(n, parts, p);
    let start: int = span_start(n, parts, q);
    assert(e.len() == n + 1);
    assert(end <= start < n);
    assert(e[end].less_spec(e[n]));
    if end < start {
        assert(e[end].less_spec(e[start]));
    }
    assert(e[end].at_most_spec(e[start])) by {
        if end == start {
            assert(e[end].at_most_spec(e[end]) || e[end].at_most_spec(e[end]));
        } else {
            assert(e[end].at_most_spec(e[start]) || e[start].at_most_spec(e[end]));
        }
    }
    if within(e[start], part_hi(d, decomp, axis, q), d.hi[axis], x) {
        assert(e[end].at_most_spec(x));
        assert(!x.less_spec(e[end]));
        assert(e[end].equals_spec(d.hi[axis]));
        assert(e[n].equals_spec(d.hi[axis]));
        assert(e[n].at_most_spec(d.hi[axis]) && d.hi[axis].at_most_spec(e[end]));
        assert(e[n].at_most_spec(e[end]));
    }
}

/// Where the comparisons form a total order and the cell edges ascend from one
/// bound of the domain to the other, every point of the domain is held by exactly
/// one extent of the split grid, and the rank of that extent owns it.
pub proof fn every_point_has_one_owner<S: Scalar>(
    d: Domain<S>,
    decomp: Seq<int>,
    point: Vec3<S>,
) -> (q: int)
    requires
        is_ordered::<S>(),
        splits(d, decomp),
        d.edges_match(),
        spans_domain(d, 0),
        spans_domain(d, 1),
        spans_domain(d, 2),
        in_domain(Bounds3 { lo: d.lo, hi: d.hi }, point),
    ensures
        0 <= q < volume(decomp),
        holds(Bounds3 { lo: d.lo, hi: d.hi }, all_extents(d, decomp)[q], point),
        forall|r: int|
            0 <= r < volume(decomp) && #[trigger] holds(
                Bounds3 { lo: d.lo, hi: d.hi },
                all_extents(d, decomp)[r],
                point,
            ) ==> r == q,
        owner_of(Bounds3 { lo: d.lo, hi: d.hi }, all_extents(d, decomp), point) == Some(q as i32),
{
    let g: Bounds3<S> = Bounds3 { lo: d.lo, hi: d.hi };
    let list: Seq<PartitionExtent<S>> = all_extents(d, decomp);
    let px: int = one_part_holds(d, decomp, 0, point[0]);
    let py: int = one_part_holds(d, decomp, 1, point[1]);
    let pz: int = one_part_holds(d, decomp, 2, point[2]);
    let q: int = flat(px, py, pz, decomp[1], decomp[2]);
    flat_is_inside(px, py, pz, decomp[0], decomp[1], decomp[2]);
    flat_splits(px, py, pz, decomp[1], decomp[2]);
    assert(list[q] == extent_at(d, decomp, px, py, pz));
    assert(holds(g, list[q], point));
    assert forall|r: int| 0 <= r < volume(decomp) && #[trigger] holds(g, list[r], point) implies r
        == q by {
        flat_joins(r, decomp[0], decomp[1], decomp[2]);
        let (a, b, c): (int, int, int) = (
            first_of(r, decomp[1], decomp[2]),
            second_of(r, decomp[1], decomp[2]),
            third_of(r, decomp[2]),
        );
        assert(list[r] == extent_at(d, decomp, a, b, c));
        assert(within(part_lo(d, decomp, 0, a), part_hi(d, decomp, 0, a), d.hi[0], point[0]));
        assert(within(part_lo(d, decomp, 1, b), part_hi(d, decomp, 1, b), d.hi[1], point[1]));
        assert(within(part_lo(d, decomp, 2, c), part_hi(d, decomp, 2, c), d.hi[2], point[2]));
    }
    ranks_follow_the_list(d, decomp, q);
    only_holder_is_first(g, list, point, q, 0);
    q
}

/// The only extent that holds a point is the first that does.
proof fn only_holder_is_first<S: Scalar>(
    global: Bounds3<S>,
    extents: Seq<PartitionExtent<S>>,
    point: Vec3<S>,
    q: int,
    from: int,
)
    requires
        0 <= from <= q < extents.len(),
        holds(global, extents[q], point),
        forall|r: int|
            0 <= r < extents.len() && #[trigger] holds(global, extents[r], point) ==> r == q,
    ensures
        first_holder(global, extents, point, from) == Some(extents[q].role_rank),
    decreases q - from,
{
    if from < q {
        only_holder_is_first(global, extents, point, q, from + 1);
    }
}

} // verus!
