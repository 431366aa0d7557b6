//! [`MeshHierarchy`] - a ladder of structured meshes related by 2:1 coarsening,
//! with the restriction and prolongation operators of geometric multigrid.
//!
//! A coarse cell holds two fine cells along every axis with more than one cell,
//! and one along a singleton axis. Restriction takes the volume-weighted mean of the
//! fine cells of each coarse cell, which is the plain mean where their volumes are
//! equal; prolongation copies each coarse value into its fine cells. Both are
//! purely geometric: what a field means does not enter.

use crate::amr::copied;
use crate::grid::Grid;
use crate::grid::cell_count;
use crate::grid::inner;
use crate::grid::interior_count;
use crate::grid::is_interior;
use crate::grid::is_sound;
use crate::grid::raw_of;
use crate::grid::total_count;
use crate::grid::volume_at;
use crate::grid_laws::cells_are_numbered_once;
use crate::grid_laws::every_cell_has_raw_indices;
use crate::grid_laws::is_cell;
use crate::grid_laws::the_only_part_is_alone;
use crate::index::first_of;
use crate::index::flat;
use crate::index::flat_is_inside;
use crate::index::flat_is_injective;
use crate::index::flat_joins;
use crate::index::flat_splits;
use crate::index::flat_steps;
use crate::index::second_of;
use crate::index::third_of;
use crate::mesh::FvMesh;
use crate::mesh::StructuredMesh;
use crate::scalar::Scalar;
use crate::scalar::sum_of;
use crate::scalar::sum_of_push;
use crate::uniform::Domain;
use crate::uniform::UniformMesh;
use crate::uniform::UniformMeshConfig;
use crate::uniform::can_build;
use crate::uniform::given_edges;
use crate::uniform::part_of;
use vstd::arithmetic::div_mod::*;
use vstd::arithmetic::mul::*;
use vstd::prelude::*;

verus! {

// ---------------------------------------------------------------------------
// The ladder.
// ---------------------------------------------------------------------------

/// The only rank.
pub open spec fn serial_grid() -> Seq<int> {
    seq![1int, 1int, 1int]
}

/// Its position.
pub open spec fn serial_position() -> Seq<int> {
    seq![0int, 0int, 0int]
}

/// Half of an axis of `n` cells; a singleton axis stays one cell.
pub open spec fn halved_count(n: nat) -> nat {
    if n <= 1 {
        1
    } else {
        n / 2
    }
}

/// Every other one of the edges of an axis of `n` cells; those of a singleton axis
/// as they are.
pub open spec fn halved_edges<S>(edges: Option<Seq<S>>, n: nat) -> Option<Seq<S>> {
    match edges {
        Some(e) => if n <= 1 {
            Some(e)
        } else {
            Some(Seq::new(n / 2 + 1, |i: int| e[2 * i]))
        },
        None => None,
    }
}

/// An axis of `n` cells can be halved.
pub open spec fn can_halve(n: nat) -> bool {
    n <= 1 || n % 2 == 0
}

/// The domain with half the cells along every axis.
pub open spec fn coarsened<S: Scalar>(d: Domain<S>) -> Domain<S> {
    Domain {
        nx: halved_count(d.nx),
        ny: halved_count(d.ny),
        nz: halved_count(d.nz),
        ng: d.ng,
        lo: d.lo,
        hi: d.hi,
        y_edges: halved_edges(d.y_edges, d.ny),
        z_edges: halved_edges(d.z_edges, d.nz),
    }
}

/// The first axis, of y, z and x, that cannot be halved, with its cell count.
pub open spec fn odd_axis<S: Scalar>(d: Domain<S>) -> Option<(nat, char)> {
    if !can_halve(d.ny) {
        Some((d.ny, 'y'))
    } else if !can_halve(d.nz) {
        Some((d.nz, 'z'))
    } else if !can_halve(d.nx) {
        Some((d.nx, 'x'))
    } else {
        None
    }
}

/// Level `l` of the ladder that starts at `d`.
pub open spec fn level_domain<S: Scalar>(d: Domain<S>, l: int) -> Domain<S>
    decreases l,
{
    if l <= 0 {
        d
    } else {
        coarsened(level_domain(d, l - 1))
    }
}

/// The first obstacle to coarsening `d` the given number of times.
pub open spec fn ladder_obstacle<S: Scalar>(d: Domain<S>, times: int) -> Option<(nat, char)>
    decreases times,
{
    if times <= 0 {
        None
    } else {
        match ladder_obstacle(d, times - 1) {
            Some(found) => Some(found),
            None => odd_axis(level_domain(d, times - 1)),
        }
    }
}

/// Every level of the ladder can be built.
pub open spec fn levels_can_build<S: Scalar>(d: Domain<S>, n_levels: int) -> bool {
    forall|l: int|
        0 <= l < n_levels ==> can_build(
            #[trigger] level_domain(d, l),
            serial_grid(),
            serial_position(),
        )
}

/// Half of an axis of `n` cells.
fn halve(n: usize) -> (r: usize)
    ensures
        r == halved_count(n as nat),
{
    if n <= 1 {
        1
    } else {
        n / 2
    }
}

/// Every other one of the edges of an axis of `n` cells.
fn decimate<S: Scalar>(edges: &Option<Vec<S>>, n: usize) -> (r: Option<Vec<S>>)
    requires
        edges matches Some(e) ==> e@.len() == n + 1,
    ensures
        given_edges(r) == halved_edges(given_edges(*edges), n as nat),
{
    match edges {
        None => None,
        Some(e) => {
            let step: usize = if n <= 1 {
                1
            } else {
                2
            };
            let len: usize = e.len();
            let count: usize = (len - 1) / step;
            let mut kept: Vec<S> = Vec::new();
            let mut i: usize = 0;
            while i < count + 1
                invariant
                    e@.len() == n + 1,
                    count < usize::MAX,
                    step == 1 || step == 2,
                    count == n as int / step as int,
                    i <= count + 1,
                    kept@.len() == i,
                    forall|j: int| 0 <= j < i ==> #[trigger] kept@[j] == e@[step * j],
                decreases count + 1 - i,
            {
                assert(step * i <= n) by (nonlinear_arith)
                    requires
                        step == 1 || step == 2,
                        i <= n as int / step as int,
                ;
                kept.push(e[step * i]);
                i = i + 1;
            }
            proof {
                if n <= 1 {
                    assert(kept@ =~= e@);
                } else {
                    assert(kept@ =~= Seq::new(n as nat / 2 + 1, |i: int| e@[2 * i]));
                }
            }
            Some(kept)
        },
    }
}

/// Halve a configuration's cell counts, a singleton axis left alone, and thin out
/// any explicit edges so that the coarse edges are a subset of the fine ones.
pub fn coarsen_config<S: Scalar>(cfg: &UniformMeshConfig<S>) -> (r: UniformMeshConfig<S>)
    requires
        cfg@.edges_match(),
        odd_axis(cfg@) is None,
    ensures
        r@ == coarsened(cfg@),
{
    UniformMeshConfig {
        nx: halve(cfg.nx),
        ny: halve(cfg.ny),
        nz: halve(cfg.nz),
        ng: cfg.ng,
        bounds_lo: cfg.bounds_lo,
        bounds_hi: cfg.bounds_hi,
        y_edges: decimate(&cfg.y_edges, cfg.ny),
        z_edges: decimate(&cfg.z_edges, cfg.nz),
    }
}

/// A copy of a configuration.
fn copy_config<S: Scalar>(cfg: &UniformMeshConfig<S>) -> (r: UniformMeshConfig<S>)
    ensures
        r@ == cfg@,
{
    UniformMeshConfig {
        nx: cfg.nx,
        ny: cfg.ny,
        nz: cfg.nz,
        ng: cfg.ng,
        bounds_lo: cfg.bounds_lo,
        bounds_hi: cfg.bounds_hi,
        y_edges: copy_edges(&cfg.y_edges),
        z_edges: copy_edges(&cfg.z_edges),
    }
}

/// A copy of the edges of an axis.
fn copy_edges<S: Scalar>(edges: &Option<Vec<S>>) -> (r: Option<Vec<S>>)
    ensures
        given_edges(r) == given_edges(*edges),
{
    match edges {
        None => None,
        Some(e) => Some(copied(e)),
    }
}

/// The first axis that stands in the way of coarsening `cfg` the given number of
/// times: its cell count at that level and its name.
pub fn coarsening_obstacle<S: Scalar>(cfg: &UniformMeshConfig<S>, times: usize) -> (r: Option<
    (usize, char),
>)
    ensures
        match r {
            Some((n, axis)) => ladder_obstacle(cfg@, times as int) == Some((n as nat, axis)),
            None => ladder_obstacle(cfg@, times as int) is None,
        },
{
    let mut nx: usize = cfg.nx;
    let mut ny: usize = cfg.ny;
    let mut nz: usize = cfg.nz;
    let mut l: usize = 0;
    while l < times
        invariant
            l <= times,
            ladder_obstacle(cfg@, l as int) is None,
            nx == level_domain(cfg@, l as int).nx,
            ny == level_domain(cfg@, l as int).ny,
            nz == level_domain(cfg@, l as int).nz,
        decreases times - l,
    {
        let found: Option<(usize, char)> = if ny > 1 && ny % 2 != 0 {
            Some((ny, 'y'))
        } else if nz > 1 && nz % 2 != 0 {
            Some((nz, 'z'))
        } else if nx > 1 && nx % 2 != 0 {
            Some((nx, 'x'))
        } else {
            None
        };
        if found.is_some() {
            proof {
                obstacle_stays(cfg@, l + 1, times as int);
            }
            return found;
        }
        nx = halve(nx);
        ny = halve(ny);
        nz = halve(nz);
        l = l + 1;
    }
    None
}

/// An obstacle that was met early is the one that is met.
proof fn obstacle_stays<S: Scalar>(d: Domain<S>, a: int, b: int)
    requires
        a <= b,
        ladder_obstacle(d, a) is Some,
    ensures
        ladder_obstacle(d, b) == ladder_obstacle(d, a),
    decreases b - a,
{
    if a < b {
        obstacle_stays(d, a, b - 1);
    }
}

/// No obstacle in the whole ladder means none on the way.
proof fn no_obstacle_before<S: Scalar>(d: Domain<S>, a: int, b: int)
    requires
        0 <= a < b,
        ladder_obstacle(d, b) is None,
    ensures
        odd_axis(level_domain(d, a)) is None,
    decreases b,
{
    if a < b - 1 {
        no_obstacle_before(d, a, b - 1);
    }
}

// ---------------------------------------------------------------------------
// Transfer between two levels.
// ---------------------------------------------------------------------------

/// How many fine cells a coarse cell holds along `axis`.
pub open spec fn ratio_of<S>(fine: Grid<S>, coarse: Grid<S>, axis: int) -> int {
    interior_count(fine, axis) / interior_count(coarse, axis)
}

/// Along every axis the coarse cells hold the same whole number of fine cells.
pub open spec fn is_nested<S>(fine: Grid<S>, coarse: Grid<S>) -> bool {
    forall|a: int|
        0 <= a < 3 ==> {
            &&& #[trigger] interior_count(coarse, a) >= 1
            &&& ratio_of(fine, coarse, a) >= 1
            &&& interior_count(fine, a) == interior_count(coarse, a) * ratio_of(fine, coarse, a)
        }
}

/// How many fine cells a coarse cell holds.
pub open spec fn child_count<S>(fine: Grid<S>, coarse: Grid<S>) -> int {
    ratio_of(fine, coarse, 0) * ratio_of(fine, coarse, 1) * ratio_of(fine, coarse, 2)
}

/// Flat index of fine cell number `q` of coarse cell `(i, j, k)`.
pub open spec fn child_cell<S>(
    fine: Grid<S>,
    coarse: Grid<S>,
    i: int,
    j: int,
    k: int,
    q: int,
) -> int {
    let (rx, ry, rz): (int, int, int) = (
        ratio_of(fine, coarse, 0),
        ratio_of(fine, coarse, 1),
        ratio_of(fine, coarse, 2),
    );
    inner(
        fine,
        rx * i + first_of(q, ry, rz),
        ry * j + second_of(q, ry, rz),
        rz * k + third_of(q, rz),
    )
}

/// The values of the fine cells of coarse cell `(i, j, k)`.
pub open spec fn child_values<S: Scalar>(
    fine: Grid<S>,
    coarse: Grid<S>,
    x: Seq<S>,
    i: int,
    j: int,
    k: int,
) -> Seq<S> {
    Seq::new(
        child_count(fine, coarse) as nat,
        |q: int| x[child_cell(fine, coarse, i, j, k, q)],
    )
}

/// The mean of a list: its sum from the left over its length.
pub open spec fn mean_of<S: Scalar>(values: Seq<S>) -> S {
    sum_of(values).over_spec(S::count_spec(values.len() as int))
}

/// The volumes of all cells of a grid.
pub open spec fn volumes<S: Scalar>(g: Grid<S>) -> Seq<S> {
    Seq::new(
        cell_count(g) as nat,
        |c: int| volume_at(g, raw_of(g, c, 1), raw_of(g, c, 2)),
    )
}

/// All entries compare equal to the first.
pub open spec fn all_same<S: Scalar>(list: Seq<S>) -> bool {
    forall|i: int| 0 <= i < list.len() ==> (#[trigger] list[i]).equals_spec(list[0])
}

/// The products of two lists, entry by entry.
pub open spec fn entry_products<S: Scalar>(a: Seq<S>, b: Seq<S>) -> Seq<S> {
    Seq::new(a.len(), |i: int| a[i].times_spec(b[i]))
}

/// The volume-weighted mean of a list; with equal volumes it is the plain mean.
pub open spec fn volume_mean<S: Scalar>(sizes: Seq<S>, values: Seq<S>) -> S {
    if all_same(sizes) {
        mean_of(values)
    } else {
        sum_of(entry_products(sizes, values)).over_spec(sum_of(sizes))
    }
}

/// The volumes of the fine cells of coarse cell `(i, j, k)`.
pub open spec fn child_volumes<S: Scalar>(
    fine: Grid<S>,
    coarse: Grid<S>,
    i: int,
    j: int,
    k: int,
) -> Seq<S> {
    child_values(fine, coarse, volumes(fine), i, j, k)
}

/// What restriction gives coarse cell `(i, j, k)`.
pub open spec fn restricted_at<S: Scalar>(
    fine: Grid<S>,
    coarse: Grid<S>,
    x: Seq<S>,
    i: int,
    j: int,
    k: int,
) -> S {
    volume_mean(child_volumes(fine, coarse, i, j, k), child_values(fine, coarse, x, i, j, k))
}

/// Interior index of cell `c` along `axis`.
pub open spec fn interior_index<S>(g: Grid<S>, c: int, axis: int) -> int {
    raw_of(g, c, axis) - g.ng
}

/// A coarse field whose interior cells hold the means of their fine cells; the
/// other cells keep what they held.
pub open spec fn restricted<S: Scalar>(
    fine: Grid<S>,
    coarse: Grid<S>,
    x: Seq<S>,
    before: Seq<S>,
) -> Seq<S> {
    Seq::new(
        before.len(),
        |c: int|
            if is_interior(coarse, c) {
                restricted_at(
                    fine,
                    coarse,
                    x,
                    interior_index(coarse, c, 0),
                    interior_index(coarse, c, 1),
                    interior_index(coarse, c, 2),
                )
            } else {
                before[c]
            },
    )
}

/// Flat index of the coarse cell that holds fine cell `c`.
pub open spec fn parent_cell<S>(fine: Grid<S>, coarse: Grid<S>, c: int) -> int {
    inner(
        coarse,
        interior_index(fine, c, 0) / ratio_of(fine, coarse, 0),
        interior_index(fine, c, 1) / ratio_of(fine, coarse, 1),
        interior_index(fine, c, 2) / ratio_of(fine, coarse, 2),
    )
}

/// A fine field whose interior cells hold the value of their coarse cell; the
/// other cells keep what they held.
pub open spec fn prolonged<S: Scalar>(
    fine: Grid<S>,
    coarse: Grid<S>,
    x: Seq<S>,
    before: Seq<S>,
) -> Seq<S> {
    Seq::new(
        before.len(),
        |c: int|
            if is_interior(fine, c) {
                x[parent_cell(fine, coarse, c)]
            } else {
                before[c]
            },
    )
}

/// The flat index of an interior cell is that of a cell, interior, with its
/// indices.
pub proof fn inner_splits<S>(g: Grid<S>, i: int, j: int, k: int)
    requires
        is_sound(g),
        is_cell(g, i, j, k),
    ensures
        0 <= inner(g, i, j, k) < cell_count(g),
        is_interior(g, inner(g, i, j, k)),
        interior_index(g, inner(g, i, j, k), 0) == i,
        interior_index(g, inner(g, i, j, k), 1) == j,
        interior_index(g, inner(g, i, j, k), 2) == k,
{
    cells_are_numbered_once(g, i + g.ng, j + g.ng, k + g.ng);
}

/// An interior cell is the cell of its interior indices.
pub proof fn inner_joins<S>(g: Grid<S>, c: int)
    requires
        is_sound(g),
        0 <= c < cell_count(g),
        is_interior(g, c),
    ensures
        is_cell(
            g,
            interior_index(g, c, 0),
            interior_index(g, c, 1),
            interior_index(g, c, 2),
        ),
        inner(g, interior_index(g, c, 0), interior_index(g, c, 1), interior_index(g, c, 2)) == c,
{
    every_cell_has_raw_indices(g, c);
}

/// A coarse index and an index within it make up a fine index, and the other way
/// round.
proof fn fine_index(n: int, r: int, i: int, d: int)
    requires
        0 <= i < n,
        0 <= d < r,
    ensures
        0 <= r * i + d < n * r,
        (r * i + d) / r == i,
{
    assert(0 <= r * i) by (nonlinear_arith)
        requires
            0 <= r,
            0 <= i,
    ;
    assert(r * i + d < n * r) by (nonlinear_arith)
        requires
            i + 1 <= n,
            d < r,
            0 < r,
    ;
    lemma_mul_is_commutative(r, i);
    lemma_fundamental_div_mod_converse(r * i + d, r, i, d);
}

/// The fine cells of a coarse cell are interior cells of the fine grid, and it is
/// the coarse cell that holds each of them.
pub proof fn children_have_their_parent<S>(
    fine: Grid<S>,
    coarse: Grid<S>,
    i: int,
    j: int,
    k: int,
    q: int,
)
    requires
        is_sound(fine),
        is_sound(coarse),
        is_nested(fine, coarse),
        is_cell(coarse, i, j, k),
        0 <= q < child_count(fine, coarse),
    ensures
        ({
            let c: int = child_cell(fine, coarse, i, j, k, q);
            &&& 0 <= c < cell_count(fine)
            &&& is_interior(fine, c)
            &&& parent_cell(fine, coarse, c) == inner(coarse, i, j, k)
        }),
{
    let (rx, ry, rz): (int, int, int) = (
        ratio_of(fine, coarse, 0),
        ratio_of(fine, coarse, 1),
        ratio_of(fine, coarse, 2),
    );
    assert(interior_count(coarse, 0) >= 1 && interior_count(coarse, 1) >= 1 && interior_count(
        coarse,
        2,
    ) >= 1);
    flat_joins(q, rx, ry, rz);
    fine_index(coarse.ni, rx, i, first_of(q, ry, rz));
    fine_index(coarse.nj, ry, j, second_of(q, ry, rz));
    fine_index(coarse.nk, rz, k, third_of(q, rz));
    inner_splits(
        fine,
        rx * i + first_of(q, ry, rz),
        ry * j + second_of(q, ry, rz),
        rz * k + third_of(q, rz),
    );
}

/// The mean of copies of `v`, weighted by these volumes, is `v`.
pub open spec fn averages<S: Scalar>(v: S, sizes: Seq<S>) -> bool {
    volume_mean(sizes, Seq::new(sizes.len(), |q: int| v)) == v
}

/// Restricting what was prolonged gives the coarse field back: every fine cell of
/// a coarse cell holds its value, and the mean of equal values is that value.
pub proof fn restriction_undoes_prolongation<S: Scalar>(
    fine: Grid<S>,
    coarse: Grid<S>,
    x: Seq<S>,
    fine_before: Seq<S>,
    coarse_before: Seq<S>,
    c: int,
)
    requires
        is_sound(fine),
        is_sound(coarse),
        is_nested(fine, coarse),
        x.len() == cell_count(coarse),
        coarse_before.len() == cell_count(coarse),
        fine_before.len() == cell_count(fine),
        0 <= c < cell_count(coarse),
        is_interior(coarse, c),
        averages(
            x[c],
            child_volumes(
                fine,
                coarse,
                interior_index(coarse, c, 0),
                interior_index(coarse, c, 1),
                interior_index(coarse, c, 2),
            ),
        ),
    ensures
        restricted(fine, coarse, prolonged(fine, coarse, x, fine_before), coarse_before)[c] == x[c],
{
    inner_joins(coarse, c);
    let (i, j, k): (int, int, int) = (
        interior_index(coarse, c, 0),
        interior_index(coarse, c, 1),
        interior_index(coarse, c, 2),
    );
    let up: Seq<S> = prolonged(fine, coarse, x, fine_before);
    let n: nat = child_count(fine, coarse) as nat;
    assert forall|q: int| 0 <= q < n implies #[trigger] child_values(fine, coarse, up, i, j, k)[q]
        == x[c] by {
        children_have_their_parent(fine, coarse, i, j, k, q);
    }
    assert(child_values(fine, coarse, up, i, j, k) =~= Seq::new(n, |q: int| x[c]));
}

// ---------------------------------------------------------------------------
// The hierarchy.
// ---------------------------------------------------------------------------

/// A ladder of structured meshes. Level 0 is the finest; increasing the index
/// coarsens. A field at a level has one entry per cell of its mesh, ghosts
/// included.
pub struct MeshHierarchy<S> {
    levels: Vec<UniformMesh<S>>,
}

impl<S: Scalar> MeshHierarchy<S> {
    /// What the levels represent, finest first.
    pub closed spec fn grids(&self) -> Seq<Grid<S>> {
        self.levels@.map_values(|m: UniformMesh<S>| m.grid())
    }

    /// The meshes of the levels.
    pub closed spec fn meshes(&self) -> Seq<UniformMesh<S>> {
        self.levels@
    }

    /// There is at least one level, and every level is well formed.
    pub open spec fn valid(&self) -> bool {
        &&& self.meshes().len() >= 1
        &&& forall|l: int| 0 <= l < self.meshes().len() ==> (#[trigger] self.meshes()[l]).valid()
    }

    /// The levels hold what they represent.
    pub proof fn grids_are_of_meshes(&self)
        ensures
            self.grids().len() == self.meshes().len(),
            forall|l: int|
                0 <= l < self.meshes().len() ==> #[trigger] self.grids()[l]
                    == self.meshes()[l].grid(),
    {
    }

    /// Build `n_levels` levels from a finest-level configuration by successive 2:1
    /// coarsening. Every axis with more than one cell must stay even through the
    /// whole ladder; a singleton axis is carried through unchanged.
    pub fn from_base(cfg: &UniformMeshConfig<S>, n_levels: usize) -> (r: Self)
        requires
            n_levels >= 1,
            ladder_obstacle(cfg@, n_levels - 1) is None,
            levels_can_build(cfg@, n_levels as int),
        ensures
            r.valid(),
            r.grids().len() == n_levels,
            forall|l: int|
                0 <= l < n_levels ==> #[trigger] r.grids()[l] == part_of(
                    level_domain(cfg@, l),
                    serial_grid(),
                    serial_position(),
                ),
            cfg.nx >= 1 ==> forall|l: int|
                0 <= l < n_levels - 1 ==> #[trigger] is_nested(r.grids()[l], r.grids()[l + 1]),
    {
        let mut levels: Vec<UniformMesh<S>> = Vec::new();
        let mut cur: UniformMeshConfig<S> = copy_config(cfg);
        let mut l: usize = 0;
        while l < n_levels
            invariant
                ladder_obstacle(cfg@, n_levels - 1) is None,
                levels_can_build(cfg@, n_levels as int),
                l <= n_levels,
                l < n_levels ==> cur@ == level_domain(cfg@, l as int),
                levels@.len() == l,
                forall|m: int|
                    0 <= m < l ==> (#[trigger] levels@[m]).valid() && levels@[m].grid() == part_of(
                        level_domain(cfg@, m),
                        serial_grid(),
                        serial_position(),
                    ),
            decreases n_levels - l,
        {
            assert(can_build(level_domain(cfg@, l as int), serial_grid(), serial_position()));
            levels.push(UniformMesh::from_config(&cur));
            if l + 1 < n_levels {
                proof {
                    no_obstacle_before(cfg@, l as int, n_levels - 1);
                }
                cur = coarsen_config(&cur);
            }
            l = l + 1;
        }
        let r: Self = MeshHierarchy { levels };
        proof {
            if cfg.nx >= 1 {
                assert forall|l: int| 0 <= l < n_levels - 1 implies #[trigger] is_nested(
                    r.grids()[l],
                    r.grids()[l + 1],
                ) by {
                    no_obstacle_before(cfg@, l, n_levels - 1);
                    assert(can_build(level_domain(cfg@, 0), serial_grid(), serial_position()));
                    levels_have_cells(cfg@, l);
                    ladder_levels_are_nested(level_domain(cfg@, l));
                }
            }
        }
        r
    }

    /// Number of levels in the ladder.
    pub fn n_levels(&self) -> (r: usize)
        ensures
            r == self.meshes().len(),
    {
        self.levels.len()
    }

    /// The mesh at level `l` (0 = finest).
    pub fn level(&self, l: usize) -> (r: &UniformMesh<S>)
        requires
            l < self.meshes().len(),
        ensures
            *r == self.meshes()[l as int],
            r.grid() == self.grids()[l as int],
    {
        &self.levels[l]
    }

    /// The finest level.
    pub fn finest(&self) -> (r: &UniformMesh<S>)
        requires
            self.valid(),
        ensures
            *r == self.meshes()[0],
    {
        &self.levels[0]
    }

    /// The coarsest level.
    pub fn coarsest(&self) -> (r: &UniformMesh<S>)
        requires
            self.valid(),
        ensures
            *r == self.meshes().last(),
    {
        &self.levels[self.levels.len() - 1]
    }

    /// Per-axis coarsening ratio between level `fine_level` and the next.
    fn ratio(&self, fine_level: usize) -> (r: [usize; 3])
        requires
            self.valid(),
            fine_level + 1 < self.meshes().len(),
            is_nested(self.grids()[fine_level as int], self.grids()[fine_level + 1]),
        ensures
            forall|a: int|
                0 <= a < 3 ==> #[trigger] r[a] == ratio_of(
                    self.grids()[fine_level as int],
                    self.grids()[fine_level + 1],
                    a,
                ),
    {
        let ghost f: Grid<S> = self.grids()[fine_level as int];
        let ghost c: Grid<S> = self.grids()[fine_level + 1];
        let fine: &UniformMesh<S> = &self.levels[fine_level];
        let n: usize = self.levels.len();
        assert(fine_level + 1 < n);
        let coarse: &UniformMesh<S> = &self.levels[fine_level + 1];
        let fd: [usize; 3] = fine.dims();
        let cd: [usize; 3] = coarse.dims();
        assert(interior_count(c, 0) >= 1 && interior_count(c, 1) >= 1 && interior_count(c, 2) >= 1);
        assert(fd[0] == interior_count(f, 0) && fd[1] == interior_count(f, 1) && fd[2]
            == interior_count(f, 2));
        assert(cd[0] == interior_count(c, 0) && cd[1] == interior_count(c, 1) && cd[2]
            == interior_count(c, 2));
        [fd[0] / cd[0], fd[1] / cd[1], fd[2] / cd[2]]
    }

    /// Restriction: average each coarse cell from its fine cells by volume, mapping a field
    /// on level `fine_level` onto level `fine_level + 1`. Only interior coarse
    /// cells are written.
    pub fn restrict(&self, fine_level: usize, fine: &[S], coarse: &mut [S])
        requires
            self.valid(),
            fine_level + 1 < self.meshes().len(),
            is_nested(self.grids()[fine_level as int], self.grids()[fine_level + 1]),
            fine@.len() == cell_count(self.grids()[fine_level as int]),
            old(coarse)@.len() == cell_count(self.grids()[fine_level + 1]),
        ensures
            final(coarse)@ == restricted(
                self.grids()[fine_level as int],
                self.grids()[fine_level + 1],
                fine@,
                old(coarse)@,
            ),
    {
        let ghost f: Grid<S> = self.grids()[fine_level as int];
        let ghost g: Grid<S> = self.grids()[fine_level + 1];
        let r: [usize; 3] = self.ratio(fine_level);
        let fmesh: &UniformMesh<S> = &self.levels[fine_level];
        let n: usize = self.levels.len();
        assert(fine_level + 1 < n);
        let cmesh: &UniformMesh<S> = &self.levels[fine_level + 1];
        let cd: [usize; 3] = cmesh.dims();
        let ghost before: Seq<S> = coarse@;
        let ghost want: Seq<S> = restricted(f, g, fine@, before);
        proof {
            assert(self.meshes()[fine_level as int].valid());
            assert(self.meshes()[fine_level + 1].valid());
            assert(cd[0] == interior_count(g, 0) && cd[1] == interior_count(g, 1) && cd[2]
                == interior_count(g, 2));
            flat_steps(0, 0, 0, g.nj, g.nk);
            assert forall|c: int| 0 <= c < before.len() implies #[trigger] coarse@[c] == (
            if is_numbered_below(g, c, 0) {
                want[c]
            } else {
                before[c]
            }) by {
                if is_interior(g, c) {
                    number_is_inside(g, c);
                }
            }
        }
        let mut ci: usize = 0;
        while ci < cd[0]
            invariant
                fmesh.valid(),
                cmesh.valid(),
                fmesh.grid() == f,
                cmesh.grid() == g,
                is_nested(f, g),
                forall|a: int| 0 <= a < 3 ==> #[trigger] r[a] == ratio_of(f, g, a),
                cd[0] == g.ni && cd[1] == g.nj && cd[2] == g.nk,
                fine@.len() == cell_count(f),
                before.len() == cell_count(g),
                want == restricted(f, g, fine@, before),
                ci <= cd[0],
                coarse@.len() == before.len(),
                forall|c: int|
                    0 <= c < before.len() ==> #[trigger] coarse@[c] == (if is_numbered_below(
                        g,
                        c,
                        flat(ci as int, 0, 0, g.nj, g.nk),
                    ) {
                        want[c]
                    } else {
                        before[c]
                    }),
            decreases cd[0] - ci,
        {
            let mut cj: usize = 0;
            while cj < cd[1]
                invariant
                    fmesh.valid(),
                    cmesh.valid(),
                    fmesh.grid() == f,
                    cmesh.grid() == g,
                    is_nested(f, g),
                    forall|a: int| 0 <= a < 3 ==> #[trigger] r[a] == ratio_of(f, g, a),
                    cd[0] == g.ni && cd[1] == g.nj && cd[2] == g.nk,
                    fine@.len() == cell_count(f),
                    before.len() == cell_count(g),
                    want == restricted(f, g, fine@, before),
                    ci < cd[0],
                    cj <= cd[1],
                    coarse@.len() == before.len(),
                    forall|c: int|
                        0 <= c < before.len() ==> #[trigger] coarse@[c] == (if is_numbered_below(
                            g,
                            c,
                            flat(ci as int, cj as int, 0, g.nj, g.nk),
                        ) {
                            want[c]
                        } else {
                            before[c]
                        }),
                decreases cd[1] - cj,
            {
                let mut ck: usize = 0;
                while ck < cd[2]
                    invariant
                        fmesh.valid(),
                        cmesh.valid(),
                        fmesh.grid() == f,
                        cmesh.grid() == g,
                        is_nested(f, g),
                        forall|a: int| 0 <= a < 3 ==> #[trigger] r[a] == ratio_of(f, g, a),
                        cd[0] == g.ni && cd[1] == g.nj && cd[2] == g.nk,
                        fine@.len() == cell_count(f),
                        before.len() == cell_count(g),
                        want == restricted(f, g, fine@, before),
                        ci < cd[0],
                        cj < cd[1],
                        ck <= cd[2],
                        coarse@.len() == before.len(),
                        forall|c: int|
                            0 <= c < before.len() ==> #[trigger] coarse@[c] == (
                            if is_numbered_below(
                                g,
                                c,
                                flat(ci as int, cj as int, ck as int, g.nj, g.nk),
                            ) {
                                want[c]
                            } else {
                                before[c]
                            }),
                    decreases cd[2] - ck,
                {
                    let ghost held: Seq<S> = coarse@;
                    let mean: S = mean_of_children(fmesh, cmesh, r, fine, ci, cj, ck);
                    let at: usize = cmesh.idx(ci, cj, ck);
                    proof {
                        inner_splits(g, ci as int, cj as int, ck as int);
                        flat_steps(ci as int, cj as int, ck as int, g.nj, g.nk);
                    }
                    coarse[at] = mean;
                    proof {
                        let done: int = flat(ci as int, cj as int, ck as int, g.nj, g.nk);
                        assert forall|c: int| 0 <= c < before.len() implies #[trigger] coarse@[c]
                            == (if is_numbered_below(g, c, done + 1) {
                            want[c]
                        } else {
                            before[c]
                        }) by {
                            assert(held[c] == (if is_numbered_below(g, c, done) {
                                want[c]
                            } else {
                                before[c]
                            }));
                            if c != at && is_interior(g, c) {
                                inner_joins(g, c);
                                if number_of(g, c) == done {
                                    flat_is_injective(
                                        interior_index(g, c, 0),
                                        interior_index(g, c, 1),
                                        interior_index(g, c, 2),
                                        ci as int,
                                        cj as int,
                                        ck as int,
                                        g.nj,
                                        g.nk,
                                    );
                                }
                            }
                        }
                    }
                    ck = ck + 1;
                }
                proof {
                    flat_steps(ci as int, cj as int, 0, g.nj, g.nk);
                }
                cj = cj + 1;
            }
            proof {
                flat_steps(ci as int, 0, 0, g.nj, g.nk);
            }
            ci = ci + 1;
        }
        proof {
            assert forall|c: int| 0 <= c < before.len() implies #[trigger] coarse@[c]
                == want[c] by {
                if is_interior(g, c) {
                    number_is_inside(g, c);
                    assert(flat(g.ni, 0, 0, g.nj, g.nk) == g.ni * g.nj * g.nk);
                }
            }
            assert(coarse@ =~= want);
        }
    }

    /// Prolongation: copy each coarse value into all of its fine cells, mapping a
    /// field on level `fine_level + 1` onto level `fine_level`. Only interior fine
    /// cells are written.
    pub fn prolong(&self, fine_level: usize, coarse: &[S], fine: &mut [S])
        requires
            self.valid(),
            fine_level + 1 < self.meshes().len(),
            is_nested(self.grids()[fine_level as int], self.grids()[fine_level + 1]),
            coarse@.len() == cell_count(self.grids()[fine_level + 1]),
            old(fine)@.len() == cell_count(self.grids()[fine_level as int]),
        ensures
            final(fine)@ == prolonged(
                self.grids()[fine_level as int],
                self.grids()[fine_level + 1],
                coarse@,
                old(fine)@,
            ),
    {
        let ghost f: Grid<S> = self.grids()[fine_level as int];
        let ghost g: Grid<S> = self.grids()[fine_level + 1];
        let r: [usize; 3] = self.ratio(fine_level);
        let fmesh: &UniformMesh<S> = &self.levels[fine_level];
        let n: usize = self.levels.len();
        assert(fine_level + 1 < n);
        let cmesh: &UniformMesh<S> = &self.levels[fine_level + 1];
        let fd: [usize; 3] = fmesh.dims();
        let ghost before: Seq<S> = fine@;
        let ghost want: Seq<S> = prolonged(f, g, coarse@, before);
        proof {
            assert(self.meshes()[fine_level as int].valid());
            assert(self.meshes()[fine_level + 1].valid());
            assert(fd[0] == interior_count(f, 0) && fd[1] == interior_count(f, 1) && fd[2]
                == interior_count(f, 2));
            flat_steps(0, 0, 0, f.nj, f.nk);
            assert forall|c: int| 0 <= c < before.len() implies #[trigger] fine@[c] == (
            if is_numbered_below(f, c, 0) {
                want[c]
            } else {
                before[c]
            }) by {
                if is_interior(f, c) {
                    number_is_inside(f, c);
                }
            }
        }
        let mut i: usize = 0;
        while i < fd[0]
            invariant
                fmesh.valid(),
                cmesh.valid(),
                fmesh.grid() == f,
                cmesh.grid() == g,
                is_nested(f, g),
                forall|a: int| 0 <= a < 3 ==> #[trigger] r[a] == ratio_of(f, g, a),
                fd[0] == f.ni && fd[1] == f.nj && fd[2] == f.nk,
                coarse@.len() == cell_count(g),
                before.len() == cell_count(f),
                want == prolonged(f, g, coarse@, before),
                i <= fd[0],
                fine@.len() == before.len(),
                forall|c: int|
                    0 <= c < before.len() ==> #[trigger] fine@[c] == (if is_numbered_below(
                        f,
                        c,
                        flat(i as int, 0, 0, f.nj, f.nk),
                    ) {
                        want[c]
                    } else {
                        before[c]
                    }),
            decreases fd[0] - i,
        {
            let mut j: usize = 0;
            while j < fd[1]
                invariant
                    fmesh.valid(),
                    cmesh.valid(),
                    fmesh.grid() == f,
                    cmesh.grid() == g,
                    is_nested(f, g),
                    forall|a: int| 0 <= a < 3 ==> #[trigger] r[a] == ratio_of(f, g, a),
                    fd[0] == f.ni && fd[1] == f.nj && fd[2] == f.nk,
                    coarse@.len() == cell_count(g),
                    before.len() == cell_count(f),
                    want == prolonged(f, g, coarse@, before),
                    i < fd[0],
                    j <= fd[1],
                    fine@.len() == before.len(),
                    forall|c: int|
                        0 <= c < before.len() ==> #[trigger] fine@[c] == (if is_numbered_below(
                            f,
                            c,
                            flat(i as int, j as int, 0, f.nj, f.nk),
                        ) {
                            want[c]
                        } else {
                            before[c]
                        }),
                decreases fd[1] - j,
            {
                let mut k: usize = 0;
                while k < fd[2]
                    invariant
                        fmesh.valid(),
                        cmesh.valid(),
                        fmesh.grid() == f,
                        cmesh.grid() == g,
                        is_nested(f, g),
                        forall|a: int| 0 <= a < 3 ==> #[trigger] r[a] == ratio_of(f, g, a),
                        fd[0] == f.ni && fd[1] == f.nj && fd[2] == f.nk,
                        coarse@.len() == cell_count(g),
                        before.len() == cell_count(f),
                        want == prolonged(f, g, coarse@, before),
                        i < fd[0],
                        j < fd[1],
                        k <= fd[2],
                        fine@.len() == before.len(),
                        forall|c: int|
                            0 <= c < before.len() ==> #[trigger] fine@[c] == (if is_numbered_below(
                                f,
                                c,
                                flat(i as int, j as int, k as int, f.nj, f.nk),
                            ) {
                                want[c]
                            } else {
                                before[c]
                            }),
                    decreases fd[2] - k,
                {
                    let ghost held: Seq<S> = fine@;
                    proof {
                        coarse_index_is_inside(f, g, i as int, 0);
                        coarse_index_is_inside(f, g, j as int, 1);
                        coarse_index_is_inside(f, g, k as int, 2);
                        assert(r[0] == ratio_of(f, g, 0) && r[1] == ratio_of(f, g, 1) && r[2]
                            == ratio_of(f, g, 2));
                    }
                    let (ci, cj, ck): (usize, usize, usize) = (i / r[0], j / r[1], k / r[2]);
                    let from: usize = cmesh.idx(ci, cj, ck);
                    let at: usize = fmesh.idx(i, j, k);
                    proof {
                        inner_splits(f, i as int, j as int, k as int);
                        inner_splits(g, ci as int, cj as int, ck as int);
                        flat_steps(i as int, j as int, k as int, f.nj, f.nk);
                    }
                    fine[at] = coarse[from];
                    proof {
                        let done: int = flat(i as int, j as int, k as int, f.nj, f.nk);
                        assert forall|c: int| 0 <= c < before.len() implies #[trigger] fine@[c]
                            == (if is_numbered_below(f, c, done + 1) {
                            want[c]
                        } else {
                            before[c]
                        }) by {
                            assert(held[c] == (if is_numbered_below(f, c, done) {
                                want[c]
                            } else {
                                before[c]
                            }));
                            if c != at && is_interior(f, c) {
                                inner_joins(f, c);
                                if number_of(f, c) == done {
                                    flat_is_injective(
                                        interior_index(f, c, 0),
                                        interior_index(f, c, 1),
                                        interior_index(f, c, 2),
                                        i as int,
                                        j as int,
                                        k as int,
                                        f.nj,
                                        f.nk,
                                    );
                                }
                            }
                        }
                    }
                    k = k + 1;
                }
                proof {
                    flat_steps(i as int, j as int, 0, f.nj, f.nk);
                }
                j = j + 1;
            }
            proof {
                flat_steps(i as int, 0, 0, f.nj, f.nk);
            }
            i = i + 1;
        }
        proof {
            assert forall|c: int| 0 <= c < before.len() implies #[trigger] fine@[c] == want[c] by {
                if is_interior(f, c) {
                    number_is_inside(f, c);
                    assert(flat(f.ni, 0, 0, f.nj, f.nk) == f.ni * f.nj * f.nk);
                }
            }
            assert(fine@ =~= want);
        }
    }
}

/// The number of an interior cell among the interior cells, in lexicographic
/// order.
spec fn number_of<S>(g: Grid<S>, c: int) -> int {
    flat(
        interior_index(g, c, 0),
        interior_index(g, c, 1),
        interior_index(g, c, 2),
        g.nj,
        g.nk,
    )
}

/// Cell `c` is one of the first `n` interior cells.
spec fn is_numbered_below<S>(g: Grid<S>, c: int, n: int) -> bool {
    is_interior(g, c) && number_of(g, c) < n
}

/// Interior cells are numbered from zero up.
proof fn number_is_inside<S>(g: Grid<S>, c: int)
    requires
        is_sound(g),
        0 <= c < cell_count(g),
        is_interior(g, c),
    ensures
        0 <= number_of(g, c) < g.ni * g.nj * g.nk,
{
    inner_joins(g, c);
    flat_is_inside(
        interior_index(g, c, 0),
        interior_index(g, c, 1),
        interior_index(g, c, 2),
        g.ni,
        g.nj,
        g.nk,
    );
}

/// The coarse index of a fine index lies within the coarse grid.
pub proof fn coarse_index_is_inside<S>(fine: Grid<S>, coarse: Grid<S>, i: int, axis: int)
    requires
        is_nested(fine, coarse),
        0 <= axis < 3,
        0 <= i < interior_count(fine, axis),
    ensures
        ratio_of(fine, coarse, axis) >= 1,
        0 <= i / ratio_of(fine, coarse, axis) < interior_count(coarse, axis),
{
    let r: int = ratio_of(fine, coarse, axis);
    assert(interior_count(coarse, axis) >= 1);
    lemma_mul_is_commutative(interior_count(coarse, axis), r);
    lemma_multiply_divide_lt(i, r, interior_count(coarse, axis));
    lemma_div_pos_is_pos(i, r);
}

/// The volume-weighted mean of the fine cells of coarse cell `(ci, cj, ck)`.
fn mean_of_children<S: Scalar>(
    fmesh: &UniformMesh<S>,
    cmesh: &UniformMesh<S>,
    r: [usize; 3],
    fine: &[S],
    ci: usize,
    cj: usize,
    ck: usize,
) -> (m: S)
    requires
        fmesh.valid(),
        cmesh.valid(),
        is_nested(fmesh.grid(), cmesh.grid()),
        forall|a: int|
            0 <= a < 3 ==> #[trigger] r[a] == ratio_of(fmesh.grid(), cmesh.grid(), a),
        fine@.len() == cell_count(fmesh.grid()),
        is_cell(cmesh.grid(), ci as int, cj as int, ck as int),
    ensures
        m == restricted_at(
            fmesh.grid(),
            cmesh.grid(),
            fine@,
            ci as int,
            cj as int,
            ck as int,
        ),
{
    let ghost f: Grid<S> = fmesh.grid();
    let ghost g: Grid<S> = cmesh.grid();
    let ghost all: Seq<S> = child_values(f, g, fine@, ci as int, cj as int, ck as int);
    let ghost sizes: Seq<S> = child_volumes(f, g, ci as int, cj as int, ck as int);
    let ghost both: Seq<S> = entry_products(sizes, all);
    let (rx, ry, rz): (usize, usize, usize) = (r[0], r[1], r[2]);
    proof {
        assert(interior_count(g, 0) >= 1 && interior_count(g, 1) >= 1 && interior_count(g, 2) >= 1);
        children_fit(f, g);
        flat_steps(0, 0, 0, ry as int, rz as int);
        assert(all.take(0).len() == 0);
        assert(both.take(0).len() == 0);
        assert(sizes.take(0).len() == 0);
        flat_splits(0, 0, 0, ry as int, rz as int);
        flat_is_inside(0, 0, 0, rx as int, ry as int, rz as int);
        fine_index(g.ni, rx as int, ci as int, 0);
        fine_index(g.nj, ry as int, cj as int, 0);
        fine_index(g.nk, rz as int, ck as int, 0);
        children_have_their_parent(f, g, ci as int, cj as int, ck as int, 0);
    }
    let count: usize = rx * ry * rz;
    let mut acc: S = S::zero();
    let mut weighted: S = S::zero();
    let mut total: S = S::zero();
    let mut same: bool = true;
    let corner: usize = fmesh.idx(rx * ci, ry * cj, rz * ck);
    let first: S = fmesh.cell_volume(corner);
    let mut di: usize = 0;
    while di < rx
        invariant
            fmesh.valid(),
            fmesh.grid() == f,
            is_sound(g),
            is_nested(f, g),
            rx == ratio_of(f, g, 0) && ry == ratio_of(f, g, 1) && rz == ratio_of(f, g, 2),
            fine@.len() == cell_count(f),
            is_cell(g, ci as int, cj as int, ck as int),
            all == child_values(f, g, fine@, ci as int, cj as int, ck as int),
            sizes == child_volumes(f, g, ci as int, cj as int, ck as int),
            both == entry_products(sizes, all),
            first == sizes[0],
            di <= rx,
            acc == sum_of(all.take(flat(di as int, 0, 0, ry as int, rz as int))),
            weighted == sum_of(both.take(flat(di as int, 0, 0, ry as int, rz as int))),
            total == sum_of(sizes.take(flat(di as int, 0, 0, ry as int, rz as int))),
            same == all_same_upto(sizes, flat(di as int, 0, 0, ry as int, rz as int)),
        decreases rx - di,
    {
        let mut dj: usize = 0;
        while dj < ry
            invariant
                fmesh.valid(),
                fmesh.grid() == f,
                is_sound(g),
                is_nested(f, g),
                rx == ratio_of(f, g, 0) && ry == ratio_of(f, g, 1) && rz == ratio_of(f, g, 2),
                fine@.len() == cell_count(f),
                is_cell(g, ci as int, cj as int, ck as int),
                all == child_values(f, g, fine@, ci as int, cj as int, ck as int),
                sizes == child_volumes(f, g, ci as int, cj as int, ck as int),
                both == entry_products(sizes, all),
                first == sizes[0],
                di < rx,
                dj <= ry,
                acc == sum_of(all.take(flat(di as int, dj as int, 0, ry as int, rz as int))),
                weighted == sum_of(both.take(flat(di as int, dj as int, 0, ry as int, rz as int))),
                total == sum_of(sizes.take(flat(di as int, dj as int, 0, ry as int, rz as int))),
                same == all_same_upto(sizes, flat(di as int, dj as int, 0, ry as int, rz as int)),
            decreases ry - dj,
        {
            let mut dk: usize = 0;
            while dk < rz
                invariant
                    fmesh.valid(),
                    fmesh.grid() == f,
                    is_sound(g),
                    is_nested(f, g),
                    rx == ratio_of(f, g, 0) && ry == ratio_of(f, g, 1) && rz == ratio_of(
                        f,
                        g,
                        2,
                    ),
                    fine@.len() == cell_count(f),
                    is_cell(g, ci as int, cj as int, ck as int),
                    all == child_values(f, g, fine@, ci as int, cj as int, ck as int),
                    sizes == child_volumes(f, g, ci as int, cj as int, ck as int),
                    both == entry_products(sizes, all),
                    first == sizes[0],
                    di < rx,
                    dj < ry,
                    dk <= rz,
                    acc == sum_of(
                        all.take(flat(di as int, dj as int, dk as int, ry as int, rz as int)),
                    ),
                    weighted == sum_of(
                        both.take(flat(di as int, dj as int, dk as int, ry as int, rz as int)),
                    ),
                    total == sum_of(
                        sizes.take(flat(di as int, dj as int, dk as int, ry as int, rz as int)),
                    ),
                    same == all_same_upto(
                        sizes,
                        flat(di as int, dj as int, dk as int, ry as int, rz as int),
                    ),
                decreases rz - dk,
            {
                let ghost q: int = flat(di as int, dj as int, dk as int, ry as int, rz as int);
                proof {
                    flat_splits(di as int, dj as int, dk as int, ry as int, rz as int);
                    flat_is_inside(
                        di as int,
                        dj as int,
                        dk as int,
                        rx as int,
                        ry as int,
                        rz as int,
                    );
                    flat_steps(di as int, dj as int, dk as int, ry as int, rz as int);
                    assert(interior_count(g, 0) >= 1 && interior_count(g, 1) >= 1
                        && interior_count(g, 2) >= 1);
                    fine_index(g.ni, rx as int, ci as int, di as int);
                    fine_index(g.nj, ry as int, cj as int, dj as int);
                    fine_index(g.nk, rz as int, ck as int, dk as int);
                    children_have_their_parent(f, g, ci as int, cj as int, ck as int, q);
                    assert(0 <= rx * ci <= rx * ci + di);
                    assert(0 <= ry * cj <= ry * cj + dj);
                    assert(0 <= rz * ck <= rz * ck + dk);
                }
                let at: usize = fmesh.idx(rx * ci + di, ry * cj + dj, rz * ck + dk);
                let size: S = fmesh.cell_volume(at);
                assert(size == sizes[q]);
                acc = acc.plus(fine[at]);
                weighted = weighted.plus(size.times(fine[at]));
                total = total.plus(size);
                same = same && size.equals(first);
                proof {
                    sum_of_push(all.take(q), all[q]);
                    assert(all.take(q + 1) =~= all.take(q).push(all[q]));
                    sum_of_push(both.take(q), both[q]);
                    assert(both.take(q + 1) =~= both.take(q).push(both[q]));
                    sum_of_push(sizes.take(q), sizes[q]);
                    assert(sizes.take(q + 1) =~= sizes.take(q).push(sizes[q]));
                    same_step(sizes, q);
                }
                dk = dk + 1;
            }
            proof {
                flat_steps(di as int, dj as int, 0, ry as int, rz as int);
            }
            dj = dj + 1;
        }
        proof {
            flat_steps(di as int, 0, 0, ry as int, rz as int);
        }
        di = di + 1;
    }
    proof {
        assert(flat(rx as int, 0, 0, ry as int, rz as int) == count);
        assert(all.take(count as int) =~= all);
        assert(both.take(count as int) =~= both);
        assert(sizes.take(count as int) =~= sizes);
    }
    if same {
        acc.over(S::from_count(count))
    } else {
        weighted.over(total)
    }
}

/// The first `n` entries compare equal to the first.
spec fn all_same_upto<S: Scalar>(list: Seq<S>, n: int) -> bool {
    forall|i: int| 0 <= i < n ==> (#[trigger] list[i]).equals_spec(list[0])
}

/// One more entry is compared.
proof fn same_step<S: Scalar>(list: Seq<S>, n: int)
    requires
        0 <= n,
    ensures
        all_same_upto(list, n + 1) == (all_same_upto(list, n) && list[n].equals_spec(list[0])),
{
    if all_same_upto(list, n + 1) {
        assert(list[n].equals_spec(list[0]));
        assert forall|i: int| 0 <= i < n implies (#[trigger] list[i]).equals_spec(list[0]) by {
            assert(0 <= i < n + 1);
        }
    }
}

/// A coarse cell holds no more fine cells than there are.
proof fn children_fit<S>(fine: Grid<S>, coarse: Grid<S>)
    requires
        is_sound(fine),
        is_nested(fine, coarse),
    ensures
        0 <= ratio_of(fine, coarse, 0) * ratio_of(fine, coarse, 1) <= usize::MAX,
        0 <= child_count(fine, coarse) <= usize::MAX,
{
    let (a, b, c): (int, int, int) = (
        ratio_of(fine, coarse, 0),
        ratio_of(fine, coarse, 1),
        ratio_of(fine, coarse, 2),
    );
    let (x, y, z): (int, int, int) = (
        interior_count(coarse, 0),
        interior_count(coarse, 1),
        interior_count(coarse, 2),
    );
    assert(x >= 1 && y >= 1 && z >= 1);
    let (p, q, r): (int, int, int) = (
        total_count(fine, 0),
        total_count(fine, 1),
        total_count(fine, 2),
    );
    assert(a <= x * a) by (nonlinear_arith)
        requires
            1 <= x,
            1 <= a,
    ;
    assert(b <= y * b) by (nonlinear_arith)
        requires
            1 <= y,
            1 <= b,
    ;
    assert(c <= z * c) by (nonlinear_arith)
        requires
            1 <= z,
            1 <= c,
    ;
    assert(0 <= a * b <= p * q) by (nonlinear_arith)
        requires
            1 <= a <= p,
            1 <= b <= q,
    ;
    assert(a * b <= a * b * c <= p * q * r) by (nonlinear_arith)
        requires
            0 <= a * b <= p * q,
            1 <= c <= r,
    ;
}

/// Neighboring levels of a ladder whose axes all have cells are nested, two to one
/// along every axis with more than one cell and one to one along a singleton axis.
pub proof fn ladder_levels_are_nested<S: Scalar>(d: Domain<S>)
    requires
        odd_axis(d) is None,
        d.nx >= 1,
        d.ny >= 1,
        d.nz >= 1,
    ensures
        ({
            let fine: Grid<S> = part_of(d, serial_grid(), serial_position());
            let coarse: Grid<S> = part_of(coarsened(d), serial_grid(), serial_position());
            &&& is_nested(fine, coarse)
            &&& ratio_of(fine, coarse, 0) == (if d.nx == 1 { 1int } else { 2int })
            &&& ratio_of(fine, coarse, 1) == (if d.ny == 1 { 1int } else { 2int })
            &&& ratio_of(fine, coarse, 2) == (if d.nz == 1 { 1int } else { 2int })
        }),
{
    the_only_part_is_alone(d);
    the_only_part_is_alone(coarsened(d));
    halving_nests(d.nx);
    halving_nests(d.ny);
    halving_nests(d.nz);
}

/// A ladder whose finest level has cells along every axis has them on every level.
proof fn levels_have_cells<S: Scalar>(d: Domain<S>, l: int)
    requires
        0 <= l,
        d.nx >= 1,
        d.ny >= 1,
        d.nz >= 1,
    ensures
        level_domain(d, l).nx >= 1,
        level_domain(d, l).ny >= 1,
        level_domain(d, l).nz >= 1,
    decreases l,
{
    if l > 0 {
        levels_have_cells(d, l - 1);
    }
}

/// An even count is twice its half.
proof fn halving_nests(n: nat)
    requires
        n >= 1,
        can_halve(n),
    ensures
        halved_count(n) >= 1,
        n as int / halved_count(n) as int == (if n == 1 { 1int } else { 2int }),
        n == halved_count(n) * (n as int / halved_count(n) as int),
{
    if n > 1 {
        lemma_fundamental_div_mod_converse(n as int, halved_count(n) as int, 2, 0);
    }
}

} // verus!
