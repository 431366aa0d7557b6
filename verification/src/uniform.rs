//! [`UniformMesh`] - structured Cartesian grid with ghost layers, split over a
//! process grid.
//!
//! The spacing is uniform along x; y and z take explicit cell edges for
//! stretching. Indices are ghost-offset: interior cell `(0,0,0)` has the raw
//! indices `(ng, ng, ng)`.

use crate::decomposition::cells_of;
use crate::decomposition::every_rank_has_a_position;
use crate::decomposition::factor_decomposition;
use crate::decomposition::partition_span;
use crate::decomposition::process_grid;
use crate::decomposition::process_grid_has_size_ranks;
use crate::decomposition::rank_at;
use crate::decomposition::rank_position;
use crate::decomposition::shape_of;
use crate::decomposition::span_count;
use crate::decomposition::span_is_inside;
use crate::decomposition::span_start;
use crate::grid::Grid;
use crate::grid::all_faces;
use crate::grid::all_links;
use crate::grid::axis_edges;
use crate::grid::axis_faces;
use crate::grid::bracket_at;
use crate::grid::cell_count;
use crate::grid::cell_faces;
use crate::grid::center_at;
use crate::grid::clamped;
use crate::grid::faces_upto;
use crate::grid::fraction_at;
use crate::grid::high_face;
use crate::grid::interior_count;
use crate::grid::interior_is_counted;
use crate::grid::interior_mask;
use crate::grid::interval_of;
use crate::grid::is_inside;
use crate::grid::is_sound;
use crate::grid::links_upto;
use crate::grid::local_centers;
use crate::grid::local_edge;
use crate::grid::local_widths;
use crate::grid::low_face;
use crate::grid::link_depth;
use crate::grid::lower_center;
use crate::grid::neighbor_layers;
use crate::grid::neighbor_rank;
use crate::grid::next_axis;
use crate::grid::raw;
use crate::grid::raw_of;
use crate::grid::side_link;
use crate::grid::slab;
use crate::grid::slab_cell;
use crate::grid::slab_size;
use crate::grid::total_count;
use crate::grid::turned;
use crate::grid::volume_at;
use crate::grid::width_at;
use crate::grid::x_center;
use crate::halo::HaloLink;
use crate::halo::HaloPlan;
use crate::index::flat;
use crate::index::flat_is_inside;
use crate::index::flat_joins;
use crate::index::flat_splits;
use crate::index::flat_steps;
use crate::mesh::Bracket;
use crate::mesh::Face;
use crate::mesh::FvMesh;
use crate::mesh::StructuredMesh;
use crate::mesh::Vec3;
use crate::scalar::Scalar;
use vstd::prelude::*;

verus! {

/// Configuration for building a [`UniformMesh`].
#[derive(Clone, Debug)]
pub struct UniformMeshConfig<S> {
    /// Cells along x.
    pub nx: usize,
    /// Cells along y.
    pub ny: usize,
    /// Cells along z.
    pub nz: usize,
    /// Ghost layers on each side.
    pub ng: usize,
    /// Lower corner of the domain.
    pub bounds_lo: Vec3<S>,
    /// Upper corner of the domain.
    pub bounds_hi: Vec3<S>,
    /// Explicit cell edges along y (`ny + 1` of them), for stretching.
    pub y_edges: Option<Vec<S>>,
    /// Explicit cell edges along z (`nz + 1` of them), for stretching.
    pub z_edges: Option<Vec<S>>,
}

impl<S: Scalar> Default for UniformMeshConfig<S> {
    /// One cell over the unit cube, with two ghost layers.
    fn default() -> (r: Self)
        ensures
            r.nx == 1 && r.ny == 1 && r.nz == 1,
            r.ng == 2,
            r.bounds_lo == [S::zero_spec(), S::zero_spec(), S::zero_spec()],
            r.bounds_hi == [S::one_spec(), S::one_spec(), S::one_spec()],
            r.y_edges is None,
            r.z_edges is None,
    {
        let o: S = S::zero();
        let l: S = S::one();
        UniformMeshConfig {
            nx: 1,
            ny: 1,
            nz: 1,
            ng: 2,
            bounds_lo: [o, o, o],
            bounds_hi: [l, l, l],
            y_edges: None,
            z_edges: None,
        }
    }
}

/// The edges given for an axis, if any.
pub open spec fn given_edges<S>(edges: Option<Vec<S>>) -> Option<Seq<S>> {
    match edges {
        Some(e) => Some(e@),
        None => None,
    }
}

/// What a [`UniformMeshConfig`] describes.
pub ghost struct Domain<S> {
    /// Cells along x.
    pub nx: nat,
    /// Cells along y.
    pub ny: nat,
    /// Cells along z.
    pub nz: nat,
    /// Ghost layers on each side.
    pub ng: nat,
    /// Lower corner.
    pub lo: Vec3<S>,
    /// Upper corner.
    pub hi: Vec3<S>,
    /// Explicit cell edges along y.
    pub y_edges: Option<Seq<S>>,
    /// Explicit cell edges along z.
    pub z_edges: Option<Seq<S>>,
}

impl<S> View for UniformMeshConfig<S> {
    type V = Domain<S>;

    open spec fn view(&self) -> Domain<S> {
        Domain {
            nx: self.nx as nat,
            ny: self.ny as nat,
            nz: self.nz as nat,
            ng: self.ng as nat,
            lo: self.bounds_lo,
            hi: self.bounds_hi,
            y_edges: given_edges(self.y_edges),
            z_edges: given_edges(self.z_edges),
        }
    }
}

impl<S: Scalar> Domain<S> {
    /// Cells per axis.
    pub open spec fn counts(self) -> Seq<int> {
        seq![self.nx as int, self.ny as int, self.nz as int]
    }

    /// All cell edges along y.
    pub open spec fn all_y_edges(self) -> Seq<S> {
        axis_edges(self.y_edges, self.ny as int, self.lo[1], self.hi[1])
    }

    /// All cell edges along z.
    pub open spec fn all_z_edges(self) -> Seq<S> {
        axis_edges(self.z_edges, self.nz as int, self.lo[2], self.hi[2])
    }

    /// Explicit edges, where given, are one more than the cells of their axis.
    pub open spec fn edges_match(self) -> bool {
        &&& self.y_edges matches Some(e) ==> e.len() == self.ny + 1
        &&& self.z_edges matches Some(e) ==> e.len() == self.nz + 1
    }
}

/// The part of the rank at `pos` of the process grid `decomp`.
pub open spec fn part_of<S: Scalar>(
    cfg: Domain<S>,
    decomp: Seq<int>,
    pos: Seq<int>,
) -> Grid<S> {
    let n: Seq<int> = cfg.counts();
    let first: Seq<int> = seq![
        span_start(n[0], decomp[0], pos[0]),
        span_start(n[1], decomp[1], pos[1]),
        span_start(n[2], decomp[2], pos[2]),
    ];
    let nj: int = span_count(n[1], decomp[1], pos[1]);
    let nk: int = span_count(n[2], decomp[2], pos[2]);
    let ng: int = cfg.ng as int;
    Grid {
        ni: span_count(n[0], decomp[0], pos[0]),
        nj,
        nk,
        ng,
        dx: cfg.hi[0].minus_spec(cfg.lo[0]).over_spec(S::count_spec(n[0])),
        dy: local_widths(cfg.all_y_edges(), first[1], nj, ng),
        dz: local_widths(cfg.all_z_edges(), first[2], nk, ng),
        y: local_centers(cfg.all_y_edges(), first[1], nj, ng),
        z: local_centers(cfg.all_z_edges(), first[2], nk, ng),
        origin: cfg.lo@,
        offset: first,
        neighbor: Seq::new(6, |s: int| neighbor_rank(decomp, pos, s)),
        beyond: Seq::new(6, |s: int| neighbor_layers(n, decomp, pos, s)),
    }
}

/// `pos` is a position of the process grid `decomp`, whose ranks can be numbered.
pub open spec fn is_position(decomp: Seq<int>, pos: Seq<int>) -> bool {
    &&& forall|a: int| 0 <= a < 3 ==> 0 <= #[trigger] pos[a] < decomp[a]
    &&& decomp[0] * (decomp[1] * decomp[2]) <= i32::MAX
}

/// The part can be built: it has cells along y and z, and its indices are within
/// machine limits.
pub open spec fn can_build<S: Scalar>(
    cfg: Domain<S>,
    decomp: Seq<int>,
    pos: Seq<int>,
) -> bool {
    let g: Grid<S> = part_of(cfg, decomp, pos);
    &&& cfg.edges_match()
    &&& cfg.ny < usize::MAX
    &&& cfg.nz < usize::MAX
    &&& is_position(decomp, pos)
    &&& 1 <= g.nj
    &&& 1 <= g.nk
    &&& cell_count(g) <= usize::MAX
    &&& total_count(g, 0) <= usize::MAX
    &&& total_count(g, 1) < usize::MAX
    &&& total_count(g, 2) < usize::MAX
    &&& cfg.nx + 2 * cfg.ng <= i64::MAX
}

/// Structured Cartesian grid.
pub struct UniformMesh<S> {
    ni: usize,
    nj: usize,
    nk: usize,
    ng: usize,
    dx: S,
    dy_arr: Vec<S>,
    dz_arr: Vec<S>,
    y_arr: Vec<S>,
    z_arr: Vec<S>,
    origin: Vec3<S>,
    offset: [usize; 3],
    ni_total: usize,
    nj_total: usize,
    nk_total: usize,
    neighbor: [[i32; 2]; 3],
    beyond: [[usize; 2]; 3],
    halo: HaloPlan,
}

impl<S: Scalar> UniformMesh<S> {
    /// What the mesh represents.
    pub closed spec fn grid(&self) -> Grid<S> {
        Grid {
            ni: self.ni as int,
            nj: self.nj as int,
            nk: self.nk as int,
            ng: self.ng as int,
            dx: self.dx,
            dy: self.dy_arr@,
            dz: self.dz_arr@,
            y: self.y_arr@,
            z: self.z_arr@,
            origin: self.origin@,
            offset: cells_of(self.offset),
            neighbor: Seq::new(6, |s: int| self.neighbor[s / 2][s % 2] as int),
            beyond: Seq::new(6, |s: int| self.beyond[s / 2][s % 2] as int),
        }
    }

    /// The totals agree with the counts, and the model is sound.
    pub closed spec fn totals_agree(&self) -> bool {
        &&& self.ni_total == self.ni + 2 * self.ng
        &&& self.nj_total == self.nj + 2 * self.ng
        &&& self.nk_total == self.nk + 2 * self.ng
    }

    /// The stored halo plan is that of the model.
    pub closed spec fn has_plan(&self) -> bool {
        self.halo@ == all_links(self.grid())
    }

    /// Raw flat index from raw (ghost-inclusive) per-axis indices.
    fn raw_idx(&self, ir: usize, jr: usize, kr: usize) -> (r: usize)
        requires
            self.totals_agree(),
            is_sound(self.grid()),
            ir < total_count(self.grid(), 0),
            jr < total_count(self.grid(), 1),
            kr < total_count(self.grid(), 2),
        ensures
            r == raw(self.grid(), ir as int, jr as int, kr as int),
            r < cell_count(self.grid()),
    {
        proof {
            flat_is_inside(
                ir as int,
                jr as int,
                kr as int,
                self.ni_total as int,
                self.nj_total as int,
                self.nk_total as int,
            );
        }
        (ir * self.nj_total + jr) * self.nk_total + kr
    }

    /// Decompose a flat index back into raw per-axis indices.
    fn raw_ijk(&self, c: usize) -> (r: (usize, usize, usize))
        requires
            self.totals_agree(),
            is_sound(self.grid()),
            c < cell_count(self.grid()),
        ensures
            r.0 == raw_of(self.grid(), c as int, 0) < total_count(self.grid(), 0),
            r.1 == raw_of(self.grid(), c as int, 1) < total_count(self.grid(), 1),
            r.2 == raw_of(self.grid(), c as int, 2) < total_count(self.grid(), 2),
            raw(self.grid(), r.0 as int, r.1 as int, r.2 as int) == c,
    {
        proof {
            flat_joins(
                c as int,
                self.ni_total as int,
                self.nj_total as int,
                self.nk_total as int,
            );
        }
        let kr: usize = c % self.nk_total;
        let row: usize = c / self.nk_total;
        (row / self.nj_total, row % self.nj_total, kr)
    }

    /// Center along x for a raw index.
    fn x_center_raw(&self, ir: usize) -> (r: S)
        requires
            self.totals_agree(),
            is_sound(self.grid()),
            ir < total_count(self.grid(), 0),
        ensures
            r == x_center(self.grid(), ir as int),
    {
        let cell: i64 = self.offset[0] as i64 + ir as i64 - self.ng as i64;
        self.origin[0].plus(S::from_signed(cell).times(self.dx)).plus(self.dx.halved())
    }

    /// The cell with raw index `d` along `axis`, `d1` along the next axis and `d2`
    /// along the one after.
    fn turned_idx(&self, axis: usize, d: usize, d1: usize, d2: usize) -> (r: usize)
        requires
            self.totals_agree(),
            is_sound(self.grid()),
            axis < 3,
            d < total_count(self.grid(), axis as int),
            d1 < total_count(self.grid(), next_axis(axis as int)),
            d2 < total_count(self.grid(), next_axis(next_axis(axis as int))),
        ensures
            r == turned(self.grid(), axis as int, d as int, d1 as int, d2 as int),
            r < cell_count(self.grid()),
    {
        if axis == 0 {
            self.raw_idx(d, d1, d2)
        } else if axis == 1 {
            self.raw_idx(d2, d, d1)
        } else {
            self.raw_idx(d1, d2, d)
        }
    }

    /// The cells of the slab of `depth` layers across `axis` whose first layer has
    /// raw index `first`.
    fn slab_cells(&self, axis: usize, first: usize, depth: usize) -> (r: Vec<usize>)
        requires
            self.totals_agree(),
            is_sound(self.grid()),
            axis < 3,
            first + depth <= total_count(self.grid(), axis as int),
        ensures
            r@.map_values(|c: usize| c as int) == slab(
                self.grid(),
                axis as int,
                first as int,
                depth as int,
            ),
    {
        let ghost g: Grid<S> = self.grid();
        let n: [usize; 3] = [self.ni, self.nj, self.nk];
        let n1: usize = n[(axis + 1) % 3];
        let n2: usize = n[(axis + 2) % 3];
        let mut cells: Vec<usize> = Vec::new();
        let ghost a: int = axis as int;
        let ghost f: int = first as int;
        proof {
            assert(next_axis(next_axis(a)) == (a + 2) % 3);
            assert(n1 == interior_count(g, next_axis(a)));
            assert(n2 == interior_count(g, next_axis(next_axis(a))));
            flat_steps(0, 0, 0, n1 as int, n2 as int);
        }
        let mut layer: usize = 0;
        while layer < depth
            invariant
                self.totals_agree(),
                is_sound(g),
                g == self.grid(),
                a == axis < 3,
                f == first,
                first + depth <= total_count(g, a),
                n1 == interior_count(g, next_axis(a)),
                n2 == interior_count(g, next_axis(next_axis(a))),
                layer <= depth,
                cells@.len() == flat(layer as int, 0, 0, n1 as int, n2 as int),
                forall|t: int|
                    0 <= t < cells@.len() ==> #[trigger] cells@[t] == slab_cell(g, a, f, t),
            decreases depth - layer,
        {
            let mut i1: usize = 0;
            while i1 < n1
                invariant
                    self.totals_agree(),
                    is_sound(g),
                    g == self.grid(),
                    a == axis < 3,
                    f == first,
                    first + depth <= total_count(g, a),
                    n1 == interior_count(g, next_axis(a)),
                    n2 == interior_count(g, next_axis(next_axis(a))),
                    layer < depth,
                    i1 <= n1,
                    cells@.len() == flat(layer as int, i1 as int, 0, n1 as int, n2 as int),
                    forall|t: int|
                        0 <= t < cells@.len() ==> #[trigger] cells@[t] == slab_cell(g, a, f, t),
                decreases n1 - i1,
            {
                let mut i2: usize = 0;
                while i2 < n2
                    invariant
                        self.totals_agree(),
                        is_sound(g),
                        g == self.grid(),
                        a == axis < 3,
                        f == first,
                        first + depth <= total_count(g, a),
                        n1 == interior_count(g, next_axis(a)),
                        n2 == interior_count(g, next_axis(next_axis(a))),
                        layer < depth,
                        i1 < n1,
                        i2 <= n2,
                        cells@.len() == flat(
                            layer as int,
                            i1 as int,
                            i2 as int,
                            n1 as int,
                            n2 as int,
                        ),
                        forall|t: int|
                            0 <= t < cells@.len() ==> #[trigger] cells@[t] == slab_cell(g, a, f, t),
                    decreases n2 - i2,
                {
                    proof {
                        flat_splits(layer as int, i1 as int, i2 as int, n1 as int, n2 as int);
                        flat_steps(layer as int, i1 as int, i2 as int, n1 as int, n2 as int);
                    }
                    cells.push(
                        self.turned_idx(axis, first + layer, self.ng + i1, self.ng + i2),
                    );
                    i2 = i2 + 1;
                }
                proof {
                    flat_steps(layer as int, i1 as int, 0, n1 as int, n2 as int);
                }
                i1 = i1 + 1;
            }
            proof {
                flat_steps(layer as int, 0, 0, n1 as int, n2 as int);
            }
            layer = layer + 1;
        }
        proof {
            assert(flat(depth as int, 0, 0, n1 as int, n2 as int) == slab_size(g, a, depth as int));
            assert(cells@.map_values(|c: usize| c as int) =~= slab(g, a, f, depth as int));
        }
        cells
    }

    /// The layers that cross one side of `axis`.
    fn depth_at(&self, axis: usize, side: usize) -> (r: usize)
        requires
            is_sound(self.grid()),
            axis < 3,
            side < 2,
        ensures
            r == link_depth(self.grid(), 2 * axis + side),
            r <= self.ng,
            r <= interior_count(self.grid(), axis as int),
    {
        let n: [usize; 3] = [self.ni, self.nj, self.nk];
        let ghost g: Grid<S> = self.grid();
        proof {
            assert(n[axis as int] == interior_count(g, axis as int));
            assert(g.beyond[2 * axis + side] == self.beyond[axis as int][side as int]);
        }
        let beyond: usize = self.beyond[axis][side];
        let owned: usize = if n[axis] <= beyond {
            n[axis]
        } else {
            beyond
        };
        if self.ng <= owned {
            self.ng
        } else {
            owned
        }
    }

    /// The halo plan: per neighbor rank the outermost owned layers to send and the
    /// ghost layers next to them to receive into, no more than either rank owns. Both ends list a slab in the same order, so
    /// the flat buffers line up cell for cell.
    fn build_halo_plan(&self) -> (r: HaloPlan)
        requires
            self.totals_agree(),
            is_sound(self.grid()),
        ensures
            r@ == all_links(self.grid()),
    {
        let ghost g: Grid<S> = self.grid();
        let n: [usize; 3] = [self.ni, self.nj, self.nk];
        let mut links: Vec<HaloLink> = Vec::new();
        assert(links@.map_values(|link: HaloLink| link@) =~= links_upto(g, 0));
        let mut axis: usize = 0;
        while axis < 3
            invariant
                self.totals_agree(),
                is_sound(g),
                g == self.grid(),
                n == [self.ni, self.nj, self.nk],
                axis <= 3,
                links@.map_values(|link: HaloLink| link@) == links_upto(g, 2 * axis),
            decreases 3 - axis,
        {
            let ghost before: Seq<HaloLink> = links@;
            assert(n[axis as int] == interior_count(g, axis as int));
            assert(g.neighbor[2 * axis] == self.neighbor[axis as int][0]);
            assert(g.neighbor[2 * axis + 1] == self.neighbor[axis as int][1]);
            if self.neighbor[axis][0] >= 0 {
                let depth: usize = self.depth_at(axis, 0);
                let send_cells: Vec<usize> = self.slab_cells(axis, self.ng, depth);
                let recv_cells: Vec<usize> = self.slab_cells(axis, self.ng - depth, depth);
                let link: HaloLink = HaloLink {
                    rank: self.neighbor[axis][0],
                    send_cells,
                    recv_cells,
                };
                assert(link@ == side_link(g, axis as int, false));
                links.push(link);
            }
            assert(links@.map_values(|link: HaloLink| link@) =~= links_upto(g, 2 * axis + 1));
            if self.neighbor[axis][1] >= 0 {
                let depth: usize = self.depth_at(axis, 1);
                let end: usize = self.ng + n[axis];
                let send_cells: Vec<usize> = self.slab_cells(axis, end - depth, depth);
                let recv_cells: Vec<usize> = self.slab_cells(axis, end, depth);
                let link: HaloLink = HaloLink {
                    rank: self.neighbor[axis][1],
                    send_cells,
                    recv_cells,
                };
                assert(link@ == side_link(g, axis as int, true));
                links.push(link);
            }
            assert(links@.map_values(|link: HaloLink| link@) =~= links_upto(g, 2 * axis + 2));
            axis = axis + 1;
        }
        HaloPlan { links }
    }
}

/// The neighbor ranks of the rank at `pos` of the process grid `decomp`, by axis
/// and side; -1 where the process grid ends.
fn neighbor_table(decomp: [i32; 3], pos: [i32; 3]) -> (r: [[i32; 2]; 3])
    requires
        is_position(shape_of(decomp), shape_of(pos)),
    ensures
        forall|s: int|
            0 <= s < 6 ==> (#[trigger] r[s / 2][s % 2]) == neighbor_rank(
                shape_of(decomp),
                shape_of(pos),
                s,
            ),
{
    let ghost d: Seq<int> = shape_of(decomp);
    let ghost p: Seq<int> = shape_of(pos);
    proof {
        assert(0 <= p[0] < d[0]);
        assert(0 <= p[1] < d[1]);
        assert(0 <= p[2] < d[2]);
        assert(d[1] * d[2] <= d[0] * (d[1] * d[2])) by (nonlinear_arith)
            requires
                1 <= d[0],
                0 <= d[1] * d[2],
        ;
        assert(0 <= d[1] * d[2]) by (nonlinear_arith)
            requires
                1 <= d[1],
                1 <= d[2],
        ;
    }
    let mut r: [[i32; 2]; 3] = [[-1, -1], [-1, -1], [-1, -1]];
    if pos[0] > 0 {
        r[0][0] = rank_of(pos[0] - 1, pos[1], pos[2], decomp);
    }
    if pos[0] < decomp[0] - 1 {
        r[0][1] = rank_of(pos[0] + 1, pos[1], pos[2], decomp);
    }
    if pos[1] > 0 {
        r[1][0] = rank_of(pos[0], pos[1] - 1, pos[2], decomp);
    }
    if pos[1] < decomp[1] - 1 {
        r[1][1] = rank_of(pos[0], pos[1] + 1, pos[2], decomp);
    }
    if pos[2] > 0 {
        r[2][0] = rank_of(pos[0], pos[1], pos[2] - 1, decomp);
    }
    if pos[2] < decomp[2] - 1 {
        r[2][1] = rank_of(pos[0], pos[1], pos[2] + 1, decomp);
    }
    proof {
        assert forall|s: int| 0 <= s < 6 implies (#[trigger] r[s / 2][s % 2]) == neighbor_rank(
            d,
            p,
            s,
        ) by {
            assert(s == 0 || s == 1 || s == 2 || s == 3 || s == 4 || s == 5);
        }
    }
    r
}

/// The layers that the neighbors of the rank at `pos` own, by axis and side.
fn layer_table(global: [usize; 3], decomp: [i32; 3], pos: [i32; 3]) -> (r: [[usize; 2]; 3])
    requires
        is_position(shape_of(decomp), shape_of(pos)),
    ensures
        forall|s: int|
            0 <= s < 6 ==> (#[trigger] r[s / 2][s % 2]) == neighbor_layers(
                cells_of(global),
                shape_of(decomp),
                shape_of(pos),
                s,
            ),
{
    let ghost n: Seq<int> = cells_of(global);
    let ghost d: Seq<int> = shape_of(decomp);
    let ghost p: Seq<int> = shape_of(pos);
    let mut r: [[usize; 2]; 3] = [[0, 0], [0, 0], [0, 0]];
    let mut axis: usize = 0;
    while axis < 3
        invariant
            axis <= 3,
            n == cells_of(global),
            d == shape_of(decomp),
            p == shape_of(pos),
            is_position(d, p),
            forall|s: int|
                0 <= s < 2 * axis ==> (#[trigger] r[s / 2][s % 2]) == neighbor_layers(n, d, p, s),
        decreases 3 - axis,
    {
        let ghost before: [[usize; 2]; 3] = r;
        let ghost a: int = axis as int;
        assert(0 <= p[a] < d[a]);
        assert(n[a] == global[a] && d[a] == decomp[a] && p[a] == pos[a]);
        let parts: usize = decomp[axis] as usize;
        proof {
            if 0 < p[a] {
                span_is_inside(n[a], d[a], p[a] - 1);
            }
            if p[a] + 1 < d[a] {
                span_is_inside(n[a], d[a], p[a] + 1);
            }
        }
        let low: usize = if pos[axis] > 0 {
            partition_span(global[axis], parts, (pos[axis] - 1) as usize).1
        } else {
            0
        };
        let high: usize = if pos[axis] < decomp[axis] - 1 {
            partition_span(global[axis], parts, (pos[axis] + 1) as usize).1
        } else {
            0
        };
        r[axis] = [low, high];
        proof {
            assert forall|s: int| 0 <= s < 2 * axis + 2 implies (#[trigger] r[s / 2][s % 2])
                == neighbor_layers(n, d, p, s) by {
                if s < 2 * axis {
                    assert(r[s / 2] == before[s / 2]);
                } else {
                    assert(s / 2 == axis);
                }
            }
        }
        axis = axis + 1;
    }
    r
}

/// The rank at `(px, py, pz)` of the process grid `decomp`.
fn rank_of(px: i32, py: i32, pz: i32, decomp: [i32; 3]) -> (r: i32)
    requires
        0 <= px < decomp[0],
        0 <= py < decomp[1],
        0 <= pz < decomp[2],
        decomp[0] * (decomp[1] * decomp[2]) <= i32::MAX,
    ensures
        r == rank_at(px as int, py as int, pz as int, decomp[1] as int, decomp[2] as int),
        0 <= r < decomp[0] * (decomp[1] * decomp[2]),
{
    let ny: i32 = decomp[1];
    let nz: i32 = decomp[2];
    proof {
        let nx: int = decomp[0] as int;
        flat_is_inside(px as int, py as int, pz as int, nx, ny as int, nz as int);
        assert(nx * ny * nz == nx * (ny * nz)) by (nonlinear_arith);
        assert(px * (ny * nz) + py * nz + pz == (px * ny + py) * nz + pz) by (nonlinear_arith);
        assert(0 <= px * (ny * nz)) by (nonlinear_arith)
            requires
                0 <= px,
                0 < ny,
                0 < nz,
        ;
        assert(0 <= py * nz) by (nonlinear_arith)
            requires
                0 <= py,
                0 < nz,
        ;
        assert(0 <= ny * nz <= nx * (ny * nz)) by (nonlinear_arith)
            requires
                1 <= nx,
                0 < ny,
                0 < nz,
        ;
    }
    px * (ny * nz) + py * nz + pz
}

/// A neighbor never owns a negative number of layers.
proof fn neighbors_own_layers(n: Seq<int>, decomp: Seq<int>, pos: Seq<int>)
    requires
        is_position(decomp, pos),
        forall|a: int| 0 <= a < 3 ==> 0 <= #[trigger] n[a],
    ensures
        forall|s: int| 0 <= s < 6 ==> 0 <= #[trigger] neighbor_layers(n, decomp, pos, s),
{
    assert forall|s: int| 0 <= s < 6 implies 0 <= #[trigger] neighbor_layers(
        n,
        decomp,
        pos,
        s,
    ) by {
        let axis: int = s / 2;
        assert(0 <= pos[axis] < decomp[axis]);
        assert(0 <= n[axis]);
        if s % 2 == 1 && pos[axis] + 1 < decomp[axis] {
            span_is_inside(n[axis], decomp[axis], pos[axis] + 1);
        } else if s % 2 == 0 && 0 <= pos[axis] - 1 {
            span_is_inside(n[axis], decomp[axis], pos[axis] - 1);
        }
    }
}

impl<S: Scalar> UniformMesh<S> {
    /// Build a single-process mesh (no decomposition).
    pub fn from_config(cfg: &UniformMeshConfig<S>) -> (r: Self)
        requires
            can_build(cfg@, seq![1int, 1int, 1int], seq![0int, 0int, 0int]),
        ensures
            r.is_built(),
            is_sound(r.grid()),
            r.grid() == part_of(cfg@, seq![1int, 1int, 1int], seq![0int, 0int, 0int]),
    {
        proof {
            assert(shape_of([1i32, 1i32, 1i32]) =~= seq![1int, 1int, 1int]);
            assert(shape_of([0i32, 0i32, 0i32]) =~= seq![0int, 0int, 0int]);
        }
        UniformMesh::from_config_decomposed(cfg, [1, 1, 1], [0, 0, 0])
    }

    /// Build this rank's local partition for the given process-grid layout.
    pub fn from_config_decomposed(
        cfg: &UniformMeshConfig<S>,
        decomp: [i32; 3],
        pos: [i32; 3],
    ) -> (r: Self)
        requires
            can_build(cfg@, shape_of(decomp), shape_of(pos)),
        ensures
            r.is_built(),
            is_sound(r.grid()),
            r.grid() == part_of(cfg@, shape_of(decomp), shape_of(pos)),
    {
        let ghost d: Seq<int> = shape_of(decomp);
        let ghost p: Seq<int> = shape_of(pos);
        let ghost want: Grid<S> = part_of(cfg@, d, p);
        proof {
            assert(0 <= p[0] < d[0]);
            assert(0 <= p[1] < d[1]);
            assert(0 <= p[2] < d[2]);
            span_is_inside(cfg.nx as int, d[0], p[0]);
            span_is_inside(cfg.ny as int, d[1], p[1]);
            span_is_inside(cfg.nz as int, d[2], p[2]);
        }
        let lo: Vec3<S> = cfg.bounds_lo;
        let hi: Vec3<S> = cfg.bounds_hi;
        let dx: S = hi[0].minus(lo[0]).over(S::from_count(cfg.nx));
        let (x_first, ni): (usize, usize) = partition_span(
            cfg.nx,
            decomp[0] as usize,
            pos[0] as usize,
        );
        let (y_first, nj): (usize, usize) = partition_span(
            cfg.ny,
            decomp[1] as usize,
            pos[1] as usize,
        );
        let (z_first, nk): (usize, usize) = partition_span(
            cfg.nz,
            decomp[2] as usize,
            pos[2] as usize,
        );
        let ng: usize = cfg.ng;
        let y_edges: Vec<S> = build_global_edges(cfg.ny, lo[1], hi[1], &cfg.y_edges);
        let z_edges: Vec<S> = build_global_edges(cfg.nz, lo[2], hi[2], &cfg.z_edges);
        let (dy_arr, y_arr): (Vec<S>, Vec<S>) = build_local_arrays(&y_edges, nj, y_first, ng);
        let (dz_arr, z_arr): (Vec<S>, Vec<S>) = build_local_arrays(&z_edges, nk, z_first, ng);
        let mut mesh: UniformMesh<S> = UniformMesh {
            ni,
            nj,
            nk,
            ng,
            dx,
            dy_arr,
            dz_arr,
            y_arr,
            z_arr,
            origin: lo,
            offset: [x_first, y_first, z_first],
            ni_total: ni + 2 * ng,
            nj_total: nj + 2 * ng,
            nk_total: nk + 2 * ng,
            neighbor: neighbor_table(decomp, pos),
            beyond: layer_table([cfg.nx, cfg.ny, cfg.nz], decomp, pos),
            halo: HaloPlan::empty(),
        };
        proof {
            assert(cells_of([cfg.nx, cfg.ny, cfg.nz]) =~= cfg@.counts());
            assert(mesh.grid().neighbor =~= want.neighbor);
            assert(mesh.grid().beyond =~= want.beyond);
            neighbors_own_layers(cfg@.counts(), d, p);
            assert(mesh.grid().offset =~= want.offset);
            assert(mesh.grid() == want);
        }
        mesh.halo = mesh.build_halo_plan();
        mesh
    }

    /// The mesh was built in full: its totals agree and it holds its halo plan.
    pub closed spec fn is_built(&self) -> bool {
        self.totals_agree() && self.has_plan()
    }
}

/// A rank's place in a decomposed run: the process grid, the rank's position in it,
/// and its part of the mesh.
pub struct RankMesh<S> {
    /// The process grid.
    pub decomp: [i32; 3],
    /// The rank's position in it.
    pub pos: [i32; 3],
    /// The rank's part.
    pub mesh: UniformMesh<S>,
}

/// The position of `rank` in the process grid `decomp`.
pub open spec fn position_of(rank: int, decomp: Seq<int>) -> Seq<int> {
    seq![
        rank / (decomp[1] * decomp[2]),
        (rank / decomp[2]) % decomp[1],
        rank % decomp[2],
    ]
}

/// Factor the rank count into a process grid and build this rank's part. A serial
/// run has nothing to decompose.
pub fn decompose_mesh<S: Scalar>(
    cfg: &UniformMeshConfig<S>,
    rank: i32,
    size: i32,
) -> (r: Option<RankMesh<S>>)
    requires
        size > 1 ==> 0 <= rank < size && match process_grid(size as int, cfg@.counts()) {
            Some(decomp) => can_build(cfg@, decomp, position_of(rank as int, decomp)),
            None => false,
        },
    ensures
        r is Some <==> size > 1,
        r matches Some(part) ==> {
            let decomp: Seq<int> = shape_of(part.decomp);
            let pos: Seq<int> = shape_of(part.pos);
            &&& process_grid(size as int, cfg@.counts()) == Some(decomp)
            &&& rank_at(pos[0], pos[1], pos[2], decomp[1], decomp[2]) == rank
            &&& part.mesh.is_built()
            &&& is_sound(part.mesh.grid())
            &&& part.mesh.grid() == part_of(cfg@, decomp, pos)
        },
{
    if size <= 1 {
        return None;
    }
    let cells: [usize; 3] = [cfg.nx, cfg.ny, cfg.nz];
    proof {
        assert(cells_of(cells) =~= cfg@.counts());
        process_grid_has_size_ranks(size as int, cfg@.counts());
    }
    let decomp: [i32; 3] = factor_decomposition(size, cells);
    proof {
        let (nx, ny, nz): (int, int, int) = (
            decomp[0] as int,
            decomp[1] as int,
            decomp[2] as int,
        );
        assert(1 <= decomp[0] && 1 <= decomp[1] && 1 <= decomp[2]);
        assert(nx * (ny * nz) == nx * ny * nz && ny * nz <= nx * ny * nz) by (nonlinear_arith)
            requires
                nx >= 1,
                ny >= 1,
                nz >= 1,
        ;
        every_rank_has_a_position(rank as int, nx, ny, nz);
    }
    let pos: [i32; 3] = rank_position(rank, decomp);
    assert(shape_of(pos) =~= position_of(rank as int, shape_of(decomp)));
    let mesh: UniformMesh<S> = UniformMesh::from_config_decomposed(cfg, decomp, pos);
    Some(RankMesh { decomp, pos, mesh })
}

/// The cell edges of an axis: the given ones, or evenly spaced ones.
pub fn build_global_edges<S: Scalar>(n: usize, lo: S, hi: S, given: &Option<Vec<S>>) -> (r: Vec<S>)
    requires
        n < usize::MAX,
        given matches Some(e) ==> e@.len() == n + 1,
    ensures
        r@ == axis_edges(given_edges(*given), n as int, lo, hi),
{
    let ghost want: Seq<S> = axis_edges(given_edges(*given), n as int, lo, hi);
    let mut edges: Vec<S> = Vec::new();
    let mut i: usize = 0;
    while i <= n
        invariant
            i <= n + 1,
            n < usize::MAX,
            given matches Some(e) ==> e@.len() == n + 1,
            want == axis_edges(given_edges(*given), n as int, lo, hi),
            edges@.len() == i,
            forall|j: int| 0 <= j < i ==> #[trigger] edges@[j] == want[j],
        decreases n + 1 - i,
    {
        let e: S = match given {
            Some(list) => list[i],
            None => if i == n {
                hi
            } else {
                lo.plus(S::from_count(i).times(hi.minus(lo)).over(S::from_count(n)))
            },
        };
        edges.push(e);
        i = i + 1;
    }
    assert(edges@ =~= want);
    edges
}

/// Cell widths and centers, by raw index, of the `n` cells that start at `first`,
/// with `ng` extrapolated ghost cells on each side.
pub fn build_local_arrays<S: Scalar>(
    edges: &Vec<S>,
    n: usize,
    first: usize,
    ng: usize,
) -> (r: (Vec<S>, Vec<S>))
    requires
        1 <= n,
        first + n < edges@.len(),
        n + 2 * ng < usize::MAX,
    ensures
        r.0@ == local_widths(edges@, first as int, n as int, ng as int),
        r.1@ == local_centers(edges@, first as int, n as int, ng as int),
{
    let mut full: Vec<S> = Vec::new();
    let available: usize = edges.len();
    let d_left: S = edges[first + 1].minus(edges[first]);
    let d_right: S = edges[first + n].minus(edges[first + n - 1]);
    let total: usize = n + 2 * ng;
    let mut m: usize = 0;
    while m <= total
        invariant
            1 <= n,
            first + n < available,
            available == edges@.len(),
            total == n + 2 * ng < usize::MAX,
            m <= total + 1,
            d_left == edges@[first + 1].minus_spec(edges@[first as int]),
            d_right == edges@[first + n].minus_spec(edges@[first + n - 1]),
            full@.len() == m,
            forall|j: int|
                0 <= j < m ==> #[trigger] full@[j] == local_edge(
                    edges@,
                    first as int,
                    n as int,
                    ng as int,
                    j,
                ),
        decreases total + 1 - m,
    {
        let e: S = if m < ng {
            edges[first].minus(S::from_count(ng - m).times(d_left))
        } else if m <= ng + n {
            edges[first + (m - ng)]
        } else {
            edges[first + n].plus(S::from_count(m - ng - n).times(d_right))
        };
        full.push(e);
        m = m + 1;
    }
    let mut widths: Vec<S> = Vec::new();
    let mut centers: Vec<S> = Vec::new();
    let ghost want_widths: Seq<S> = local_widths(edges@, first as int, n as int, ng as int);
    let ghost want_centers: Seq<S> = local_centers(edges@, first as int, n as int, ng as int);
    let mut j: usize = 0;
    while j < total
        invariant
            total == n + 2 * ng < usize::MAX,
            j <= total,
            full@.len() == total + 1,
            forall|m: int|
                0 <= m <= total ==> #[trigger] full@[m] == local_edge(
                    edges@,
                    first as int,
                    n as int,
                    ng as int,
                    m,
                ),
            want_widths == local_widths(edges@, first as int, n as int, ng as int),
            want_centers == local_centers(edges@, first as int, n as int, ng as int),
            widths@.len() == j,
            centers@.len() == j,
            forall|m: int| 0 <= m < j ==> #[trigger] widths@[m] == want_widths[m],
            forall|m: int| 0 <= m < j ==> #[trigger] centers@[m] == want_centers[m],
        decreases total - j,
    {
        widths.push(full[j + 1].minus(full[j]));
        centers.push(full[j].plus(full[j + 1]).halved());
        j = j + 1;
    }
    assert(widths@ =~= want_widths);
    assert(centers@ =~= want_centers);
    (widths, centers)
}

/// Bracket `p` between two consecutive entries of `centers`: the index of the
/// lower one and the fraction within, or `None` outside the extent of the cells.
fn bracket_centers<S: Scalar>(p: S, centers: &Vec<S>, widths: &Vec<S>) -> (r: Option<(usize, S)>)
    requires
        widths@.len() == centers@.len(),
    ensures
        r is Some <==> is_inside(p, centers@, widths@),
        r matches Some((lo, t)) ==> lo == lower_center(p, centers@) && lo + 1 < centers@.len() && t
            == fraction_at(p, centers@, lo as int),
{
    let len: usize = centers.len();
    if len < 2 || p.less(centers[0].minus(widths[0].halved())) || centers[len - 1].plus(
        widths[len - 1].halved(),
    ).less(p) {
        return None;
    }
    let below: bool = p.less(centers[0]);
    let mut lo: usize = if below {
        0
    } else {
        len - 2
    };
    let mut found: bool = below;
    let mut j: usize = 0;
    while j < len - 1 && !found
        invariant
            2 <= len == centers@.len(),
            j <= len - 1,
            below == p.less_spec(centers@[0]),
            below ==> found && lo == 0,
            found && !below ==> lo < len - 1 && interval_of(p, centers@, len - 1) == Some(
                lo as int,
            ),
            !found ==> lo == len - 2 && interval_of(p, centers@, j as int) is None,
        decreases len - j,
    {
        if centers[j].at_most(p) && p.less(centers[j + 1]) {
            lo = j;
            found = true;
            proof {
                interval_stays(p, centers@, j as int + 1, len - 1);
            }
        }
        j = j + 1;
    }
    let gap: S = centers[lo + 1].minus(centers[lo]);
    let t: S = if gap.less(S::tiny()) && gap.negated().less(S::tiny()) {
        S::zero()
    } else {
        clamp_unit(p.minus(centers[lo]).over(gap))
    };
    Some((lo, t))
}

/// An interval that was found early is the one that is found.
proof fn interval_stays<S: Scalar>(p: S, centers: Seq<S>, a: int, b: int)
    requires
        a <= b,
        interval_of(p, centers, a) is Some,
    ensures
        interval_of(p, centers, b) == interval_of(p, centers, a),
    decreases b - a,
{
    if a < b {
        interval_stays(p, centers, a, b - 1);
    }
}

/// `x` limited to the range from zero to one.
fn clamp_unit<S: Scalar>(x: S) -> (r: S)
    ensures
        r == clamped(x),
{
    if x.less(S::zero()) {
        S::zero()
    } else if S::one().less(x) {
        S::one()
    } else {
        x
    }
}

impl<S: Scalar> UniformMesh<S> {
    /// The faces that interior cell `(i, j, k)` presents along `axis`.
    fn push_axis_faces(&self, i: usize, j: usize, k: usize, axis: usize, out: &mut Vec<Face<S>>)
        requires
            self.totals_agree(),
            is_sound(self.grid()),
            1 <= self.grid().ng,
            i < self.grid().ni,
            j < self.grid().nj,
            k < self.grid().nk,
            axis < 3,
        ensures
            final(out)@ == old(out)@ + axis_faces(
                self.grid(),
                i as int,
                j as int,
                k as int,
                axis as int,
            ),
    {
        let ghost g: Grid<S> = self.grid();
        let ng: usize = self.ng;
        let owner: usize = self.raw_idx(i + ng, j + ng, k + ng);
        let dx: S = self.dx;
        let dy: S = self.dy_arr[j + ng];
        let dz: S = self.dz_arr[k + ng];
        let x: S = self.x_center_raw(i + ng);
        let y: S = self.y_arr[j + ng];
        let z: S = self.z_arr[k + ng];
        let o: S = S::zero();
        assert(g.neighbor[2 * axis] == self.neighbor[axis as int][0]);
        assert(g.neighbor[2 * axis + 1] == self.neighbor[axis as int][1]);
        let at: [usize; 3] = [i, j, k];
        let n: [usize; 3] = [self.ni, self.nj, self.nk];
        let low: bool = at[axis] == 0;
        let high_patch: Option<u32> = if at[axis] + 1 == n[axis] && self.neighbor[axis][1] < 0 {
            Some(2 * axis as u32 + 1)
        } else {
            None
        };
        let low_patch: Option<u32> = if self.neighbor[axis][0] < 0 {
            Some(2 * axis as u32)
        } else {
            None
        };
        if axis == 0 {
            let area: S = dy.times(dz);
            let half: S = dx.halved();
            out.push(
                Face {
                    owner,
                    other: self.raw_idx(i + ng + 1, j + ng, k + ng),
                    area_normal: [area, o, o],
                    centroid: [x.plus(half), y, z],
                    patch: high_patch,
                },
            );
            if low {
                out.push(
                    Face {
                        owner,
                        other: self.raw_idx(i + ng - 1, j + ng, k + ng),
                        area_normal: [area.negated(), o, o],
                        centroid: [x.minus(half), y, z],
                        patch: low_patch,
                    },
                );
            }
        } else if axis == 1 {
            let area: S = dx.times(dz);
            let half: S = dy.halved();
            out.push(
                Face {
                    owner,
                    other: self.raw_idx(i + ng, j + ng + 1, k + ng),
                    area_normal: [o, area, o],
                    centroid: [x, y.plus(half), z],
                    patch: high_patch,
                },
            );
            if low {
                out.push(
                    Face {
                        owner,
                        other: self.raw_idx(i + ng, j + ng - 1, k + ng),
                        area_normal: [o, area.negated(), o],
                        centroid: [x, y.minus(half), z],
                        patch: low_patch,
                    },
                );
            }
        } else {
            let area: S = dx.times(dy);
            let half: S = dz.halved();
            out.push(
                Face {
                    owner,
                    other: self.raw_idx(i + ng, j + ng, k + ng + 1),
                    area_normal: [o, o, area],
                    centroid: [x, y, z.plus(half)],
                    patch: high_patch,
                },
            );
            if low {
                out.push(
                    Face {
                        owner,
                        other: self.raw_idx(i + ng, j + ng, k + ng - 1),
                        area_normal: [o, o, area.negated()],
                        centroid: [x, y, z.minus(half)],
                        patch: low_patch,
                    },
                );
            }
        }
        proof {
            let a: int = axis as int;
            let first: int = old(out)@.len() as int;
            assert(out@[first] == high_face(g, i as int, j as int, k as int, a));
            if low {
                assert(out@[first + 1] == low_face(g, i as int, j as int, k as int, a));
            }
            assert(out@ =~= old(out)@ + axis_faces(g, i as int, j as int, k as int, a));
        }
    }
}

impl<S: Scalar> FvMesh<S> for UniformMesh<S> {
    open spec fn valid(&self) -> bool {
        self.is_built() && is_sound(self.grid())
    }

    open spec fn owned(&self) -> Seq<bool> {
        interior_mask(self.grid())
    }

    open spec fn volume_of(&self, c: int) -> S {
        volume_at(self.grid(), raw_of(self.grid(), c, 1), raw_of(self.grid(), c, 2))
    }

    open spec fn centroid_of(&self, c: int) -> Seq<S> {
        center_at(
            self.grid(),
            raw_of(self.grid(), c, 0),
            raw_of(self.grid(), c, 1),
            raw_of(self.grid(), c, 2),
        )
    }

    /// The cells at the low ends have a ghost cell beyond them, unless there are
    /// no cells.
    open spec fn has_faces(&self) -> bool {
        self.grid().ng >= 1 || self.grid().ni == 0
    }

    open spec fn face_list(&self) -> Seq<Face<S>> {
        all_faces(self.grid())
    }

    closed spec fn plan(&self) -> HaloPlan {
        self.halo
    }

    fn n_local_cells(&self) -> (r: usize) {
        let ghost g: Grid<S> = self.grid();
        proof {
            interior_is_counted(g);
            let t0: int = total_count(g, 0);
            let t1: int = total_count(g, 1);
            let t2: int = total_count(g, 2);
            assert(0 <= g.ni * g.nj <= t0 * t1) by (nonlinear_arith)
                requires
                    0 <= g.ni <= t0,
                    0 <= g.nj <= t1,
            ;
            assert(g.ni * g.nj * g.nk <= t0 * t1 * t2) by (nonlinear_arith)
                requires
                    0 <= g.ni * g.nj <= t0 * t1,
                    0 <= g.nk <= t2,
            ;
            assert(g.ni * g.nj <= g.ni * g.nj * g.nk) by (nonlinear_arith)
                requires
                    0 <= g.ni * g.nj,
                    1 <= g.nk,
            ;
        }
        self.ni * self.nj * self.nk
    }

    fn n_cells_total(&self) -> (r: usize) {
        proof {
            let g: Grid<S> = self.grid();
            let t0: int = total_count(g, 0);
            let t1: int = total_count(g, 1);
            let t2: int = total_count(g, 2);
            assert(0 <= t0 * t1) by (nonlinear_arith)
                requires
                    0 <= t0,
                    0 <= t1,
            ;
            assert(t0 * t1 <= t0 * t1 * t2) by (nonlinear_arith)
                requires
                    0 <= t0 * t1,
                    1 <= t2,
            ;
        }
        self.ni_total * self.nj_total * self.nk_total
    }

    fn is_local_cell(&self, c: usize) -> (r: bool) {
        let (ir, jr, kr): (usize, usize, usize) = self.raw_ijk(c);
        let ng: usize = self.ng;
        ir >= ng && ir < ng + self.ni && jr >= ng && jr < ng + self.nj && kr >= ng && kr < ng
            + self.nk
    }

    fn cell_volume(&self, c: usize) -> (r: S) {
        let (_, jr, kr): (usize, usize, usize) = self.raw_ijk(c);
        self.dx.times(self.dy_arr[jr]).times(self.dz_arr[kr])
    }

    fn cell_centroid(&self, c: usize) -> (r: Vec3<S>) {
        let (ir, jr, kr): (usize, usize, usize) = self.raw_ijk(c);
        let r: Vec3<S> = [self.x_center_raw(ir), self.y_arr[jr], self.z_arr[kr]];
        assert(r@ =~= self.centroid_of(c as int));
        r
    }

    /// For each interior cell its high-side faces, plus the low-side faces of the
    /// cells at the low ends. A face at either end is a physical boundary face
    /// only where there is no neighbor rank on that side.
    fn faces(&self) -> (r: Vec<Face<S>>) {
        let ghost g: Grid<S> = self.grid();
        let mut out: Vec<Face<S>> = Vec::new();
        proof {
            flat_steps(0, 0, 0, g.nj, g.nk);
        }
        let mut i: usize = 0;
        while i < self.ni
            invariant
                self.valid(),
                self.has_faces(),
                g == self.grid(),
                i <= self.ni,
                out@ == faces_upto(g, flat(i as int, 0, 0, g.nj, g.nk)),
            decreases self.ni - i,
        {
            let mut j: usize = 0;
            while j < self.nj
                invariant
                    self.valid(),
                    self.has_faces(),
                    g == self.grid(),
                    i < self.ni,
                    j <= self.nj,
                    out@ == faces_upto(g, flat(i as int, j as int, 0, g.nj, g.nk)),
                decreases self.nj - j,
            {
                let mut k: usize = 0;
                while k < self.nk
                    invariant
                        self.valid(),
                        self.has_faces(),
                        g == self.grid(),
                        i < self.ni,
                        j < self.nj,
                        k <= self.nk,
                        out@ == faces_upto(g, flat(i as int, j as int, k as int, g.nj, g.nk)),
                    decreases self.nk - k,
                {
                    let ghost before: Seq<Face<S>> = out@;
                    proof {
                        flat_splits(i as int, j as int, k as int, g.nj, g.nk);
                        flat_steps(i as int, j as int, k as int, g.nj, g.nk);
                        flat_is_inside(i as int, j as int, k as int, g.ni, g.nj, g.nk);
                    }
                    self.push_axis_faces(i, j, k, 0, &mut out);
                    self.push_axis_faces(i, j, k, 1, &mut out);
                    self.push_axis_faces(i, j, k, 2, &mut out);
                    assert(out@ =~= before + cell_faces(g, i as int, j as int, k as int));
                    k = k + 1;
                }
                proof {
                    flat_steps(i as int, j as int, 0, g.nj, g.nk);
                }
                j = j + 1;
            }
            proof {
                flat_steps(i as int, 0, 0, g.nj, g.nk);
            }
            i = i + 1;
        }
        proof {
            assert(flat(g.ni, 0, 0, g.nj, g.nk) == g.ni * g.nj * g.nk);
        }
        out
    }

    fn halo_plan(&self) -> (r: &HaloPlan)
        ensures
            r@ == all_links(self.grid()),
    {
        &self.halo
    }
}

impl<S: Scalar> StructuredMesh<S> for UniformMesh<S> {
    open spec fn dim(&self, axis: int) -> int {
        interior_count(self.grid(), axis)
    }

    open spec fn ghosts(&self) -> int {
        self.grid().ng
    }

    open spec fn raw_index(&self, ir: int, jr: int, kr: int) -> int {
        raw(self.grid(), ir, jr, kr)
    }

    open spec fn width_of(&self, axis: int, n: int) -> S {
        width_at(self.grid(), axis, n)
    }

    open spec fn bracket_of(&self, point: Vec3<S>) -> Option<Bracket<S>> {
        bracket_at(self.grid(), point)
    }

    fn dims(&self) -> (r: [usize; 3]) {
        [self.ni, self.nj, self.nk]
    }

    fn n_ghost(&self) -> (r: usize) {
        self.ng
    }

    fn total_dims(&self) -> (r: [usize; 3]) {
        [self.ni_total, self.nj_total, self.nk_total]
    }

    fn idx(&self, i: usize, j: usize, k: usize) -> (r: usize) {
        self.raw_idx(i + self.ng, j + self.ng, k + self.ng)
    }

    fn idx_raw(&self, ir: usize, jr: usize, kr: usize) -> (r: usize) {
        self.raw_idx(ir, jr, kr)
    }

    fn spacing(&self, axis: usize, n: usize) -> (r: S) {
        if axis == 0 {
            self.dx
        } else if axis == 1 {
            self.dy_arr[n + self.ng]
        } else {
            self.dz_arr[n + self.ng]
        }
    }

    fn locate(&self, point: Vec3<S>) -> (r: Option<([usize; 3], [S; 3])>) {
        let at: S = point[0].minus(self.origin[0]).over(self.dx).minus(S::one().halved()).minus(
            S::from_count(self.offset[0]),
        ).plus(S::from_count(self.ng));
        let half: S = S::one().halved();
        if self.ni_total < 2 || at.less(half.negated()) || S::from_count(self.ni_total).minus(
            half,
        ).less(at) {
            return None;
        }
        let below: S = at.floored();
        let guess: usize = below.to_index();
        let (i_lo, tx): (usize, S) = if below.less(S::zero()) {
            (0, S::zero())
        } else if guess < self.ni_total - 1 {
            (guess, clamp_unit(at.minus(below)))
        } else {
            (self.ni_total - 2, S::one())
        };
        let (j_lo, ty): (usize, S) = match bracket_centers(point[1], &self.y_arr, &self.dy_arr) {
            Some(b) => b,
            None => {
                return None;
            },
        };
        let (k_lo, tz): (usize, S) = match bracket_centers(point[2], &self.z_arr, &self.dz_arr) {
            Some(b) => b,
            None => {
                return None;
            },
        };
        let t: [S; 3] = [tx, ty, tz];
        proof {
            let b: Bracket<S> = Bracket {
                lo: seq![i_lo as int, j_lo as int, k_lo as int],
                t: seq![tx, ty, tz],
            };
            assert(bracket_at(self.grid(), point) == Some(b));
            assert(t@ =~= b.t);
        }
        Some(([i_lo, j_lo, k_lo], t))
    }
}

} // verus!
