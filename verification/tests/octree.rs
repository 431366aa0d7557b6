//! Meshes over forests of octrees, and carrying fields over to adapted ones.

use field::forest::{
    marked_ranks, DirNeighbors, Face, FinerSet, ForestLayout, LeafInfo, NeighborSet, RawNeighbors,
    NEIGHBOR_COARSER, NEIGHBOR_FINER, NEIGHBOR_GHOST, NEIGHBOR_SAME,
};
use field::mesh::{AdaptiveMesh, CartesianMesh, FvMesh};
use field::octree::{ForestMesh, ForestState};
use field::regrid::{locate_in, transfer_recursive};
use field::scalar::Scalar;

/// Double precision as a scalar.
#[derive(Clone, Copy, Debug, PartialEq)]
struct F(f64);

impl Scalar for F {
    fn zero() -> Self {
        F(0.0)
    }
    fn one() -> Self {
        F(1.0)
    }
    fn tiny() -> Self {
        F(1e-30)
    }
    fn slop() -> Self {
        F(1e-9)
    }
    fn from_count(n: usize) -> Self {
        F(n as f64)
    }
    fn from_signed(n: i64) -> Self {
        F(n as f64)
    }
    fn plus(self, rhs: Self) -> Self {
        F(self.0 + rhs.0)
    }
    fn minus(self, rhs: Self) -> Self {
        F(self.0 - rhs.0)
    }
    fn times(self, rhs: Self) -> Self {
        F(self.0 * rhs.0)
    }
    fn over(self, rhs: Self) -> Self {
        F(self.0 / rhs.0)
    }
    fn negated(self) -> Self {
        F(-self.0)
    }
    fn halved(self) -> Self {
        F(0.5 * self.0)
    }
    fn floored(self) -> Self {
        F(self.0.floor())
    }
    fn root(self) -> Self {
        F(self.0.sqrt())
    }
    fn to_index(self) -> usize {
        self.0 as usize
    }
    fn less(self, rhs: Self) -> bool {
        self.0 < rhs.0
    }
    fn at_most(self, rhs: Self) -> bool {
        self.0 <= rhs.0
    }
    fn equals(self, rhs: Self) -> bool {
        self.0 == rhs.0
    }
}

fn fv(v: [f64; 3]) -> [F; 3] {
    [F(v[0]), F(v[1]), F(v[2])]
}

/// A brick of root trees, each whole or split into eight leaves.
struct Brick {
    trees: [usize; 3],
    lo: [f64; 3],
    hi: [f64; 3],
    split: Vec<bool>,
}

impl Brick {
    fn new(
        trees: [usize; 3],
        lo: [f64; 3],
        hi: [f64; 3],
        criterion: fn(f64, f64, f64, f64) -> bool,
    ) -> Brick {
        let mut b = Brick { trees, lo, hi, split: Vec::new() };
        for t in 0..trees[0] * trees[1] * trees[2] {
            let c = b.corner(t);
            let e = b.extent();
            b.split.push(criterion(
                c[0] + 0.5 * e[0],
                c[1] + 0.5 * e[1],
                c[2] + 0.5 * e[2],
                e[0],
            ));
        }
        b
    }

    fn extent(&self) -> [f64; 3] {
        [0, 1, 2].map(|d| (self.hi[d] - self.lo[d]) / self.trees[d] as f64)
    }

    fn at(&self, t: usize) -> [usize; 3] {
        [t % self.trees[0], t / self.trees[0] % self.trees[1], t / self.trees[0] / self.trees[1]]
    }

    fn corner(&self, t: usize) -> [f64; 3] {
        let (p, e) = (self.at(t), self.extent());
        [0, 1, 2].map(|d| self.lo[d] + p[d] as f64 * e[d])
    }

    fn first_leaf(&self, t: usize) -> usize {
        self.split[..t].iter().map(|s| if *s { 8 } else { 1 }).sum()
    }

    /// The tree across face `dir` of tree `t`.
    fn beside(&self, t: usize, dir: usize) -> Option<usize> {
        let mut p = self.at(t);
        let (d, high) = (dir / 2, dir % 2 == 1);
        if high {
            if p[d] + 1 == self.trees[d] {
                return None;
            }
            p[d] += 1;
        } else {
            if p[d] == 0 {
                return None;
            }
            p[d] -= 1;
        }
        Some((p[2] * self.trees[1] + p[1]) * self.trees[0] + p[0])
    }

    /// What a single rank reports of the brick.
    fn report(&self) -> ForestState<F> {
        let e = self.extent();
        let mut leaves = Vec::new();
        let mut sides = Vec::new();
        for t in 0..self.split.len() {
            let c = self.corner(t);
            let parts = if self.split[t] { 2usize } else { 1 };
            for q in 0..parts * parts * parts {
                let s = [q % parts, q / parts % parts, q / parts / parts];
                let size = [0, 1, 2].map(|d| e[d] / parts as f64);
                let center = [0, 1, 2].map(|d| c[d] + (s[d] as f64 + 0.5) * size[d]);
                leaves.push(LeafInfo {
                    tree_id: t as i32,
                    level: parts as i8 - 1,
                    center: fv(center),
                    size: fv(size),
                });
                for dir in 0..6 {
                    sides.push(self.side(t, s, parts, dir));
                }
            }
        }
        ForestState {
            leaves,
            ghosts: Vec::new(),
            sides,
            mpisize: 1,
            mpirank: 0,
            recv_off: vec![0, 0],
            send_off: vec![0, 0],
            send_locals: Vec::new(),
        }
    }

    fn side(&self, t: usize, s: [usize; 3], parts: usize, dir: usize) -> NeighborSet {
        let (d, high) = (dir / 2, dir % 2 == 1);
        let child = |s: [usize; 3]| s[0] + 2 * s[1] + 4 * s[2];
        let mut across = s;
        across[d] = 1 - s[d].min(1);
        if parts == 2 && (s[d] == 0) == high {
            return NeighborSet::Same(self.first_leaf(t) + child(across));
        }
        let n = match self.beside(t, dir) {
            None => return NeighborSet::Boundary,
            Some(n) => n,
        };
        let first = self.first_leaf(n);
        match (parts, self.split[n]) {
            (1, false) => NeighborSet::Same(first),
            (2, false) => NeighborSet::Coarser(first),
            (2, true) => NeighborSet::Same(first + child(across)),
            _ => {
                let mut idx = [0usize; 4];
                for h in 0..4 {
                    let mut s = [0usize; 3];
                    s[d] = if high { 0 } else { 1 };
                    s[(d + 1) % 3] = h % 2;
                    s[(d + 2) % 3] = h / 2;
                    idx[h] = first + child(s);
                }
                NeighborSet::Finer(FinerSet { idx, ghost_mask: 0 })
            }
        }
    }
}

fn refined_brick() -> Brick {
    Brick::new([4, 4, 1], [0.0, 0.0, 0.0], [1.0, 1.0, 0.25], |cx, cy, _cz, _h| {
        ((cx - 0.5).powi(2) + (cy - 0.5).powi(2)).sqrt() < 0.22
    })
}

#[test]
fn p4est_forest_mesh_is_closed_and_conservative() {
    let mesh = ForestMesh::new(&refined_brick().report());

    // Mixed refinement levels.
    let (coarse, fine) = mesh.level_counts();
    assert!(fine > 0 && coarse > 0, "expected mixed levels: {coarse} coarse + {fine} fine");

    // On one rank the local cells are the leaves, and nothing is exchanged.
    assert_eq!(mesh.n_local_cells(), refined_brick().report().leaves.len());
    assert!(mesh.halo_plan().is_serial());

    // Interior leaf volumes tile the domain exactly.
    let vol: f64 = (0..mesh.n_cells_total())
        .filter(|&c| mesh.is_local_cell(c))
        .map(|c| mesh.cell_volume(c).0)
        .sum();
    assert!((vol - 0.25).abs() < 1e-9, "interior volume {vol} != domain 0.25");

    // Per-cell geometric closure and structural flux conservation.
    let n = mesh.n_cells_total();
    let area =
        |an: [F; 3]| (an[0].0 * an[0].0 + an[1].0 * an[1].0 + an[2].0 * an[2].0).sqrt();
    let mut net = vec![[0.0f64; 3]; n];
    let mut rhs = vec![0.0f64; n];
    for f in mesh.faces() {
        let a = area(f.area_normal);
        for d in 0..3 {
            net[f.owner][d] -= f.area_normal[d].0;
        }
        rhs[f.owner] -= a / mesh.cell_volume(f.owner).0;
        if f.patch.is_none() && mesh.is_local_cell(f.other) {
            for d in 0..3 {
                net[f.other][d] += f.area_normal[d].0;
            }
            rhs[f.other] += a / mesh.cell_volume(f.other).0;
        }
    }
    for c in 0..n {
        if mesh.is_local_cell(c) {
            for d in 0..3 {
                assert!(net[c][d].abs() < 1e-9, "cell {c} not closed on axis {d}: {}", net[c][d]);
            }
        }
    }
    let total: f64 = (0..n)
        .filter(|&c| mesh.is_local_cell(c))
        .map(|c| rhs[c] * mesh.cell_volume(c).0)
        .sum();
    let mut boundary = 0.0;
    for f in mesh.faces() {
        if f.patch.is_some() {
            boundary += area(f.area_normal);
        }
    }
    assert!(
        (total + boundary).abs() < 1e-9,
        "non-conservative face list: total = {total}, -boundary = {}",
        -boundary
    );

    // The coarse/fine interface faces are listed.
    let n_cf = mesh.coarse_fine_faces().len();
    assert!(n_cf > 0, "expected coarse/fine faces from the refined forest");
}

#[test]
fn p4est_ghost_layer_plumbing_is_serial_noop_on_one_rank() {
    let state = refined_brick().report();
    assert_eq!(state.mpisize, 1);
    assert_eq!(state.mpirank, 0);
    assert_eq!(state.ghosts.len(), 0, "no off-rank ghosts on a single rank");
    assert_eq!(state.recv_off, vec![0, 0], "proc_offsets is [0,0] for mpisize 1");
    assert_eq!(state.send_off, vec![0, 0]);
    assert!(state.send_locals.is_empty());

    let n_local = state.leaves.len();
    let mesh = ForestMesh::new(&state);
    assert!(mesh.halo_plan().is_serial(), "single-rank halo plan must be empty");
    assert_eq!(mesh.n_local_cells(), n_local);
}

#[test]
fn levels_and_pairs_are_counted() {
    let mesh = ForestMesh::new(&refined_brick().report());
    assert_eq!(mesh.level_counts(), (12, 32));
    assert_eq!(mesh.cross_rank_refinement_faces(), 0);
    // Each of the four refined trees has two coarse neighbors, four sub-faces each.
    assert_eq!(mesh.coarse_fine_faces().len(), 4 * 2 * 4);
    for p in mesh.coarse_fine_faces() {
        assert_eq!((mesh.cell_level(p.coarse), mesh.cell_level(p.fine)), (0, 1));
    }
    assert_eq!(mesh.interior_geometry().len(), 44);
    assert_eq!(mesh.interior_geometry()[0], (fv([0.125; 3]), fv([0.25; 3])));
    assert_eq!(mesh.cell_size_at(0), fv([0.25; 3]));
}

fn leaf(level: i8, center: [f64; 3], size: [f64; 3]) -> LeafInfo<F> {
    LeafInfo { tree_id: 0, level, center: fv(center), size: fv(size) }
}

/// A coarse leaf next to four fine ones, of which one is on another rank, and next
/// to a coarse leaf of a third rank.
fn split_state() -> ForestState<F> {
    let mut sides = vec![NeighborSet::Boundary; 6];
    sides[0] = NeighborSet::Remote(1);
    sides[1] = NeighborSet::Finer(FinerSet { idx: [7, 8, 0, 9], ghost_mask: 0b0100 });
    sides[2] = NeighborSet::Remote(5);
    ForestState {
        leaves: vec![leaf(-1, [1.0, 1.0, 1.0], [2.0, 4.0, 8.0])],
        ghosts: vec![
            leaf(1, [2.5, 0.5, 1.5], [1.0, 2.0, 4.0]),
            leaf(0, [-1.0, 1.0, 1.0], [2.0, 4.0, 8.0]),
        ],
        sides,
        mpisize: 4,
        mpirank: 1,
        recv_off: vec![0, 0, 0, 1, 2],
        send_off: vec![0, 0, 0, 1, 2],
        send_locals: vec![0, 0],
    }
}

#[test]
fn faces_to_other_ranks_lead_to_the_ghost_layer() {
    let mesh = ForestMesh::new(&split_state());
    let faces = mesh.faces();
    // One remote face, one fine sub-face, three boundary faces; the side whose
    // ghost does not exist has none.
    assert_eq!(faces.len(), 5);
    assert_eq!((faces[0].owner, faces[0].other, faces[0].patch), (0, 2, None));
    assert_eq!(faces[0].area_normal, fv([-32.0, 0.0, 0.0]));
    assert_eq!(faces[0].centroid, fv([0.0, 1.0, 1.0]));
    assert_eq!((faces[1].owner, faces[1].other, faces[1].patch), (0, 1, None));
    assert_eq!(faces[1].area_normal, fv([8.0, 0.0, 0.0]));
    assert_eq!(faces[1].centroid, fv([3.0, 0.5, 1.5]));
    assert_eq!((faces[2].other, faces[2].patch), (3, Some(3)));
    // The mirrored cell of the high y side.
    assert_eq!(mesh.cell_centroid(3), fv([1.0, 5.0, 1.0]));
    assert!(!mesh.is_local_cell(3));
    assert_eq!(mesh.n_cells_total(), 6);
    assert_eq!(mesh.n_local_cells(), 1);
    assert_eq!(mesh.cell_level(0), 0);
    assert_eq!(mesh.cross_rank_refinement_faces(), 1);
    assert!(mesh.coarse_fine_faces().is_empty());
}

#[test]
fn stencils_list_the_cells_across_each_face() {
    let mesh = ForestMesh::new(&split_state());
    // Across a rank boundary there is no stencil, nor where one of the finer
    // neighbors is on another rank.
    assert!(mesh.axis_neighbors(0, 0, false).is_empty());
    assert!(mesh.axis_neighbors(0, 0, true).is_empty());
    assert!(mesh.axis_neighbors(0, 1, false).is_empty());
    assert_eq!(mesh.axis_neighbors(0, 1, true), &[3]);
    assert_eq!(mesh.axis_neighbors(0, 2, true), &[5]);
    assert!(mesh.axis_neighbors(1, 0, true).is_empty());
}

#[test]
fn links_join_ghosts_to_mirrors() {
    let mesh = ForestMesh::new(&split_state());
    let plan = mesh.halo_plan();
    assert_eq!(plan.links.len(), 2);
    assert_eq!(plan.links[0].rank, 2);
    assert_eq!(plan.links[0].recv_cells, vec![1]);
    assert_eq!(plan.links[0].send_cells, vec![0]);
    assert_eq!(plan.links[1].rank, 3);
    assert_eq!(plan.links[1].recv_cells, vec![2]);
}

#[test]
fn rebuilding_takes_over_the_new_forest() {
    let mut mesh = ForestMesh::new(&split_state());
    mesh.rebuild(&refined_brick().report());
    assert_eq!(mesh.level_counts(), (12, 32));
    assert!(mesh.halo_plan().is_serial());
}

#[test]
fn forest_layout_tree_extent() {
    let layout = ForestLayout {
        trees_x: 5,
        trees_y: 8,
        trees_z: 1,
        xmin: F(0.0),
        xmax: F(2.5e-3),
        ymin: F(0.0),
        ymax: F(4.0e-3),
        zmin: F(0.0),
        zmax: F(0.5e-3),
        min_level: 3,
    };
    let e = layout.tree_extent();
    assert!((e[0].0 - 0.5e-3).abs() < 1e-12);
    assert!((e[1].0 - 0.5e-3).abs() < 1e-12);
    assert!((e[2].0 - 0.5e-3).abs() < 1e-12);
    assert_eq!(layout.n_trees(), 40);
    assert_eq!(layout.uniform_count_at_level(0), 40);
    assert_eq!(layout.uniform_count_at_level(3), 40 * 512);
}

#[test]
fn neighbor_records_are_decoded() {
    let mut raw = RawNeighbors::unfilled();
    assert_eq!(raw.decode(), NeighborSet::Boundary);
    raw.idx = [4, 5, 6, 7];
    raw.ghost_mask = 0b1010;
    raw.kind = NEIGHBOR_SAME;
    assert_eq!(raw.decode(), NeighborSet::Same(4));
    raw.kind = NEIGHBOR_COARSER;
    assert_eq!(raw.decode(), NeighborSet::Coarser(4));
    raw.kind = NEIGHBOR_GHOST;
    assert_eq!(raw.decode(), NeighborSet::Remote(4));
    raw.kind = 17;
    assert_eq!(raw.decode(), NeighborSet::Boundary);
    raw.kind = NEIGHBOR_FINER;
    match raw.decode() {
        NeighborSet::Finer(fs) => {
            assert_eq!(fs.idx, [4, 5, 6, 7]);
            assert_eq!([0, 1, 2, 3].map(|h| fs.is_ghost(h)), [false, true, false, true]);
        }
        other => panic!("expected finer neighbors, got {other:?}"),
    }
    assert_eq!(marked_ranks(&[0, 1, 0, 7, -1]), vec![1, 3, 4]);
    for (i, f) in Face::all().iter().enumerate() {
        assert_eq!(f.index(), i);
    }
    assert!(DirNeighbors::default().as_slice().is_empty());
    assert_eq!(DirNeighbors::one(3).as_slice(), &[3]);
    assert_eq!(DirNeighbors::four([1, 2, 3, 4]).as_slice(), &[1, 2, 3, 4]);
}

// Carrying fields over.

fn mean(parts: &[F]) -> F {
    F(parts.iter().map(|p| p.0).sum::<f64>() / parts.len() as f64)
}

#[test]
fn points_are_located_in_the_first_box_that_holds_them() {
    let geom = vec![(fv([0.5; 3]), fv([1.0; 3])), (fv([1.5, 0.5, 0.5]), fv([1.0; 3]))];
    assert_eq!(locate_in(&geom, fv([0.2, 0.4, 0.9])), Some(0));
    assert_eq!(locate_in(&geom, fv([1.2, 0.4, 0.9])), Some(1));
    // A point on the shared face belongs to the first box.
    assert_eq!(locate_in(&geom, fv([1.0, 0.5, 0.5])), Some(0));
    assert_eq!(locate_in(&geom, fv([2.5, 0.5, 0.5])), None);
}

#[test]
fn refined_children_inherit_and_coarsened_cells_average() {
    let coarse = vec![(fv([1.0; 3]), fv([2.0; 3]))];
    let child = transfer_recursive(&coarse, &[F(7.0)], F(0.0), fv([0.5; 3]), fv([1.0; 3]), &mean);
    assert_eq!(child, F(7.0));

    let mut fine = Vec::new();
    let mut vals = Vec::new();
    for q in 0..8usize {
        let s = [q % 2, q / 2 % 2, q / 4].map(|i| i as f64 + 0.5);
        fine.push((fv(s), fv([1.0; 3])));
        vals.push(F(q as f64));
    }
    let parent = transfer_recursive(&fine, &vals, F(0.0), fv([1.0; 3]), fv([2.0; 3]), &mean);
    assert_eq!(parent, F(3.5));
    // Volume times value is conserved: 8 * 3.5 = 0 + 1 + ... + 7.
    assert_eq!(8.0 * parent.0, vals.iter().map(|v| v.0).sum::<f64>());
    let ones = vec![F(1.25); 8];
    let same = transfer_recursive(&fine, &ones, F(1.25), fv([1.0; 3]), fv([2.0; 3]), &mean);
    assert_eq!(same, F(1.25));
    let outside = transfer_recursive(&fine, &vals, F(-9.0), fv([5.0; 3]), fv([2.0; 3]), &mean);
    assert_eq!(outside, F(-9.0));
}

#[test]
fn a_default_leaf_is_all_zero() {
    let l: LeafInfo<F> = LeafInfo::default();
    assert_eq!((l.tree_id, l.level), (0, 0));
    assert_eq!(l.center, fv([0.0; 3]));
    assert_eq!(l.size, fv([0.0; 3]));
}
