//! The two-level block-adaptive mesh.

use field::amr::{ForestConfig, ForestMesh};
use field::mesh::{AdaptiveMesh, FvMesh};
use field::scalar::Scalar;
use field::whole::Whole;

/// Double precision as a scalar.
#[derive(Clone, Copy, Debug, PartialEq)]
struct F(f64);

impl Scalar for F {
    fn zero() -> Self {
        F(0.0)
    }
    fn one() -> Self {
        F(1.0)
    }
    fn tiny() -> Self {
        F(1e-30)
    }
    fn slop() -> Self {
        F(1e-9)
    }
    fn from_count(n: usize) -> Self {
        F(n as f64)
    }
    fn from_signed(n: i64) -> Self {
        F(n as f64)
    }
    fn plus(self, rhs: Self) -> Self {
        F(self.0 + rhs.0)
    }
    fn minus(self, rhs: Self) -> Self {
        F(self.0 - rhs.0)
    }
    fn times(self, rhs: Self) -> Self {
        F(self.0 * rhs.0)
    }
    fn over(self, rhs: Self) -> Self {
        F(self.0 / rhs.0)
    }
    fn negated(self) -> Self {
        F(-self.0)
    }
    fn halved(self) -> Self {
        F(0.5 * self.0)
    }
    fn floored(self) -> Self {
        F(self.0.floor())
    }
    fn root(self) -> Self {
        F(self.0.sqrt())
    }
    fn to_index(self) -> usize {
        self.0 as usize
    }
    fn less(self, rhs: Self) -> bool {
        self.0 < rhs.0
    }
    fn at_most(self, rhs: Self) -> bool {
        self.0 <= rhs.0
    }
    fn equals(self, rhs: Self) -> bool {
        self.0 == rhs.0
    }
}

fn fv(v: [f64; 3]) -> [F; 3] {
    [F(v[0]), F(v[1]), F(v[2])]
}

fn cfg() -> ForestConfig<F> {
    ForestConfig {
        ncx: 4,
        ncy: 4,
        ncz: 1,
        bounds_lo: fv([0.0; 3]),
        bounds_hi: fv([1.0, 1.0, 0.25]),
        refine: vec![[1, 1, 0], [2, 1, 0], [1, 2, 0], [2, 2, 0]], // a 2x2 refined block
    }
}

#[test]
fn leaf_counts_and_volumes() {
    let m = ForestMesh::from_config(&cfg());
    // 6*6*3 coarse cells = 108; 4 refined, each 7 more leaves (8 fine - 1 coarse).
    assert_eq!(m.n_cells_total(), 108 + 4 * 7);
    // Total volume of interior leaves = domain volume (1*1*0.25).
    let vol: f64 = (0..m.n_cells_total())
        .filter(|&c| m.is_local_cell(c))
        .map(|c| m.cell_volume(c).0)
        .sum();
    assert!((vol - 0.25).abs() < 1e-12, "interior volume {vol}");
    let (coarse, fine) = m.level_counts();
    assert_eq!(fine, 32); // 4 cells x 8
    assert!(coarse > 0);
}

#[test]
fn faces_are_area_conservative_per_cell() {
    let m = ForestMesh::from_config(&cfg());
    let n = m.n_cells_total();
    let mut net = vec![[0.0f64; 3]; n];
    for f in m.faces() {
        for d in 0..3 {
            net[f.owner][d] -= f.area_normal[d].0;
            if f.patch.is_none() {
                net[f.other][d] += f.area_normal[d].0;
            }
        }
    }
    for c in 0..n {
        if m.is_local_cell(c) {
            for d in 0..3 {
                assert!(net[c][d].abs() < 1e-12, "cell {c} axis {d} net area {}", net[c][d]);
            }
        }
    }
}

#[test]
fn flux_scatter_is_conservative() {
    let m = ForestMesh::from_config(&cfg());
    let n = m.n_cells_total();
    let area =
        |an: [F; 3]| (an[0].0 * an[0].0 + an[1].0 * an[1].0 + an[2].0 * an[2].0).sqrt();
    let mut rhs = vec![0.0f64; n];
    for f in m.faces() {
        let a = area(f.area_normal);
        rhs[f.owner] -= a / m.cell_volume(f.owner).0;
        if f.patch.is_none() && m.is_local_cell(f.other) {
            rhs[f.other] += a / m.cell_volume(f.other).0;
        }
    }
    let total: f64 = (0..n)
        .filter(|&c| m.is_local_cell(c))
        .map(|c| rhs[c] * m.cell_volume(c).0)
        .sum();
    let mut boundary = 0.0;
    for f in m.faces() {
        if f.patch.is_some() {
            boundary += area(f.area_normal);
        }
    }
    assert!(
        (total + boundary).abs() < 1e-9,
        "non-conservative face list: total = {total}, -boundary = {}",
        -boundary
    );
}

#[test]
fn coarse_fine_faces_detected() {
    let m = ForestMesh::from_config(&cfg());
    let n_cf = m.coarse_fine_faces().len();
    assert!(n_cf > 0, "expected coarse/fine interface faces");
}

#[test]
fn pairs_join_a_coarse_leaf_to_a_fine_one() {
    let m = ForestMesh::from_config(&cfg());
    for p in m.coarse_fine_faces() {
        assert_eq!(m.cell_level(p.coarse), 0);
        assert_eq!(m.cell_level(p.fine), 1);
    }
    assert!(m.halo_plan().is_serial());
}

#[test]
fn an_exact_lattice_tiles_and_closes_exactly() {
    let w = |n: i64| Whole { n };
    let m = ForestMesh::from_config(&ForestConfig {
        ncx: 3,
        ncy: 2,
        ncz: 2,
        bounds_lo: [w(0), w(0), w(0)],
        bounds_hi: [w(12), w(8), w(8)],
        refine: vec![[0, 0, 0], [2, 1, 1]],
    });
    let local = |c: &usize| m.is_local_cell(*c);
    let volume: i64 = (0..m.n_cells_total()).filter(local).map(|c| m.cell_volume(c).n).sum();
    assert_eq!(volume, 12 * 8 * 8);
    assert_eq!(m.n_local_cells(), 12 + 2 * 7);
    let mut net = vec![[0i64; 3]; m.n_cells_total()];
    for f in m.faces() {
        for d in 0..3 {
            net[f.owner][d] -= f.area_normal[d].n;
            if f.patch.is_none() {
                net[f.other][d] += f.area_normal[d].n;
            }
        }
    }
    for c in (0..m.n_cells_total()).filter(local) {
        assert_eq!(net[c], [0, 0, 0]);
    }
}

#[test]
fn faces_are_centered_on_their_sub_interface() {
    let m = ForestMesh::from_config(&ForestConfig {
        ncx: 3,
        ncy: 3,
        ncz: 3,
        bounds_lo: fv([0.0; 3]),
        bounds_hi: fv([3.0; 3]),
        refine: vec![[1, 1, 1]],
    });
    let near = |c: usize, p: [f64; 3]| m.cell_centroid(c) == fv(p);
    let fine_to_coarse: Vec<_> = m
        .faces()
        .into_iter()
        .filter(|f| near(f.owner, [1.75, 1.25, 1.25]) && near(f.other, [2.5, 1.5, 1.5]))
        .collect();
    assert_eq!(fine_to_coarse.len(), 1);
    assert_eq!(fine_to_coarse[0].area_normal, fv([0.25, 0.0, 0.0]));
    assert_eq!(fine_to_coarse[0].centroid, fv([2.0, 1.25, 1.25]));
    let pairs = m.coarse_fine_faces();
    assert!(pairs.iter().any(|p| p.centroid == fv([2.0, 1.25, 1.25])));
    // A face between two coarse leaves comes in four pieces, each with its center.
    let mut centers: Vec<_> = m
        .faces()
        .into_iter()
        .filter(|f| near(f.owner, [0.5, 0.5, 0.5]) && near(f.other, [0.5, 0.5, 1.5]))
        .map(|f| (f.centroid[0].0, f.centroid[1].0, f.centroid[2].0))
        .collect();
    centers.sort_by(|a, b| a.partial_cmp(b).unwrap());
    assert_eq!(
        centers,
        vec![(0.25, 0.25, 1.0), (0.25, 0.75, 1.0), (0.75, 0.25, 1.0), (0.75, 0.75, 1.0)]
    );
}

#[test]
fn local_and_fine_leaves_are_counted() {
    let c = cfg().clone();
    let m = ForestMesh::from_config(&c);
    // 4*4*1 coarse cells of the domain, 4 of them refined.
    assert_eq!(m.n_local_cells(), 16 + 7 * 4);
    assert_eq!(m.level_counts(), (108 - 4, 8 * 4));
    assert!(format!("{c:?}").contains("refine"));
}
