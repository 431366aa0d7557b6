//! Structured meshes: numbering, geometry, faces, halo links and point location.

use field::hierarchy::{coarsen_config, coarsening_obstacle, MeshHierarchy};
use field::mesh::{BoundarySide, FvMesh, StructuredMesh};
use field::scalar::Scalar;
use field::uniform::{decompose_mesh, UniformMesh, UniformMeshConfig};
use std::f64::consts::PI;

/// Double precision as a scalar.
#[derive(Clone, Copy, Debug, PartialEq)]
struct F(f64);

impl Scalar for F {
    fn zero() -> Self {
        F(0.0)
    }
    fn one() -> Self {
        F(1.0)
    }
    fn tiny() -> Self {
        F(1e-30)
    }
    fn slop() -> Self {
        F(1e-9)
    }
    fn from_count(n: usize) -> Self {
        F(n as f64)
    }
    fn from_signed(n: i64) -> Self {
        F(n as f64)
    }
    fn plus(self, rhs: Self) -> Self {
        F(self.0 + rhs.0)
    }
    fn minus(self, rhs: Self) -> Self {
        F(self.0 - rhs.0)
    }
    fn times(self, rhs: Self) -> Self {
        F(self.0 * rhs.0)
    }
    fn over(self, rhs: Self) -> Self {
        F(self.0 / rhs.0)
    }
    fn negated(self) -> Self {
        F(-self.0)
    }
    fn halved(self) -> Self {
        F(0.5 * self.0)
    }
    fn floored(self) -> Self {
        F(self.0.floor())
    }
    fn root(self) -> Self {
        F(self.0.sqrt())
    }
    fn to_index(self) -> usize {
        self.0 as usize
    }
    fn less(self, rhs: Self) -> bool {
        self.0 < rhs.0
    }
    fn at_most(self, rhs: Self) -> bool {
        self.0 <= rhs.0
    }
    fn equals(self, rhs: Self) -> bool {
        self.0 == rhs.0
    }
}

fn fv(v: [f64; 3]) -> [F; 3] {
    [F(v[0]), F(v[1]), F(v[2])]
}

fn cfg() -> UniformMeshConfig<F> {
    UniformMeshConfig {
        nx: 10,
        ny: 10,
        nz: 10,
        ng: 2,
        bounds_lo: fv([0.0; 3]),
        bounds_hi: fv([1.0; 3]),
        y_edges: None,
        z_edges: None,
    }
}

#[test]
fn cell_counts() {
    let m = UniformMesh::from_config(&cfg());
    assert_eq!(m.n_cells_total(), 14 * 14 * 14);
    assert_eq!(m.n_local_cells(), 1000);
}

#[test]
fn idx_and_centroid() {
    let m = UniformMesh::from_config(&cfg());
    assert_eq!(m.idx(0, 0, 0), 422); // (2)*196 + (2)*14 + 2
    let cc = m.cell_centroid(m.idx(0, 0, 0));
    assert!((cc[0].0 - 0.05).abs() < 1e-12);
    assert!((cc[1].0 - 0.05).abs() < 1e-12);
    assert!((cc[2].0 - 0.05).abs() < 1e-12);
}

#[test]
fn idx_raw_addresses_ghosts_and_matches_interior() {
    let m = UniformMesh::from_config(&cfg()); // ng = 2
    assert_eq!(m.idx(3, 4, 5), m.idx_raw(3 + 2, 4 + 2, 5 + 2));
    // a raw index inside the ghost band is not a local cell.
    assert!(!m.is_local_cell(m.idx_raw(1, 2, 2)));
}

#[test]
fn local_cell_predicate_counts_interior() {
    let m = UniformMesh::from_config(&cfg());
    assert!(m.is_local_cell(m.idx(0, 0, 0)));
    assert!(!m.is_local_cell(m.idx_raw(0, 0, 0))); // a corner ghost
    let local = (0..m.n_cells_total()).filter(|&c| m.is_local_cell(c)).count();
    assert_eq!(local, m.n_local_cells());
}

#[test]
fn locate_brackets_a_point() {
    let m = UniformMesh::from_config(&cfg()); // 10 cubed, ng=2, unit cube, dx=0.1
    // 0.1 sits halfway between raw cell 2 (center 0.05) and 3 (center 0.15).
    let (lo, t) = m.locate(fv([0.1, 0.1, 0.1])).unwrap();
    assert_eq!(lo, [2, 2, 2]);
    assert!((0..3).all(|a| (t[a].0 - 0.5).abs() < 1e-12));
    // The 8 bracketing cells are addressable and include the interior cell.
    assert_eq!(m.idx_raw(lo[0], lo[1], lo[2]), m.idx(0, 0, 0));
    // Outside the domain.
    assert!(m.locate(fv([5.0, 0.5, 0.5])).is_none());
}

#[test]
fn uniform_cell_volume() {
    let m = UniformMesh::from_config(&cfg());
    let v = m.cell_volume(m.idx(3, 4, 5));
    assert!((v.0 - 0.1 * 0.1 * 0.1).abs() < 1e-15);
}

#[test]
fn serial_has_no_halo() {
    let m = UniformMesh::from_config(&cfg());
    assert!(m.halo_plan().is_serial());
}

#[test]
fn decomposed_halo_links_match_interface_size() {
    // Split x into 2; rank 0 has one +x neighbor, so exactly one link.
    let m = UniformMesh::from_config_decomposed(&cfg(), [2, 1, 1], [0, 0, 0]);
    let plan = m.halo_plan();
    assert_eq!(plan.links.len(), 1);
    let link = &plan.links[0];
    // ng layers * nj * nk interior cells on the shared face.
    assert_eq!(link.send_cells.len(), 2 * 10 * 10);
    assert_eq!(link.send_cells.len(), link.recv_cells.len());
}

#[test]
fn every_interior_cell_owns_faces() {
    let m = UniformMesh::from_config(&cfg());
    let mut count = 0usize;
    let mut boundary = 0usize;
    for face in m.faces() {
        count += 1;
        if face.patch.is_some() {
            boundary += 1;
        }
    }
    // 10^3 cells * 3 positive faces + 3*10^2 low-boundary faces.
    assert_eq!(count, 1000 * 3 + 3 * 100);
    // 6 sides * 100 faces are physical boundaries (serial: all sides physical).
    assert_eq!(boundary, 6 * 100);
}

#[test]
fn default_config_is_one_cell_in_the_unit_cube() {
    let c: UniformMeshConfig<F> = UniformMeshConfig::default();
    assert_eq!((c.nx, c.ny, c.nz, c.ng), (1, 1, 1, 2));
    assert_eq!(c.bounds_lo, fv([0.0; 3]));
    assert_eq!(c.bounds_hi, fv([1.0; 3]));
    assert!(c.y_edges.is_none() && c.z_edges.is_none());
}

#[test]
fn stretched_axes_use_the_given_edges() {
    let edges: Vec<F> = [0.0, 1.0, 3.0, 6.0].iter().map(|&e| F(e)).collect();
    let m = UniformMesh::from_config(&UniformMeshConfig {
        nx: 2,
        ny: 3,
        nz: 1,
        ng: 1,
        bounds_lo: fv([0.0; 3]),
        bounds_hi: fv([4.0, 6.0, 5.0]),
        y_edges: Some(edges),
        z_edges: None,
    });
    assert_eq!(m.spacing(0, 0), F(2.0));
    assert_eq!(m.spacing(1, 0), F(1.0));
    assert_eq!(m.spacing(1, 1), F(2.0));
    assert_eq!(m.spacing(1, 2), F(3.0));
    assert_eq!(m.spacing(2, 0), F(5.0));
    assert_eq!(m.cell_centroid(m.idx(1, 2, 0)), fv([3.0, 4.5, 2.5]));
    assert_eq!(m.cell_volume(m.idx(1, 2, 0)), F(30.0));
    // Ghost cells continue at the width of the outermost cell.
    assert_eq!(m.cell_centroid(m.idx_raw(1, 0, 1)), fv([1.0, -0.5, 2.5]));
    assert_eq!(m.cell_centroid(m.idx_raw(1, 4, 1)), fv([1.0, 7.5, 2.5]));
}

#[test]
fn faces_point_from_owner_to_other() {
    let m = UniformMesh::from_config(&UniformMeshConfig {
        nx: 2,
        ny: 1,
        nz: 1,
        ng: 1,
        bounds_lo: fv([0.0; 3]),
        bounds_hi: fv([2.0, 3.0, 5.0]),
        y_edges: None,
        z_edges: None,
    });
    let faces = m.faces();
    assert_eq!(faces.len(), 2 * 3 + 1 + 2 + 2);
    let low = BoundarySide::XLo.index();
    let f = faces.iter().find(|f| f.patch == Some(low)).unwrap();
    assert_eq!(f.owner, m.idx(0, 0, 0));
    assert_eq!(f.other, m.idx_raw(0, 1, 1));
    assert_eq!(f.area_normal, fv([-15.0, 0.0, 0.0]));
    assert_eq!(f.centroid, fv([0.0, 1.5, 2.5]));
    let g = faces.iter().find(|f| f.patch.is_none()).unwrap();
    assert_eq!((g.owner, g.other), (m.idx(0, 0, 0), m.idx(1, 0, 0)));
    assert_eq!(g.area_normal, fv([15.0, 0.0, 0.0]));
    assert_eq!(g.centroid, fv([1.0, 1.5, 2.5]));
}

#[test]
fn a_decomposed_run_tiles_the_domain() {
    let c = cfg();
    assert!(decompose_mesh(&c, 0, 1).is_none());
    let mut cells = 0;
    for rank in 0..6 {
        let part = decompose_mesh(&c, rank, 6).unwrap();
        let d = part.decomp;
        assert_eq!(d[0] * d[1] * d[2], 6);
        let p = part.pos;
        assert_eq!(p[0] * (d[1] * d[2]) + p[1] * d[2] + p[2], rank);
        cells += part.mesh.n_local_cells();
    }
    assert_eq!(cells, 1000);
}

#[test]
fn the_two_ends_of_a_link_agree() {
    let c = cfg();
    let a = UniformMesh::from_config_decomposed(&c, [2, 1, 1], [0, 0, 0]);
    let b = UniformMesh::from_config_decomposed(&c, [2, 1, 1], [1, 0, 0]);
    let ab = &a.halo_plan().links[0];
    let ba = &b.halo_plan().links[0];
    assert_eq!((ab.rank, ba.rank), (1, 0));
    for k in 0..ab.send_cells.len() {
        let sent = a.cell_centroid(ab.send_cells[k]);
        let got = b.cell_centroid(ba.recv_cells[k]);
        assert!((0..3).all(|d| (sent[d].0 - got[d].0).abs() < 1e-12));
        assert!(a.is_local_cell(ab.send_cells[k]));
        assert!(!b.is_local_cell(ba.recv_cells[k]));
    }
}

#[test]
fn sides_have_an_axis_and_a_direction() {
    for i in 0..6 {
        let side = BoundarySide::from_index(i).unwrap();
        assert_eq!(side.index(), i);
        assert_eq!(side.axis(), (i / 2) as usize);
        assert_eq!(side.is_high(), i % 2 == 1);
    }
    assert!(BoundarySide::from_index(6).is_none());
}

// Hierarchies.

fn base(nx: usize, ny: usize, nz: usize) -> UniformMeshConfig<F> {
    UniformMeshConfig {
        nx,
        ny,
        nz,
        ng: 2,
        bounds_lo: fv([0.0; 3]),
        bounds_hi: fv([1.0, 1.0, 1.0]),
        y_edges: None,
        z_edges: None,
    }
}

fn ladder(cfg: &UniformMeshConfig<F>, n_levels: usize) -> MeshHierarchy<F> {
    if let Some((n, axis)) = coarsening_obstacle(cfg, n_levels - 1) {
        panic!("cannot coarsen a {n}-cell axis ({axis}) by two: not even");
    }
    MeshHierarchy::from_base(cfg, n_levels)
}

#[test]
fn ladder_dims_halve_each_level() {
    let h = ladder(&base(8, 8, 1), 3);
    assert_eq!(h.n_levels(), 3);
    assert_eq!(h.level(0).dims(), [8, 8, 1]);
    assert_eq!(h.level(1).dims(), [4, 4, 1]); // z stays 1
    assert_eq!(h.level(2).dims(), [2, 2, 1]);
}

#[test]
fn restriction_of_prolongation_is_identity_on_a_manufactured_field() {
    let h = ladder(&base(8, 8, 4), 2);
    let fine = h.level(0);
    let coarse = h.level(1);

    let manufactured = |c: usize, m: &UniformMesh<F>| -> f64 {
        let p = m.cell_centroid(c);
        (2.0 * PI * p[0].0).sin() * (3.0 * PI * p[1].0).cos() + p[2].0 * p[2].0
    };
    let mut x_coarse = vec![F(0.0); coarse.n_cells_total()];
    for ci in 0..coarse.dims()[0] {
        for cj in 0..coarse.dims()[1] {
            for ck in 0..coarse.dims()[2] {
                let idx = coarse.idx(ci, cj, ck);
                x_coarse[idx] = F(manufactured(idx, coarse));
            }
        }
    }

    let mut x_fine = vec![F(0.0); fine.n_cells_total()];
    h.prolong(0, &x_coarse, &mut x_fine);

    let mut x_back = vec![F(0.0); coarse.n_cells_total()];
    h.restrict(0, &x_fine, &mut x_back);

    let mut max_err = 0.0f64;
    for ci in 0..coarse.dims()[0] {
        for cj in 0..coarse.dims()[1] {
            for ck in 0..coarse.dims()[2] {
                let idx = coarse.idx(ci, cj, ck);
                max_err = max_err.max((x_back[idx].0 - x_coarse[idx].0).abs());
            }
        }
    }
    assert!(max_err < 1e-14, "R(P(x)) deviated from x by {max_err:e}");
}

#[test]
fn prolongation_fills_every_child_with_its_parent() {
    let h = ladder(&base(4, 4, 4), 2);
    let coarse = h.level(1);
    let fine = h.level(0);
    let mut xc = vec![F(0.0); coarse.n_cells_total()];
    xc[coarse.idx(1, 1, 1)] = F(7.5);
    let mut xf = vec![F(0.0); fine.n_cells_total()];
    h.prolong(0, &xc, &mut xf);
    for di in 0..2 {
        for dj in 0..2 {
            for dk in 0..2 {
                assert_eq!(xf[fine.idx(2 + di, 2 + dj, 2 + dk)], F(7.5));
            }
        }
    }
    let mut back = vec![F(0.0); coarse.n_cells_total()];
    h.restrict(0, &xf, &mut back);
    assert!((back[coarse.idx(1, 1, 1)].0 - 7.5).abs() < 1e-15);
}

#[test]
#[should_panic(expected = "not even")]
fn odd_axis_is_rejected() {
    // A 6, 3, ? ladder can't reach three levels: 3 is odd.
    ladder(&base(6, 6, 1), 3);
}

#[test]
fn obstacles_name_the_axis_and_its_count() {
    assert_eq!(coarsening_obstacle(&base(6, 6, 1), 1), None);
    assert_eq!(coarsening_obstacle(&base(6, 6, 1), 2), Some((3, 'y')));
    assert_eq!(coarsening_obstacle(&base(6, 4, 10), 2), Some((5, 'z')));
    assert_eq!(coarsening_obstacle(&base(7, 4, 1), 1), Some((7, 'x')));
    assert_eq!(coarsening_obstacle(&base(1, 1, 1), 9), None);
}

#[test]
fn coarsening_thins_out_the_edges() {
    let edges: Vec<F> = [0.0, 1.0, 3.0, 6.0, 10.0].iter().map(|&e| F(e)).collect();
    let single: Vec<F> = [2.0, 9.0].iter().map(|&e| F(e)).collect();
    let c = coarsen_config(&UniformMeshConfig {
        nx: 6,
        ny: 4,
        nz: 1,
        ng: 1,
        bounds_lo: fv([0.0, 0.0, 2.0]),
        bounds_hi: fv([1.0, 10.0, 9.0]),
        y_edges: Some(edges),
        z_edges: Some(single),
    });
    assert_eq!((c.nx, c.ny, c.nz, c.ng), (3, 2, 1, 1));
    assert_eq!(c.y_edges.unwrap(), vec![F(0.0), F(3.0), F(10.0)]);
    assert_eq!(c.z_edges.unwrap(), vec![F(2.0), F(9.0)]);
}

#[test]
fn restriction_averages_and_leaves_ghosts_alone() {
    let h = ladder(&base(2, 2, 2), 2);
    let (fine, coarse) = (h.finest(), h.coarsest());
    let mut xf = vec![F(100.0); fine.n_cells_total()];
    for q in 0..8usize {
        xf[fine.idx(q / 4, q / 2 % 2, q % 2)] = F(q as f64);
    }
    let mut xc = vec![F(-1.0); coarse.n_cells_total()];
    h.restrict(0, &xf, &mut xc);
    assert_eq!(xc[coarse.idx(0, 0, 0)], F(3.5));
    assert_eq!(xc[coarse.idx_raw(0, 0, 0)], F(-1.0));
}

#[test]
fn uniform_faces_close_every_cell_and_conserve() {
    let m = UniformMesh::from_config(&base(3, 2, 4));
    let mut area = vec![[0.0f64; 3]; m.n_cells_total()];
    let mut gain = vec![0.0f64; m.n_cells_total()];
    let mut out = 0.0;
    for (p, f) in m.faces().iter().enumerate() {
        let phi = 0.25 * (p as f64) - 3.0;
        gain[f.owner] -= phi;
        for d in 0..3 {
            area[f.owner][d] -= f.area_normal[d].0;
        }
        if f.patch.is_some() {
            out += phi;
        } else {
            gain[f.other] += phi;
            for d in 0..3 {
                area[f.other][d] += f.area_normal[d].0;
            }
        }
    }
    for c in 0..m.n_cells_total() {
        if m.is_local_cell(c) {
            assert!((0..3).all(|d| area[c][d].abs() < 1e-12), "cell {c}: {:?}", area[c]);
        }
    }
    let total: f64 = gain.iter().sum();
    assert!(out != 0.0);
    assert!((total + out).abs() < 1e-9, "total {total}, out {out}");
}

#[test]
fn transfers_are_transposes_up_to_the_child_count() {
    let h = ladder(&base(4, 2, 8), 2);
    let (fm, cm) = (h.level(0), h.level(1));
    let x: Vec<F> = (0..fm.n_cells_total()).map(|c| F(((c * 7) % 11) as f64 - 4.0)).collect();
    let y: Vec<F> = (0..cm.n_cells_total()).map(|c| F(((c * 5) % 13) as f64 - 6.0)).collect();
    let mut down = vec![F(0.0); cm.n_cells_total()];
    let mut up = vec![F(0.0); fm.n_cells_total()];
    h.restrict(0, &x, &mut down);
    h.prolong(0, &y, &mut up);
    let coarse: f64 = (0..cm.n_cells_total())
        .filter(|&c| cm.is_local_cell(c))
        .map(|c| down[c].0 * y[c].0)
        .sum();
    let fine: f64 = (0..fm.n_cells_total())
        .filter(|&c| fm.is_local_cell(c))
        .map(|c| x[c].0 * up[c].0)
        .sum();
    assert!(fine != 0.0);
    assert_eq!(8.0 * coarse, fine);
}

#[test]
fn restriction_weighs_by_volume_on_stretched_edges() {
    let mut cfg = base(2, 2, 1);
    cfg.y_edges = Some(vec![F(0.0), F(1.0), F(4.0)]);
    let h = ladder(&cfg, 2);
    let (fm, cm) = (h.finest(), h.coarsest());
    let mut x = vec![F(-9.0); fm.n_cells_total()];
    for (i, j, v) in [(0, 0, 2.0), (0, 1, 6.0), (1, 0, 4.0), (1, 1, 8.0)] {
        x[fm.idx(i, j, 0)] = F(v);
    }
    let mut down = vec![F(0.0); cm.n_cells_total()];
    h.restrict(0, &x, &mut down);
    // The volumes are 0.5 and 1.5: (1 + 9 + 2 + 12) / 4, where the plain mean is 5.
    let c = cm.idx(0, 0, 0);
    assert_eq!(down[c], F(6.0));
    // The content of the coarse cell is that of its fine cells.
    let content: f64 = (0..fm.n_cells_total())
        .filter(|&f| fm.is_local_cell(f))
        .map(|f| fm.cell_volume(f).0 * x[f].0)
        .sum();
    assert_eq!(cm.cell_volume(c).0 * down[c].0, content);
    // What was prolonged comes back.
    let y = vec![F(7.0); cm.n_cells_total()];
    let mut up = vec![F(0.0); fm.n_cells_total()];
    h.prolong(0, &y, &mut up);
    h.restrict(0, &up, &mut down);
    assert_eq!(down[c], F(7.0));
}

#[test]
fn thin_parts_send_owned_layers_only() {
    let cfg = UniformMeshConfig {
        nx: 2,
        ny: 1,
        nz: 1,
        ng: 2,
        bounds_lo: fv([0.0; 3]),
        bounds_hi: fv([1.0; 3]),
        y_edges: None,
        z_edges: None,
    };
    let m = UniformMesh::from_config_decomposed(&cfg, [2, 1, 1], [0, 0, 0]);
    let links = &m.halo_plan().links;
    assert_eq!(links.len(), 1);
    assert_eq!(links[0].send_cells, vec![m.idx_raw(2, 2, 2)]);
    assert_eq!(links[0].recv_cells, vec![m.idx_raw(3, 2, 2)]);
    assert!(links[0].send_cells.iter().all(|&c| m.is_local_cell(c)));
    let other = UniformMesh::from_config_decomposed(&cfg, [2, 1, 1], [1, 0, 0]);
    let links = &other.halo_plan().links;
    assert_eq!(links[0].send_cells, vec![other.idx_raw(2, 2, 2)]);
    assert_eq!(links[0].recv_cells, vec![other.idx_raw(1, 2, 2)]);
}

#[test]
fn locate_reaches_the_end_of_the_ghost_cells() {
    let m = UniformMesh::from_config(&cfg()); // extent [-0.2, 1.2] along every axis
    let (lo, t) = m.locate(fv([-0.19, 0.5, 0.5])).unwrap();
    assert_eq!((lo[0], t[0]), (0, F(0.0)));
    let (lo, t) = m.locate(fv([1.19, -0.19, 1.19])).unwrap();
    assert_eq!(lo, [12, 0, 12]);
    assert_eq!(t, [F(1.0), F(0.0), F(1.0)]);
    for a in 0..3 {
        for out in [-0.21, 1.21] {
            let mut p = [0.5; 3];
            p[a] = out;
            assert!(m.locate(fv(p)).is_none());
        }
    }
}

#[test]
fn one_link_leads_to_each_neighbor() {
    let c = cfg().clone();
    let m = UniformMesh::from_config_decomposed(&c, [3, 2, 2], [1, 0, 1]);
    let ranks: Vec<i32> = m.halo_plan().links.iter().map(|l| l.rank).collect();
    // rank = 4 * px + 2 * py + pz
    assert_eq!(ranks, vec![1, 9, 7, 4]);
    assert!(format!("{c:?}").contains("y_edges"));
}
