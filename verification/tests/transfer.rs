//! Particle to cell deposits and cell to particle samples.

use field::mesh::FvMesh;
use field::scalar::Scalar;
use field::transfer::{gather, scatter, scatter_density, Stencil, TransferMesh, TransferStats, CIC_STENCIL};
use field::uniform::{UniformMesh, UniformMeshConfig};
use field::whole::Whole;

/// Double precision as a scalar.
#[derive(Clone, Copy, Debug, PartialEq)]
struct F(f64);

impl Scalar for F {
    fn zero() -> Self {
        F(0.0)
    }
    fn one() -> Self {
        F(1.0)
    }
    fn tiny() -> Self {
        F(1e-30)
    }
    fn slop() -> Self {
        F(1e-9)
    }
    fn from_count(n: usize) -> Self {
        F(n as f64)
    }
    fn from_signed(n: i64) -> Self {
        F(n as f64)
    }
    fn plus(self, rhs: Self) -> Self {
        F(self.0 + rhs.0)
    }
    fn minus(self, rhs: Self) -> Self {
        F(self.0 - rhs.0)
    }
    fn times(self, rhs: Self) -> Self {
        F(self.0 * rhs.0)
    }
    fn over(self, rhs: Self) -> Self {
        F(self.0 / rhs.0)
    }
    fn negated(self) -> Self {
        F(-self.0)
    }
    fn halved(self) -> Self {
        F(0.5 * self.0)
    }
    fn floored(self) -> Self {
        F(self.0.floor())
    }
    fn root(self) -> Self {
        F(self.0.sqrt())
    }
    fn to_index(self) -> usize {
        self.0 as usize
    }
    fn less(self, rhs: Self) -> bool {
        self.0 < rhs.0
    }
    fn at_most(self, rhs: Self) -> bool {
        self.0 <= rhs.0
    }
    fn equals(self, rhs: Self) -> bool {
        self.0 == rhs.0
    }
}

/// Tiny deterministic generator, so the tests are reproducible.
struct Lcg(u64);

impl Lcg {
    fn next_f64(&mut self) -> f64 {
        self.0 = self.0.wrapping_mul(6364136223846793005).wrapping_add(1442695040888963407);
        (self.0 >> 11) as f64 / (1u64 << 53) as f64
    }
}

/// A grid of 8 cells along each axis over the unit cube with two ghost layers.
fn test_mesh() -> UniformMesh<F> {
    UniformMesh::from_config(&UniformMeshConfig {
        nx: 8,
        ny: 8,
        nz: 8,
        ng: 2,
        bounds_lo: [F(0.0), F(0.0), F(0.0)],
        bounds_hi: [F(1.0), F(1.0), F(1.0)],
        y_edges: None,
        z_edges: None,
    })
}

/// Particles sprinkled through the interior.
fn interior_particles(n: usize, seed: u64) -> (Vec<[F; 3]>, Vec<F>) {
    let mut rng = Lcg(seed);
    let mut pos = Vec::with_capacity(n);
    let mut val = Vec::with_capacity(n);
    for _ in 0..n {
        let x = 0.2 + 0.6 * rng.next_f64();
        let y = 0.2 + 0.6 * rng.next_f64();
        let z = 0.2 + 0.6 * rng.next_f64();
        pos.push([F(x), F(y), F(z)]);
        val.push(F(0.5 + rng.next_f64())); // strictly positive masses
    }
    (pos, val)
}

#[test]
fn stencil_partitions_unity() {
    let mesh = test_mesh();
    let (pos, _) = interior_particles(64, 1);
    for p in &pos {
        let s = mesh.stencil(*p).expect("interior point must locate");
        assert_eq!(s.len(), CIC_STENCIL);
        assert!((s.weight_sum().0 - 1.0).abs() < 1e-14, "weights must sum to 1");
        for (_, w) in s.iter() {
            assert!((0.0..=1.0).contains(&w.0), "each CIC weight in [0,1]");
        }
    }
}

#[test]
fn scatter_conserves_mass() {
    let mesh = test_mesh();
    let (pos, val) = interior_particles(500, 42);

    let mut cells = vec![F(0.0); mesh.n_cells()];
    let stats = scatter(&mesh, &pos, &val, &mut cells);
    assert_eq!(stats.skipped, 0, "all interior particles must deposit");
    assert_eq!(stats.applied, pos.len());

    let sum_particles: f64 = val.iter().map(|v| v.0).sum();
    let sum_cells: f64 = cells.iter().map(|v| v.0).sum();
    let rel_err = (sum_cells - sum_particles).abs() / sum_particles;
    assert!(
        rel_err < 1e-12,
        "mass not conserved: cells={sum_cells}, particles={sum_particles}, rel_err={rel_err:e}"
    );
}

#[test]
fn scatter_unit_deposit_counts_particles() {
    let mesh = test_mesh();
    let (pos, _) = interior_particles(313, 7);
    let ones = vec![F(1.0); pos.len()];

    let mut cells = vec![F(0.0); mesh.n_cells()];
    scatter(&mesh, &pos, &ones, &mut cells);

    let total: f64 = cells.iter().map(|v| v.0).sum();
    assert!((total - pos.len() as f64).abs() < 1e-9, "total {total} != {}", pos.len());
}

#[test]
fn scatter_density_conserves_volume_integral() {
    let mesh = test_mesh();
    let (pos, val) = interior_particles(400, 99);

    let mut dens = vec![F(0.0); mesh.n_cells()];
    scatter_density(&mesh, &pos, &val, &mut dens);

    let integral: f64 =
        (0..mesh.n_cells()).map(|c| dens[c].0 * FvMesh::cell_volume(&mesh, c).0).sum();
    let sum_particles: f64 = val.iter().map(|v| v.0).sum();
    let rel_err = (integral - sum_particles).abs() / sum_particles;
    assert!(rel_err < 1e-12, "volume integral {integral} != particles {sum_particles}");
}

#[test]
fn gather_preserves_constant() {
    let mesh = test_mesh();
    let (pos, _) = interior_particles(256, 5);
    let cells = vec![F(3.75); mesh.n_cells()];

    let mut out = vec![F(0.0); pos.len()];
    let stats = gather(&mesh, &pos, &cells, &mut out, F(f64::NAN));
    assert_eq!(stats.skipped, 0);
    for v in out {
        assert!((v.0 - 3.75).abs() < 1e-12, "constant field must gather exactly, got {}", v.0);
    }
}

#[test]
fn gather_is_linearly_exact() {
    let mesh = test_mesh();
    // Cell field f(x) = 2x + 3y - z sampled at cell centroids.
    let mut cells = vec![F(0.0); mesh.n_cells()];
    for (c, cell) in cells.iter_mut().enumerate() {
        let ctr = FvMesh::cell_centroid(&mesh, c);
        *cell = F(2.0 * ctr[0].0 + 3.0 * ctr[1].0 - ctr[2].0);
    }
    let (pos, _) = interior_particles(200, 2024);
    let mut out = vec![F(0.0); pos.len()];
    gather(&mesh, &pos, &cells, &mut out, F(f64::NAN));

    for (p, v) in pos.iter().zip(out.iter()) {
        let exact = 2.0 * p[0].0 + 3.0 * p[1].0 - p[2].0;
        assert!((v.0 - exact).abs() < 1e-12, "linear gather off: got {}, want {exact}", v.0);
    }
}

#[test]
fn scatter_gather_are_adjoint() {
    let mesh = test_mesh();
    let (pos, q) = interior_particles(150, 314);

    let mut rng = Lcg(271828);
    let f: Vec<F> = (0..mesh.n_cells()).map(|_| F(rng.next_f64())).collect();

    let mut scattered = vec![F(0.0); mesh.n_cells()];
    scatter(&mesh, &pos, &q, &mut scattered);
    let lhs: f64 = scattered.iter().zip(f.iter()).map(|(a, b)| a.0 * b.0).sum();

    let mut gathered = vec![F(0.0); pos.len()];
    gather(&mesh, &pos, &f, &mut gathered, F(0.0));
    let rhs: f64 = q.iter().zip(gathered.iter()).map(|(a, b)| a.0 * b.0).sum();

    assert!((lhs - rhs).abs() <= 1e-10 * lhs.abs().max(1.0), "adjoint broken: {lhs} vs {rhs}");
}

#[test]
fn out_of_domain_particles_are_handled() {
    let mesh = test_mesh();
    let pos = vec![
        [F(0.5), F(0.5), F(0.5)],
        [F(100.0), F(0.0), F(0.0)],
        [F(-5.0), F(0.5), F(0.5)],
    ];
    let val = vec![F(1.0), F(1.0), F(1.0)];

    let mut cells = vec![F(0.0); mesh.n_cells()];
    let s = scatter(&mesh, &pos, &val, &mut cells);
    assert_eq!(s.applied, 1);
    assert_eq!(s.skipped, 2);
    let total: f64 = cells.iter().map(|v| v.0).sum();
    assert!((total - 1.0).abs() < 1e-12, "only the in-domain particle deposits");

    let mut out = vec![F(0.0); pos.len()];
    let g = gather(&mesh, &pos, &cells, &mut out, F(f64::NAN));
    assert_eq!(g.skipped, 2);
    assert!(out[1].0.is_nan() && out[2].0.is_nan(), "outside particles get fallback");
    assert!(!out[0].0.is_nan());
}

#[test]
fn stencils_start_empty_and_grow() {
    let mut s: Stencil<F> = Stencil::default();
    assert!(s.is_empty());
    assert_eq!(s.weight_sum(), F(0.0));
    s.push(7, F(0.25));
    s.push(9, F(0.5));
    assert_eq!(s.len(), 2);
    assert_eq!(s.term(1), (9, F(0.5)));
    assert_eq!(s.iter(), vec![(7, F(0.25)), (9, F(0.5))]);
    assert_eq!(s.weight_sum(), F(0.75));
    assert_eq!(TransferStats::default(), TransferStats { applied: 0, skipped: 0 });
}

#[test]
fn a_point_on_a_cell_center_deposits_there_alone() {
    let mesh = test_mesh();
    // Dyadic coordinates, so that every fraction is exact.
    let center = [F(0.3125), F(0.5625), F(0.8125)];
    let mut cells = vec![F(0.0); mesh.n_cells()];
    scatter(&mesh, &[center], &[F(6.0)], &mut cells);
    let hit: Vec<usize> = (0..cells.len()).filter(|&c| cells[c] != F(0.0)).collect();
    assert_eq!(hit.len(), 1);
    assert_eq!(cells[hit[0]], F(6.0));
    assert_eq!(FvMesh::cell_centroid(&mesh, hit[0]), center);
    let mut dens = vec![F(0.0); mesh.n_cells()];
    scatter_density(&mesh, &[center], &[F(6.0)], &mut dens);
    assert_eq!(dens[hit[0]], F(6.0 * 512.0));
}

#[test]
fn whole_deposits_are_conserved_to_the_unit() {
    let w = |n: i64| Whole { n };
    let mesh = UniformMesh::from_config(&UniformMeshConfig {
        nx: 4,
        ny: 4,
        nz: 4,
        ng: 1,
        bounds_lo: [w(0), w(0), w(0)],
        bounds_hi: [w(8), w(8), w(8)],
        y_edges: None,
        z_edges: None,
    });
    let pos = vec![[w(1), w(3), w(5)], [w(7), w(1), w(3)], [w(3), w(3), w(3)]];
    let val = vec![w(10), w(20), w(12)];
    let mut cells = vec![w(0); mesh.n_cells()];
    let stats = scatter(&mesh, &pos, &val, &mut cells);
    assert_eq!(stats.applied, 3);
    assert_eq!(cells.iter().map(|c| c.n).sum::<i64>(), 42);
    let mut out = vec![w(0); 3];
    gather(&mesh, &pos, &cells, &mut out, w(-1));
    assert_eq!(out, val);
}

#[test]
fn a_density_times_the_volume_is_the_plain_deposit() {
    let mesh = UniformMesh::from_config(&UniformMeshConfig {
        nx: 8,
        ny: 3,
        nz: 2,
        ng: 1,
        bounds_lo: [F(0.0), F(0.0), F(0.0)],
        bounds_hi: [F(1.0), F(1.0), F(1.0)],
        y_edges: Some(vec![F(0.0), F(0.1), F(0.4), F(1.0)]),
        z_edges: None,
    });
    let (pos, val) = interior_particles(40, 11);
    let mut plain = vec![F(0.0); mesh.n_cells_total()];
    let mut density = vec![F(0.0); mesh.n_cells_total()];
    scatter(&mesh, &pos, &val, &mut plain);
    scatter_density(&mesh, &pos, &val, &mut density);
    assert!(plain.iter().any(|x| x.0 > 0.0));
    for c in 0..mesh.n_cells_total() {
        let held = density[c].0 * FvMesh::cell_volume(&mesh, c).0;
        assert!((held - plain[c].0).abs() < 1e-12, "cell {c}: {held} != {}", plain[c].0);
    }
}

#[test]
fn linear_fields_are_exact_up_to_the_outermost_centers() {
    let mesh = test_mesh();
    let cells: Vec<F> = (0..mesh.n_cells_total())
        .map(|c| {
            let ctr = mesh.cell_centroid(c);
            F(2.0 * ctr[0].0 + 3.0 * ctr[1].0 - ctr[2].0)
        })
        .collect();
    // The outermost centers lie one and a half cells outside the unit cube, the
    // extent ends half a cell further out.
    let (first, last) = (-1.5 * 0.125, 1.0 + 1.5 * 0.125);
    let pos = vec![
        [F(first), F(0.3), F(last)],
        [F(last), F(first), F(0.7)],
        [F(last), F(last), F(last)],
        [F(last + 0.05), F(0.5), F(0.5)],
    ];
    let mut out = vec![F(0.0); pos.len()];
    let stats = gather(&mesh, &pos, &cells, &mut out, F(f64::NAN));
    assert_eq!(stats, TransferStats { applied: 4, skipped: 0 });
    for (p, v) in pos.iter().zip(out.iter()).take(3) {
        let exact = 2.0 * p[0].0 + 3.0 * p[1].0 - p[2].0;
        assert!((v.0 - exact).abs() < 1e-12, "got {}, want {exact}", v.0);
    }
    // Beyond the outermost center the field is held at that center.
    assert!((out[3].0 - (2.0 * last + 1.0)).abs() < 1e-12);
    assert!(format!("{:?}", mesh.stencil(pos[0]).unwrap()).contains("weights"));
}
