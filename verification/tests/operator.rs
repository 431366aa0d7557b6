//! Vectors over mesh cells and operators built on them.

use field::field_data::FieldData;
use field::mesh::{FvMesh, StructuredMesh};
use field::operator::{CellVector, LinearOperator, Vector};
use field::scalar::Scalar;
use field::uniform::{decompose_mesh, UniformMesh, UniformMeshConfig};
use std::f64::consts::PI;

/// Double precision as a scalar.
#[derive(Clone, Copy, Debug, PartialEq)]
struct F(f64);

impl Scalar for F {
    fn zero() -> Self {
        F(0.0)
    }
    fn one() -> Self {
        F(1.0)
    }
    fn tiny() -> Self {
        F(1e-30)
    }
    fn slop() -> Self {
        F(1e-9)
    }
    fn from_count(n: usize) -> Self {
        F(n as f64)
    }
    fn from_signed(n: i64) -> Self {
        F(n as f64)
    }
    fn plus(self, rhs: Self) -> Self {
        F(self.0 + rhs.0)
    }
    fn minus(self, rhs: Self) -> Self {
        F(self.0 - rhs.0)
    }
    fn times(self, rhs: Self) -> Self {
        F(self.0 * rhs.0)
    }
    fn over(self, rhs: Self) -> Self {
        F(self.0 / rhs.0)
    }
    fn negated(self) -> Self {
        F(-self.0)
    }
    fn halved(self) -> Self {
        F(0.5 * self.0)
    }
    fn floored(self) -> Self {
        F(self.0.floor())
    }
    fn root(self) -> Self {
        F(self.0.sqrt())
    }
    fn to_index(self) -> usize {
        self.0 as usize
    }
    fn less(self, rhs: Self) -> bool {
        self.0 < rhs.0
    }
    fn at_most(self, rhs: Self) -> bool {
        self.0 <= rhs.0
    }
    fn equals(self, rhs: Self) -> bool {
        self.0 == rhs.0
    }
}

fn mesh(nx: usize, ny: usize, nz: usize, ng: usize) -> UniformMesh<F> {
    UniformMesh::from_config(&UniformMeshConfig {
        nx,
        ny,
        nz,
        ng,
        bounds_lo: [F(0.0); 3],
        bounds_hi: [F(nx as f64), F(ny as f64), F(nz as f64)], // unit spacing on every axis
        y_edges: None,
        z_edges: None,
    })
}

#[test]
fn reductions_run_over_owned_cells_only() {
    let m = mesh(2, 1, 1, 1);
    let mut a: CellVector<F> = CellVector::from_mesh(&m);
    let mut b: CellVector<F> = CellVector::from_mesh(&m);
    assert_eq!(a.n_owned(), 2);

    // Set the two owned cells; poison a ghost to prove it is excluded.
    a.set(m.idx(0, 0, 0), F(3.0));
    a.set(m.idx(1, 0, 0), F(4.0));
    b.set(m.idx(0, 0, 0), F(3.0));
    b.set(m.idx(1, 0, 0), F(4.0));
    a.set(m.idx_raw(0, 0, 0), F(1e9)); // a ghost cell, which must not enter dot/norm

    assert_eq!(a.dot(&b), F(3.0 * 3.0 + 4.0 * 4.0)); // 25, ghost ignored
    assert!((a.norm().0 - 5.0).abs() < 1e-14);
}

#[test]
fn axpy_scale_copy_fill() {
    let m = mesh(3, 1, 1, 1);
    let mut x: CellVector<F> = CellVector::from_mesh(&m);
    x.fill(F(2.0));
    let mut y = CellVector::zeros_like(&x);
    y.fill(F(1.0));
    y.axpy(F(3.0), &x); // 1 + 3*2 = 7 everywhere
    for &c in y.owned() {
        assert_eq!(y.get(c), F(7.0));
    }
    y.scale(F(0.5)); // 3.5
    for &c in y.owned() {
        assert_eq!(y.get(c), F(3.5));
    }
    let mut z = CellVector::zeros_like(&x);
    z.copy_from(&y);
    assert_eq!(z.dot(&z), y.dot(&y));
}

#[test]
fn owned_cells_are_those_of_the_mesh() {
    let m = mesh(3, 2, 1, 1);
    let v: CellVector<F> = CellVector::from_mesh(&m);
    assert_eq!(v.n_total(), m.n_cells_total());
    assert_eq!(v.n_owned(), m.n_local_cells());
    let want: Vec<usize> = (0..m.n_cells_total()).filter(|&c| m.is_local_cell(c)).collect();
    assert_eq!(v.owned(), &want[..]);
    assert!(v.as_slice().iter().all(|x| *x == F(0.0)));
}

#[test]
fn a_vector_is_a_field_store() {
    let m = mesh(1, 1, 1, 1);
    let mut v: CellVector<F> = CellVector::from_mesh(&m);
    v.as_mut_slice()[4] = F(2.5);
    assert_eq!(FieldData::<F>::forward_size(&v), 1);
    assert_eq!(FieldData::<F>::reverse_size(&v), 0);
    let mut buf = Vec::new();
    v.pack_forward(4, &mut buf);
    assert_eq!(buf, vec![F(2.5)]);
    assert_eq!(v.unpack_forward(7, &buf), 1);
    assert_eq!(v.get(7), F(2.5));
}

/// The negative Laplacian on a structured mesh, with the standard 7-point stencil.
struct NegativeLaplacian<'m> {
    mesh: &'m UniformMesh<F>,
}

impl<'m> LinearOperator for NegativeLaplacian<'m> {
    type Vector = CellVector<F>;

    fn apply(&self, x: &CellVector<F>, y: &mut CellVector<F>) {
        let m = self.mesh;
        let ng = m.n_ghost();
        let d = m.dims();
        y.fill(F(0.0));
        for i in 0..d[0] {
            for j in 0..d[1] {
                for k in 0..d[2] {
                    let (ir, jr, kr) = (i + ng, j + ng, k + ng);
                    let c = m.idx_raw(ir, jr, kr);
                    let uc = x.get(c).0;
                    let mut a = 0.0;
                    let hx = m.spacing(0, i).0;
                    a += (2.0 * uc
                        - x.get(m.idx_raw(ir - 1, jr, kr)).0
                        - x.get(m.idx_raw(ir + 1, jr, kr)).0)
                        / (hx * hx);
                    let hy = m.spacing(1, j).0;
                    a += (2.0 * uc
                        - x.get(m.idx_raw(ir, jr - 1, kr)).0
                        - x.get(m.idx_raw(ir, jr + 1, kr)).0)
                        / (hy * hy);
                    let hz = m.spacing(2, k).0;
                    a += (2.0 * uc
                        - x.get(m.idx_raw(ir, jr, kr - 1)).0
                        - x.get(m.idx_raw(ir, jr, kr + 1)).0)
                        / (hz * hz);
                    y.set(c, F(a));
                }
            }
        }
    }
}

#[test]
fn laplacian_apply_matches_hand_computed_case() {
    // Every cell holds the cube of its raw x index, so that the second difference
    // along x is six times the index and those along y and z vanish.
    let m = mesh(3, 1, 1, 1);
    let total = m.total_dims(); // (5, 3, 3)
    let mut u: CellVector<F> = CellVector::from_mesh(&m);
    for ir in 0..total[0] {
        for jr in 0..total[1] {
            for kr in 0..total[2] {
                u.set(m.idx_raw(ir, jr, kr), F((ir as f64).powi(3)));
            }
        }
    }

    let a = NegativeLaplacian { mesh: &m };
    let mut y = CellVector::zeros_like(&u);
    a.apply(&u, &mut y);

    let got = [y.get(m.idx(0, 0, 0)).0, y.get(m.idx(1, 0, 0)).0, y.get(m.idx(2, 0, 0)).0];
    let want = [-6.0, -12.0, -18.0];
    for (g, w) in got.iter().zip(want.iter()) {
        assert!((g - w).abs() < 1e-12, "Laplacian apply {got:?} != hand-computed {want:?}");
    }
}

/// Textbook conjugate gradient, through the vector and operator traits only.
fn conjugate_gradient<A: LinearOperator<Vector = CellVector<F>>>(
    a: &A,
    b: &CellVector<F>,
    x: &mut CellVector<F>,
    max_iters: usize,
    tol: f64,
) -> (usize, f64) {
    let mut ax = CellVector::zeros_like(x);
    a.apply(x, &mut ax);
    let mut r = CellVector::zeros_like(x);
    r.copy_from(b);
    r.axpy(F(-1.0), &ax);
    let mut p = CellVector::zeros_like(x);
    p.copy_from(&r);
    let mut rs = r.dot(&r).0;

    for it in 0..max_iters {
        if rs.sqrt() <= tol {
            return (it, rs.sqrt());
        }
        a.apply(&p, &mut ax);
        let alpha = rs / p.dot(&ax).0;
        x.axpy(F(alpha), &p);
        r.axpy(F(-alpha), &ax);
        let rs_new = r.dot(&r).0;
        let beta = rs_new / rs;
        p.scale(F(beta));
        p.axpy(F(1.0), &r);
        rs = rs_new;
    }
    (max_iters, rs.sqrt())
}

#[test]
fn conjugate_gradient_solves_poisson_on_the_seam() {
    let n = 15usize;
    let m = mesh(n, 1, 1, 1);
    let a = NegativeLaplacian { mesh: &m };

    let mut u_exact: CellVector<F> = CellVector::from_mesh(&m);
    for i in 0..n {
        u_exact.set(m.idx(i, 0, 0), F((PI * (i as f64 + 1.0) / (n as f64 + 1.0)).sin()));
    }

    let mut b = CellVector::zeros_like(&u_exact);
    a.apply(&u_exact, &mut b);

    let mut x = CellVector::zeros_like(&u_exact);
    let (iters, resid) = conjugate_gradient(&a, &b, &mut x, 100, 1e-12);

    let mut err = CellVector::zeros_like(&x);
    err.copy_from(&x);
    err.axpy(F(-1.0), &u_exact);
    let e = err.norm().0;

    assert!(iters <= n, "CG took {iters} iterations for N={n}");
    assert!(resid < 1e-9, "CG residual {resid:e} too large");
    assert!(e < 1e-9, "solution error {e:e} too large");
}

#[test]
fn partial_dots_of_two_ranks_add_up() {
    let cfg = UniformMeshConfig {
        nx: 5,
        ny: 2,
        nz: 1,
        ng: 1,
        bounds_lo: [F(0.0); 3],
        bounds_hi: [F(1.0); 3],
        y_edges: None,
        z_edges: None,
    };
    let value = |m: &UniformMesh<F>, c: usize| F((m.cell_centroid(c)[0].0 * 10.0).round());
    let mut dots = Vec::new();
    for (size, rank) in [(1i32, 0i32), (2, 0), (2, 1)] {
        let part = match decompose_mesh(&cfg, rank, size) {
            Some(part) => part.mesh,
            None => UniformMesh::from_config(&cfg),
        };
        let mut v = CellVector::from_mesh(&part);
        for c in 0..part.n_cells_total() {
            v.set(c, value(&part, c));
        }
        dots.push(v.dot(&v).0);
    }
    assert_eq!(dots[0], 2.0 * (1.0 + 9.0 + 25.0 + 49.0 + 81.0));
    assert_eq!(dots[1] + dots[2], dots[0]);
    assert!(dots[1] > 0.0 && dots[2] > 0.0);
}
