//! The ownership directory.

use field::mesh::FvMesh;
use field::partition::{Bounds3, PartitionDirectory, PartitionExtent};
use field::scalar::Scalar;
use field::uniform::{UniformMesh, UniformMeshConfig};

/// Double precision as a scalar.
#[derive(Clone, Copy, Debug, PartialEq)]
struct F(f64);

impl Scalar for F {
    fn zero() -> Self {
        F(0.0)
    }
    fn one() -> Self {
        F(1.0)
    }
    fn tiny() -> Self {
        F(1e-30)
    }
    fn slop() -> Self {
        F(1e-9)
    }
    fn from_count(n: usize) -> Self {
        F(n as f64)
    }
    fn from_signed(n: i64) -> Self {
        F(n as f64)
    }
    fn plus(self, rhs: Self) -> Self {
        F(self.0 + rhs.0)
    }
    fn minus(self, rhs: Self) -> Self {
        F(self.0 - rhs.0)
    }
    fn times(self, rhs: Self) -> Self {
        F(self.0 * rhs.0)
    }
    fn over(self, rhs: Self) -> Self {
        F(self.0 / rhs.0)
    }
    fn negated(self) -> Self {
        F(-self.0)
    }
    fn halved(self) -> Self {
        F(0.5 * self.0)
    }
    fn floored(self) -> Self {
        F(self.0.floor())
    }
    fn root(self) -> Self {
        F(self.0.sqrt())
    }
    fn to_index(self) -> usize {
        self.0 as usize
    }
    fn less(self, rhs: Self) -> bool {
        self.0 < rhs.0
    }
    fn at_most(self, rhs: Self) -> bool {
        self.0 <= rhs.0
    }
    fn equals(self, rhs: Self) -> bool {
        self.0 == rhs.0
    }
}

fn fv(v: [f64; 3]) -> [F; 3] {
    [F(v[0]), F(v[1]), F(v[2])]
}

fn bounds(lo: [f64; 3], hi: [f64; 3]) -> Bounds3<F> {
    Bounds3::new(fv(lo), fv(hi))
}

fn x_split() -> PartitionDirectory<F> {
    PartitionDirectory::from_uniform_config(
        &UniformMeshConfig {
            nx: 10,
            ny: 2,
            nz: 2,
            ng: 1,
            bounds_lo: fv([0.0, 0.0, 0.0]),
            bounds_hi: fv([1.0, 1.0, 1.0]),
            y_edges: None,
            z_edges: None,
        },
        [2, 1, 1],
    )
}

#[test]
fn point_owner_uses_half_open_internal_boundary() {
    let directory = x_split();
    assert_eq!(directory.owner_rank(fv([0.0, 0.5, 0.5])), Some(0));
    assert_eq!(directory.owner_rank(fv([0.499, 0.5, 0.5])), Some(0));
    assert_eq!(directory.owner_rank(fv([0.5, 0.5, 0.5])), Some(1));
    assert_eq!(directory.owner_rank(fv([1.0, 0.5, 0.5])), Some(1));
    assert_eq!(directory.owner_rank(fv([1.1, 0.5, 0.5])), None);
}

#[test]
fn finite_support_can_overlap_both_owners() {
    let directory = x_split();
    assert_eq!(
        directory.overlapping_ranks(bounds([0.45, 0.2, 0.2], [0.55, 0.8, 0.8])),
        vec![0, 1]
    );
    assert_eq!(
        directory.overlapping_ranks(bounds([0.1, 0.2, 0.2], [0.2, 0.8, 0.8])),
        vec![0]
    );
}

#[test]
fn uneven_cell_counts_produce_exact_partition_edges() {
    let directory = PartitionDirectory::from_uniform_config(
        &UniformMeshConfig {
            nx: 5,
            ny: 1,
            nz: 1,
            ng: 1,
            bounds_lo: fv([0.0; 3]),
            bounds_hi: fv([1.0; 3]),
            y_edges: None,
            z_edges: None,
        },
        [2, 1, 1],
    );
    assert_eq!(directory.extents()[0].bounds.hi[0], F(0.6));
    assert_eq!(directory.extents()[1].bounds.lo[0], F(0.6));
}

#[test]
fn extents_follow_the_ranks() {
    let edges: Vec<F> = [0.0, 1.0, 4.0, 9.0].iter().map(|&e| F(e)).collect();
    let d = PartitionDirectory::from_uniform_config(
        &UniformMeshConfig {
            nx: 4,
            ny: 3,
            nz: 2,
            ng: 1,
            bounds_lo: fv([0.0; 3]),
            bounds_hi: fv([4.0, 9.0, 2.0]),
            y_edges: Some(edges),
            z_edges: None,
        },
        [2, 2, 2],
    );
    assert_eq!(d.role_size(), 8);
    for (q, e) in d.extents().iter().enumerate() {
        assert_eq!(e.role_rank, q as i32);
    }
    // Rank 5 sits at (1, 0, 1); y deals two cells to its first part.
    assert_eq!(d.extents()[5].bounds, bounds([2.0, 0.0, 1.0], [4.0, 4.0, 2.0]));
    // Every point of the domain has exactly one owner.
    for i in 0..9 {
        for j in 0..10 {
            for k in 0..5 {
                let p = fv([i as f64 * 0.5, j as f64, k as f64 * 0.5]);
                assert!(d.owner_rank(p).is_some());
            }
        }
    }
    assert_eq!(d.owner_rank(fv([2.0, 4.0, 1.0])), Some(7));
    assert_eq!(d.owner_rank(fv([4.0, 9.0, 2.0])), Some(7));
}

#[test]
fn a_rank_with_several_extents_is_listed_once() {
    let e = |role_rank: i32, lo: f64, hi: f64| PartitionExtent {
        role_rank,
        bounds: bounds([lo, 0.0, 0.0], [hi, 1.0, 1.0]),
    };
    let d = PartitionDirectory::new(
        3,
        bounds([0.0; 3], [4.0, 1.0, 1.0]),
        vec![e(2, 0.0, 1.0), e(0, 1.0, 2.0), e(2, 2.0, 3.0), e(1, 3.0, 4.0)],
    );
    assert_eq!(d.overlapping_ranks(bounds([0.5, 0.0, 0.0], [4.0, 1.0, 1.0])), vec![0, 1, 2]);
    assert_eq!(d.overlapping_ranks(bounds([2.0, 0.0, 0.0], [3.0, 1.0, 1.0])), vec![2]);
    // A support whose corners coincide is a point query.
    assert_eq!(d.overlapping_ranks(bounds([2.0, 0.5, 0.5], [2.0, 0.5, 0.5])), vec![2]);
    assert!(d.overlapping_ranks(bounds([9.0, 0.5, 0.5], [9.0, 0.5, 0.5])).is_empty());
    // So is any other support without volume, at its lower corner.
    assert_eq!(d.overlapping_ranks(bounds([2.0, 0.0, 0.0], [2.0, 1.0, 1.0])), vec![2]);
    assert_eq!(d.overlapping_ranks(bounds([0.5, 0.5, 0.5], [3.5, 0.5, 0.5])), vec![2]);
}

#[test]
fn the_global_high_boundary_has_an_owner() {
    let cfg = UniformMeshConfig {
        nx: 3,
        ny: 1,
        nz: 1,
        ng: 1,
        bounds_lo: fv([0.0; 3]),
        bounds_hi: fv([0.7, 1.0, 1.0]),
        y_edges: None,
        z_edges: None,
    };
    let d = PartitionDirectory::from_uniform_config(&cfg, [1, 1, 1]);
    assert_eq!(d.owner_rank(fv([0.7, 0.5, 0.5])), Some(0));
    assert_eq!(d.owner_rank(fv([0.7, 1.0, 1.0])), Some(0));
    assert_eq!(d.owner_rank(fv([0.71, 0.5, 0.5])), None);
}

#[test]
fn a_segment_is_a_point_query() {
    let cfg = UniformMeshConfig {
        nx: 10,
        ny: 2,
        nz: 2,
        ng: 1,
        bounds_lo: fv([0.0; 3]),
        bounds_hi: fv([1.0; 3]),
        y_edges: None,
        z_edges: None,
    };
    let d = PartitionDirectory::from_uniform_config(&cfg, [2, 1, 1]);
    assert_eq!(d.overlapping_ranks(bounds([0.2, 0.5, 0.5], [0.8, 0.5, 0.5])), vec![0]);
}

#[test]
fn every_rank_owns_the_centers_of_its_cells() {
    let cfg = UniformMeshConfig {
        nx: 7,
        ny: 4,
        nz: 2,
        ng: 1,
        bounds_lo: fv([-1.0, 0.0, 2.0]),
        bounds_hi: fv([0.7, 9.0, 3.0]),
        y_edges: Some(vec![F(0.0), F(1.0), F(4.0), F(5.0), F(9.0)]),
        z_edges: None,
    };
    let directory = PartitionDirectory::from_uniform_config(&cfg, [3, 2, 1]);
    let mut seen = 0;
    for px in 0..3 {
        for py in 0..2 {
            let m = UniformMesh::from_config_decomposed(&cfg, [3, 2, 1], [px, py, 0]);
            for c in 0..m.n_cells_total() {
                if m.is_local_cell(c) {
                    let owner = directory.owner_rank(m.cell_centroid(c));
                    assert_eq!(owner, Some((px * 2 + py) as i32), "cell {c} of ({px}, {py})");
                    seen += 1;
                }
            }
        }
    }
    assert_eq!(seen, 7 * 4 * 2);
}

#[test]
fn directories_compare_by_what_they_hold() {
    assert_eq!(x_split(), x_split().clone());
    let whole = bounds([0.0; 3], [1.0; 3]);
    assert_ne!(x_split(), PartitionDirectory::new(2, whole, vec![]));
}
