//! Process grids and rank positions.

use field::decomposition::{
    factor_decomposition, partition_span, rank_position, try_factor_decomposition,
};

#[test]
fn decomposition_factors_balance_and_multiply() {
    assert_eq!(factor_decomposition(1, [10, 10, 10]), [1, 1, 1]);
    assert_eq!(factor_decomposition(8, [16, 16, 16]), [2, 2, 2]);
    // z is a single cell: all splitting goes to x and y.
    assert_eq!(factor_decomposition(4, [16, 16, 1]), [2, 2, 1]);
    assert_eq!(factor_decomposition(7, [14, 1, 1]), [7, 1, 1]);
    for &(size, g) in &[(6i32, [12usize, 12, 12]), (12, [24, 24, 24]), (5, [10, 5, 5])] {
        let d = factor_decomposition(size, g);
        assert_eq!(d[0] * d[1] * d[2], size, "product must equal rank count");
        for axis in 0..3 {
            assert!(d[axis] as usize <= g[axis], "never finer than the cell count");
        }
    }
}

#[test]
fn rank_position_inverts_neighbor_ordering() {
    let decomp = [2, 2, 2];
    assert_eq!(rank_position(5, decomp), [1, 0, 1]);
    let n = decomp[0] * decomp[1] * decomp[2];
    let mut seen = std::collections::HashSet::new();
    for r in 0..n {
        let p = rank_position(r, decomp);
        assert!((0..3).all(|a| p[a] >= 0 && p[a] < decomp[a]));
        assert!(seen.insert(p), "positions must be unique");
    }
}

#[test]
fn spans_lie_end_to_end() {
    for n in 1..20usize {
        for parts in 1..=n {
            let mut next = 0;
            for p in 0..parts {
                let (start, count) = partition_span(n, parts, p);
                assert_eq!(start, next);
                assert!(count == n / parts || count == n / parts + 1);
                next = start + count;
            }
            assert_eq!(next, n);
        }
    }
    assert_eq!(partition_span(5, 2, 0), (0, 3));
    assert_eq!(partition_span(5, 2, 1), (3, 2));
}

#[test]
fn too_many_ranks_leave_no_process_grid() {
    assert_eq!(try_factor_decomposition(7, [3, 3, 3]), None);
    assert_eq!(try_factor_decomposition(30, [5, 3, 2]), Some([5, 3, 2]));
    assert_eq!(try_factor_decomposition(1, [0, 0, 0]), Some([1, 1, 1]));
}

#[test]
fn a_greedy_dead_end_is_searched_around() {
    // The greedy pass gives the factor three to x and then has no room for two twos.
    assert_eq!(factor_decomposition(12, [4, 3, 1]), [4, 3, 1]);
    assert_eq!(try_factor_decomposition(12, [3, 1, 4]), Some([3, 1, 4]));
    assert_eq!(try_factor_decomposition(12, [2, 3, 1]), None);
}
