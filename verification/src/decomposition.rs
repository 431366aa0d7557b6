//! Splitting a structured grid over ranks: the process grid, the rank ordering,
//! and the run of cells each rank receives along an axis.

use vstd::arithmetic::div_mod::*;
use vstd::arithmetic::mul::*;
use vstd::prelude::*;

verus! {

// ---------------------------------------------------------------------------
// Spans: the cells of one axis that one part owns.
// ---------------------------------------------------------------------------

/// The first cell of part `p` when `n` cells are dealt to `parts` parts, the
/// leading `n % parts` parts receiving one cell more.
pub open spec fn span_start(n: int, parts: int, p: int) -> int {
    let extra: int = if p < n % parts {
        p
    } else {
        n % parts
    };
    p * (n / parts) + extra
}

/// The number of cells of part `p`.
pub open spec fn span_count(n: int, parts: int, p: int) -> int {
    n / parts + (if p < n % parts {
        1int
    } else {
        0int
    })
}

/// The `(offset, count)` of the cells that part `position` of `parts` owns.
pub fn partition_span(global_n: usize, parts: usize, position: usize) -> (r: (usize, usize))
    requires
        parts > 0,
        span_start(global_n as int, parts as int, position as int) <= usize::MAX,
    ensures
        r.0 == span_start(global_n as int, parts as int, position as int),
        r.1 == span_count(global_n as int, parts as int, position as int),
{
    let base: usize = global_n / parts;
    let remainder: usize = global_n % parts;
    proof {
        let n: int = global_n as int;
        lemma_fundamental_div_mod(n, parts as int);
        lemma_mod_bound(n, parts as int);
        let q: int = n / parts as int;
        let rem: int = n % (parts as int);
        assert(position * (q + 1) == position * q + position) by (nonlinear_arith);
        assert(rem * (q + 1) == rem * q + rem) by (nonlinear_arith);
        assert((position - rem) * q == position * q - rem * q) by (nonlinear_arith);
        if rem > 0 {
            assert(parts * q + rem <= usize::MAX);
            assert(q + 1 <= parts * q + rem) by (nonlinear_arith)
                requires
                    parts > 0,
                    q >= 0,
                    rem >= 1,
            ;
        }
        if position >= rem {
            assert((position - rem) * q >= 0) by (nonlinear_arith)
                requires
                    position >= rem,
                    q >= 0,
            ;
            assert(rem * q >= 0) by (nonlinear_arith)
                requires
                    rem >= 0,
                    q >= 0,
            ;
        }
    }
    if position < remainder {
        (position * (base + 1), base + 1)
    } else if remainder == 0 {
        (position * base, base)
    } else {
        (remainder * (base + 1) + (position - remainder) * base, base)
    }
}

/// The spans of all parts lie end to end: they start at zero, each starts where
/// the one before it ends, and the last ends at `n`.
pub proof fn spans_tile_the_axis(n: int, parts: int)
    requires
        n >= 0,
        parts > 0,
    ensures
        span_start(n, parts, 0) == 0,
        span_start(n, parts, parts) == n,
        forall|p: int|
            0 <= p ==> #[trigger] span_start(n, parts, p + 1) == span_start(n, parts, p)
                + span_count(n, parts, p),
{
    lemma_fundamental_div_mod(n, parts);
    lemma_mod_bound(n, parts);
    assert forall|p: int| 0 <= p implies #[trigger] span_start(n, parts, p + 1) == span_start(
        n,
        parts,
        p,
    ) + span_count(n, parts, p) by {
        let q: int = n / parts;
        assert((p + 1) * q == p * q + q) by (nonlinear_arith);
    }
}

/// The starts of the spans ascend.
pub proof fn spans_ascend(n: int, parts: int, p: int, q: int)
    requires
        n >= 0,
        parts > 0,
        0 <= p <= q,
    ensures
        span_start(n, parts, p) <= span_start(n, parts, q),
        p < q ==> span_start(n, parts, p) + span_count(n, parts, p) <= span_start(n, parts, q),
    decreases q - p,
{
    lemma_div_pos_is_pos(n, parts);
    if p < q {
        spans_tile_the_axis(n, parts);
        assert(span_start(n, parts, p + 1) == span_start(n, parts, p) + span_count(n, parts, p));
        spans_ascend(n, parts, p + 1, q);
    }
}

/// No part owns more than one cell beyond any other, and no part is empty where
/// there are at least as many cells as parts.
pub proof fn spans_are_balanced(n: int, parts: int, p: int, q: int)
    requires
        n >= 0,
        parts > 0,
    ensures
        span_count(n, parts, p) <= span_count(n, parts, q) + 1,
        parts <= n ==> span_count(n, parts, p) >= 1,
{
    if parts <= n {
        lemma_div_non_zero(n, parts);
    }
}

/// Where the cells do not divide evenly, the parts that own one more come first.
pub proof fn larger_spans_come_first(n: int, parts: int, p: int, q: int)
    requires
        n >= 0,
        parts > 0,
        0 <= p <= q < parts,
    ensures
        span_count(n, parts, q) <= span_count(n, parts, p),
{
}

/// A part within the grid owns a span within the axis.
pub proof fn span_is_inside(n: int, parts: int, p: int)
    requires
        n >= 0,
        parts > 0,
        0 <= p < parts,
    ensures
        0 <= span_start(n, parts, p),
        0 <= span_count(n, parts, p),
        span_start(n, parts, p) + span_count(n, parts, p) <= n,
{
    lemma_div_pos_is_pos(n, parts);
    lemma_mod_bound(n, parts);
    spans_tile_the_axis(n, parts);
    spans_ascend(n, parts, 0, p);
    spans_ascend(n, parts, p, parts);
}

// ---------------------------------------------------------------------------
// The rank ordering of a process grid.
// ---------------------------------------------------------------------------

/// Rank of the process at `(px, py, pz)`, z fastest.
pub open spec fn rank_at(px: int, py: int, pz: int, ny: int, nz: int) -> int {
    px * (ny * nz) + py * nz + pz
}

/// This rank's `[px, py, pz]` position in the process grid, inverting the rank
/// ordering `rank = px*(npy*npz) + py*npz + pz` that neighbor lookup uses.
pub fn rank_position(rank: i32, decomp: [i32; 3]) -> (r: [i32; 3])
    requires
        rank >= 0,
        decomp[1] > 0,
        decomp[2] > 0,
        decomp[1] * decomp[2] <= i32::MAX,
    ensures
        r[0] == rank as int / (decomp[1] * decomp[2]),
        r[1] == (rank as int / decomp[2] as int) % (decomp[1] as int),
        r[2] == rank as int % (decomp[2] as int),
{
    let ny: i32 = decomp[1];
    let nz: i32 = decomp[2];
    assert(ny * nz >= 1) by (nonlinear_arith)
        requires
            ny > 0,
            nz > 0,
    ;
    [rank / (ny * nz), (rank / nz) % ny, rank % nz]
}

/// `rank_position` and `rank_at` are inverse to each other: positions inside the
/// grid correspond one to one to the ranks below the grid's size.
pub proof fn rank_positions_are_unique(px: int, py: int, pz: int, ny: int, nz: int)
    requires
        0 <= px,
        0 <= py < ny,
        0 <= pz < nz,
    ensures
        rank_at(px, py, pz, ny, nz) / (ny * nz) == px,
        (rank_at(px, py, pz, ny, nz) / nz) % ny == py,
        rank_at(px, py, pz, ny, nz) % nz == pz,
{
    let rank: int = rank_at(px, py, pz, ny, nz);
    let row: int = px * ny + py;
    assert(rank == row * nz + pz) by (nonlinear_arith)
        requires
            rank == px * (ny * nz) + py * nz + pz,
            row == px * ny + py,
    ;
    lemma_fundamental_div_mod_converse(rank, nz, row, pz);
    lemma_fundamental_div_mod_converse(row, ny, px, py);
    lemma_div_denominator(rank, nz, ny);
    lemma_mul_is_commutative(nz, ny);
}

/// Every rank of the grid has a position inside it, and that position's rank is
/// the rank itself.
pub proof fn every_rank_has_a_position(rank: int, nx: int, ny: int, nz: int)
    requires
        nx > 0,
        ny > 0,
        nz > 0,
        0 <= rank < nx * (ny * nz),
    ensures
        0 <= rank / (ny * nz) < nx,
        0 <= (rank / nz) % ny < ny,
        0 <= rank % nz < nz,
        rank_at(rank / (ny * nz), (rank / nz) % ny, rank % nz, ny, nz) == rank,
{
    assert(ny * nz >= 1) by (nonlinear_arith)
        requires
            ny > 0,
            nz > 0,
    ;
    let plane: int = ny * nz;
    lemma_div_pos_is_pos(rank, plane);
    lemma_fundamental_div_mod(rank, plane);
    lemma_mod_bound(rank, plane);
    assert(rank / plane < nx) by (nonlinear_arith)
        requires
            rank < nx * plane,
            plane * (rank / plane) <= rank,
            plane >= 1,
    ;
    lemma_mod_bound(rank / nz, ny);
    lemma_mod_bound(rank, nz);
    lemma_fundamental_div_mod(rank, nz);
    lemma_fundamental_div_mod(rank / nz, ny);
    lemma_div_denominator(rank, nz, ny);
    lemma_mul_is_commutative(nz, ny);
    let row: int = rank / nz;
    let px: int = rank / plane;
    let py: int = row % ny;
    assert(row == ny * px + py);
    assert(nz * row == px * plane + py * nz) by (nonlinear_arith)
        requires
            row == ny * px + py,
            plane == ny * nz,
    ;
}

/// Ranks are numbered along z first, then along y, then along x.
pub proof fn ranks_run_along_z_first(px: int, py: int, pz: int, ny: int, nz: int)
    ensures
        rank_at(px, py, pz + 1, ny, nz) == rank_at(px, py, pz, ny, nz) + 1,
        rank_at(px, py + 1, pz, ny, nz) == rank_at(px, py, pz, ny, nz) + nz,
        rank_at(px + 1, py, pz, ny, nz) == rank_at(px, py, pz, ny, nz) + ny * nz,
        rank_at(0, 0, 0, ny, nz) == 0,
{
    assert((py + 1) * nz == py * nz + nz) by (nonlinear_arith);
    assert((px + 1) * (ny * nz) == px * (ny * nz) + ny * nz) by (nonlinear_arith);
}

// ---------------------------------------------------------------------------
// Factoring the rank count into a process grid.
// ---------------------------------------------------------------------------

/// `d` is the least divisor of `n` above one.
pub open spec fn is_least_divisor(n: int, d: int) -> bool {
    &&& 2 <= d
    &&& n % d == 0
    &&& forall|e: int| 2 <= e < d ==> #[trigger] (n % e) != 0
}

/// The least divisor of `n` above one.
pub open spec fn least_divisor(n: int) -> int {
    choose|d: int| is_least_divisor(n, d)
}

/// The prime factors of `n`, largest first.
pub open spec fn prime_factors(n: int) -> Seq<int>
    decreases n,
{
    let d: int = least_divisor(n);
    if n < 2 || d < 2 || n / d >= n {
        Seq::empty()
    } else {
        prime_factors(n / d).push(d)
    }
}

/// `n` is prime.
pub open spec fn is_prime(n: int) -> bool {
    n >= 2 && forall|e: int| 2 <= e < n ==> #[trigger] (n % e) != 0
}

/// The product of `s`.
pub open spec fn product(s: Seq<int>) -> int
    decreases s.len(),
{
    if s.len() == 0 {
        1
    } else {
        s[0] * product(s.drop_first())
    }
}

/// The cells along an axis, at least one.
pub open spec fn axis_room(cells: int) -> int {
    if cells < 1 {
        1
    } else {
        cells
    }
}

/// Splitting axis `d` by a further `fac` leaves no rank without a cell.
pub open spec fn can_split(fac: int, grid: Seq<int>, cells: Seq<int>, d: int) -> bool {
    grid[d] * fac <= axis_room(cells[d])
}

/// Axis `a` has more cells per rank than axis `b`.
pub open spec fn busier(grid: Seq<int>, cells: Seq<int>, a: int, b: int) -> bool {
    cells[a] * grid[b] > cells[b] * grid[a]
}

/// Among the axes below `upto` that `fac` can split, the one with the most cells
/// per rank; the lowest such axis on a tie.
pub open spec fn busiest_axis(fac: int, grid: Seq<int>, cells: Seq<int>, upto: int) -> Option<int>
    decreases upto,
{
    if upto <= 0 {
        None
    } else {
        let before: Option<int> = busiest_axis(fac, grid, cells, upto - 1);
        let d: int = upto - 1;
        if can_split(fac, grid, cells, d) && (before is None || busier(grid, cells, d, before->0)) {
            Some(d)
        } else {
            before
        }
    }
}

/// Distribute `factors` in order, each to the busiest axis of the grid so far.
pub open spec fn distribute(factors: Seq<int>, grid: Seq<int>, cells: Seq<int>) -> Option<Seq<int>>
    decreases factors.len(),
{
    if factors.len() == 0 {
        Some(grid)
    } else {
        match busiest_axis(factors[0], grid, cells, 3) {
            None => None,
            Some(d) => distribute(
                factors.drop_first(),
                grid.update(d, grid[d] * factors[0]),
                cells,
            ),
        }
    }
}

/// A process grid of `size` ranks that leaves no rank without a cell.
pub open spec fn is_placement(r: Seq<int>, size: int, cells: Seq<int>) -> bool {
    &&& r.len() == 3
    &&& volume(r) == size
    &&& forall|d: int| 0 <= d < 3 ==> 1 <= #[trigger] r[d] <= axis_room(cells[d])
}

/// `size` ranks can be placed without leaving any of them without a cell.
pub open spec fn can_place(size: int, cells: Seq<int>) -> bool {
    exists|r: Seq<int>| #[trigger] is_placement(r, size, cells)
}

/// Splitting x into `a` parts and y into `b` leaves a whole number of parts along z,
/// and no rank without a cell.
pub open spec fn splits_evenly(size: int, cells: Seq<int>, a: int, b: int) -> bool {
    &&& 1 <= a <= axis_room(cells[0])
    &&& size % a == 0
    &&& 1 <= b <= axis_room(cells[1])
    &&& (size / a) % b == 0
    &&& size / a / b <= axis_room(cells[2])
}

/// The largest number of parts along y, up to `upto`, that goes with `a` parts along
/// x.
pub open spec fn widest_y(size: int, cells: Seq<int>, a: int, upto: int) -> Option<int>
    decreases upto,
{
    if upto <= 0 {
        None
    } else if splits_evenly(size, cells, a, upto) {
        Some(upto)
    } else {
        widest_y(size, cells, a, upto - 1)
    }
}

/// The process grid with the most parts along x, up to `upto`, and of those the one
/// with the most along y.
pub open spec fn widest_grid(size: int, cells: Seq<int>, upto: int) -> Option<Seq<int>>
    decreases upto,
{
    if upto <= 0 {
        None
    } else {
        match widest_y(size, cells, upto, size / upto) {
            Some(b) => Some(seq![upto, b, size / upto / b]),
            None => widest_grid(size, cells, upto - 1),
        }
    }
}

/// The process grid for `size` ranks over `cells`, if there is one: the prime
/// factors of `size`, largest first, each given to the axis with the most cells
/// per rank, never splitting an axis finer than its cell count. Where that leads
/// nowhere, the widest grid that leaves no rank without a cell.
pub open spec fn process_grid(size: int, cells: Seq<int>) -> Option<Seq<int>> {
    match distribute(prime_factors(size), seq![1, 1, 1], cells) {
        Some(grid) => Some(grid),
        None => widest_grid(size, cells, size),
    }
}

/// The three entries of a grid shape.
pub open spec fn shape_of(a: [i32; 3]) -> Seq<int> {
    seq![a[0] as int, a[1] as int, a[2] as int]
}

/// The three entries of a cell count.
pub open spec fn cells_of(a: [usize; 3]) -> Seq<int> {
    seq![a[0] as int, a[1] as int, a[2] as int]
}

/// A number above one has a least divisor, at most itself.
proof fn least_divisor_exists(n: int, from: int)
    requires
        n >= 2,
        2 <= from <= n,
        forall|e: int| 2 <= e < from ==> #[trigger] (n % e) != 0,
    ensures
        is_least_divisor(n, least_divisor(n)),
        from <= least_divisor(n) <= n,
    decreases n - from,
{
    if n % from == 0 {
        assert(is_least_divisor(n, from));
        least_divisor_is_unique(n, from, least_divisor(n));
    } else {
        lemma_mod_self_0(n);
        assert(from != n);
        assert forall|e: int| 2 <= e < from + 1 implies #[trigger] (n % e) != 0 by {
            if e == from {
            }
        }
        least_divisor_exists(n, from + 1);
    }
}

/// A number has one least divisor.
proof fn least_divisor_is_unique(n: int, a: int, b: int)
    requires
        is_least_divisor(n, a),
        is_least_divisor(n, b),
    ensures
        a == b,
{
    if a < b {
        assert(n % a == 0);
    }
    if b < a {
        assert(n % b == 0);
    }
}

/// Dividing by the least divisor takes the last prime factor off.
proof fn prime_factors_step(n: int, d: int)
    requires
        n >= 2,
        is_least_divisor(n, d),
        d <= n,
    ensures
        1 <= n / d < n,
        n == (n / d) * d,
        prime_factors(n) == prime_factors(n / d).push(d),
{
    least_divisor_is_unique(n, d, least_divisor(n));
    lemma_fundamental_div_mod(n, d);
    lemma_div_is_strictly_smaller(n, d);
    lemma_div_non_zero(n, d);
    lemma_mul_is_commutative(n / d, d);
}

/// A divisor of `n / d` divides `n`.
proof fn divisor_of_quotient(n: int, d: int, e: int)
    requires
        n >= 1,
        d >= 1,
        e >= 1,
        n % d == 0,
        (n / d) % e == 0,
    ensures
        n % e == 0,
{
    lemma_fundamental_div_mod(n, d);
    lemma_fundamental_div_mod(n / d, e);
    let q: int = (n / d) / e;
    assert(n == (d * q) * e) by (nonlinear_arith)
        requires
            n == d * (n / d),
            n / d == e * q,
    ;
    lemma_mod_multiples_basic(d * q, e);
}

/// A number with no divisor up to its square root is its own least divisor.
proof fn no_small_divisor(n: int, f: int)
    requires
        n >= 2,
        f >= 2,
        f * f > n,
        forall|e: int| 2 <= e < f ==> #[trigger] (n % e) != 0,
    ensures
        is_least_divisor(n, n),
{
    lemma_mod_self_0(n);
    assert forall|e: int| 2 <= e < n implies #[trigger] (n % e) != 0 by {
        if e >= f && n % e == 0 {
            lemma_fundamental_div_mod(n, e);
            let q: int = n / e;
            assert(q < f) by (nonlinear_arith)
                requires
                    n == e * q,
                    e >= f,
                    f * f > n,
                    f >= 2,
            ;
            assert(q >= 2) by (nonlinear_arith)
                requires
                    n == e * q,
                    2 <= e < n,
            ;
            assert(n == e * q + 0);
            lemma_mod_multiples_basic(e, q);
            assert(n % q == 0);
        }
    }
}

/// The product of a sequence that grew at its end.
proof fn product_push(s: Seq<int>, x: int)
    ensures
        product(s.push(x)) == product(s) * x,
    decreases s.len(),
{
    if s.len() == 0 {
        assert(s.push(x).drop_first() =~= Seq::<int>::empty());
        assert(product(Seq::<int>::empty()) == 1);
        lemma_mul_basics(x);
    } else {
        assert(s.push(x).drop_first() =~= s.drop_first().push(x));
        product_push(s.drop_first(), x);
        lemma_mul_is_associative(s[0], product(s.drop_first()), x);
    }
}

/// `prime_factors` lists primes, in descending order, whose product is `n`.
pub proof fn prime_factors_are_the_factorization(n: int)
    requires
        n >= 1,
    ensures
        product(prime_factors(n)) == n,
        forall|i: int| 0 <= i < prime_factors(n).len() ==> is_prime(#[trigger] prime_factors(n)[i]),
        forall|i: int, j: int|
            0 <= i <= j < prime_factors(n).len() ==> prime_factors(n)[i] >= prime_factors(n)[j],
        n >= 2 ==> prime_factors(n).len() > 0 && prime_factors(n).last() == least_divisor(n),
    decreases n,
{
    if n >= 2 {
        assert forall|e: int| 2 <= e < 2 implies #[trigger] (n % e) != 0 by {}
        least_divisor_exists(n, 2);
        let d: int = least_divisor(n);
        prime_factors_step(n, d);
        let rest: int = n / d;
        prime_factors_are_the_factorization(rest);
        product_push(prime_factors(rest), d);
        assert forall|e: int| 2 <= e < d implies #[trigger] (d % e) != 0 by {
            if d % e == 0 {
                lemma_fundamental_div_mod(d, e);
                lemma_fundamental_div_mod(n, d);
                assert(n == (rest * (d / e)) * e) by (nonlinear_arith)
                    requires
                        n == d * rest,
                        d == e * (d / e),
                ;
                lemma_mod_multiples_basic(rest * (d / e), e);
            }
        }
        assert(is_prime(d));
        if rest >= 2 {
            assert forall|e: int| 2 <= e < 2 implies #[trigger] (rest % e) != 0 by {}
            least_divisor_exists(rest, 2);
            let f: int = least_divisor(rest);
            divisor_of_quotient(n, d, f);
            assert(f >= d);
        }
        assert forall|i: int, j: int|
            0 <= i <= j < prime_factors(n).len() implies prime_factors(n)[i]
            >= prime_factors(n)[j] by {
            let rf: Seq<int> = prime_factors(rest);
            if j == rf.len() && i < j {
                assert(rf[i] >= rf[rf.len() - 1]);
                assert(rf.last() == least_divisor(rest));
            }
        }
    }
}

/// The product of three entries.
pub open spec fn volume(s: Seq<int>) -> int {
    s[0] * s[1] * s[2]
}

/// Multiplying one entry multiplies the product.
proof fn volume_update(s: Seq<int>, d: int, f: int)
    requires
        s.len() == 3,
        0 <= d < 3,
    ensures
        volume(s.update(d, s[d] * f)) == volume(s) * f,
{
    let a: int = s[0];
    let b: int = s[1];
    let c: int = s[2];
    assert((a * f) * b * c == a * b * c * f) by (nonlinear_arith);
    assert(a * (b * f) * c == a * b * c * f) by (nonlinear_arith);
    assert(a * b * (c * f) == a * b * c * f) by (nonlinear_arith);
}

/// The axis that `busiest_axis` names can be split, has at least the cells per
/// rank of every other axis that can, and more than each lower one; and it names
/// none only where no axis can be split.
pub proof fn busiest_axis_is_busiest(fac: int, grid: Seq<int>, cells: Seq<int>, upto: int)
    requires
        0 <= upto <= 3,
        grid.len() == 3,
        cells.len() == 3,
        forall|d: int| 0 <= d < 3 ==> #[trigger] grid[d] >= 1,
        forall|d: int| 0 <= d < 3 ==> #[trigger] cells[d] >= 0,
    ensures
        match busiest_axis(fac, grid, cells, upto) {
            Some(d) => {
                &&& 0 <= d < upto
                &&& can_split(fac, grid, cells, d)
                &&& forall|e: int|
                    0 <= e < upto && can_split(fac, grid, cells, e) ==> !busier(grid, cells, e, d)
                &&& forall|e: int|
                    0 <= e < d && can_split(fac, grid, cells, e) ==> busier(grid, cells, d, e)
            },
            None => forall|e: int| 0 <= e < upto ==> !can_split(fac, grid, cells, e),
        },
    decreases upto,
{
    if upto > 0 {
        busiest_axis_is_busiest(fac, grid, cells, upto - 1);
        let d: int = upto - 1;
        let before: Option<int> = busiest_axis(fac, grid, cells, d);
        if before is Some && can_split(fac, grid, cells, d) {
            let b: int = before->0;
            if busier(grid, cells, d, b) {
                assert forall|e: int|
                    0 <= e < d && can_split(fac, grid, cells, e) implies busier(
                    grid,
                    cells,
                    d,
                    e,
                ) by {
                    assert(!busier(grid, cells, e, b));
                    let (cd, ce, cb) = (cells[d], cells[e], cells[b]);
                    let (gd, ge, gb) = (grid[d], grid[e], grid[b]);
                    assert(cd * ge > ce * gd) by (nonlinear_arith)
                        requires
                            cd * gb > cb * gd,
                            ce * gb <= cb * ge,
                            gd >= 1,
                            ge >= 1,
                            gb >= 1,
                            cd >= 0,
                            ce >= 0,
                            cb >= 0,
                    ;
                }
            }
        }
    }
}

/// Split `fac` times more, axis `e` still has a cell for each part, or stays whole.
pub open spec fn takes_factor(fac: int, grid: Seq<int>, cells: Seq<int>, e: int) -> bool {
    grid[e] * fac <= cells[e] || grid[e] * fac <= 1
}

/// A factor splits the axis along which the parts are longest, in cells, of those
/// with room for it, and the first of them where several are; where no axis has room
/// there is no grid.
pub proof fn factors_split_the_longest_parts(
    factors: Seq<int>,
    grid: Seq<int>,
    cells: Seq<int>,
) -> (d: int)
    requires
        factors.len() > 0,
        grid.len() == 3,
        cells.len() == 3,
        forall|d: int| 0 <= d < 3 ==> #[trigger] grid[d] >= 1,
        forall|d: int| 0 <= d < 3 ==> #[trigger] cells[d] >= 0,
    ensures
        ({
            let f: int = factors[0];
            if exists|e: int| 0 <= e < 3 && takes_factor(f, grid, cells, e) {
                &&& 0 <= d < 3
                &&& takes_factor(f, grid, cells, d)
                &&& forall|e: int|
                    0 <= e < 3 && #[trigger] takes_factor(f, grid, cells, e) ==> cells[e] * grid[d]
                        <= cells[d] * grid[e]
                &&& forall|e: int|
                    0 <= e < d && #[trigger] takes_factor(f, grid, cells, e) ==> cells[e] * grid[d]
                        < cells[d] * grid[e]
                &&& distribute(factors, grid, cells) == distribute(
                    factors.drop_first(),
                    grid.update(d, grid[d] * f),
                    cells,
                )
            } else {
                distribute(factors, grid, cells) is None
            }
        }),
{
    let f: int = factors[0];
    busiest_axis_is_busiest(f, grid, cells, 3);
    assert forall|e: int| 0 <= e < 3 implies #[trigger] takes_factor(f, grid, cells, e)
        == can_split(f, grid, cells, e) by {
        assert(cells[e] >= 0);
    }
    match busiest_axis(f, grid, cells, 3) {
        Some(d) => {
            assert(takes_factor(f, grid, cells, d));
            assert forall|e: int|
                0 <= e < 3 && #[trigger] takes_factor(f, grid, cells, e) implies cells[e] * grid[d]
                <= cells[d] * grid[e] by {
                assert(!busier(grid, cells, e, d));
            }
            assert forall|e: int|
                0 <= e < d && #[trigger] takes_factor(f, grid, cells, e) implies cells[e] * grid[d]
                < cells[d] * grid[e] by {
                assert(busier(grid, cells, d, e));
            }
            d
        },
        None => {
            0
        },
    }
}

/// A prime number of ranks is laid out along one axis: that with the most cells, of
/// those that have as many cells as there are ranks.
pub proof fn prime_sizes_split_the_longest_axis(size: int, cells: Seq<int>) -> (d: int)
    requires
        is_prime(size),
        cells.len() == 3,
        forall|d: int| 0 <= d < 3 ==> #[trigger] cells[d] >= 0,
        size <= cells[0] || size <= cells[1] || size <= cells[2],
    ensures
        0 <= d < 3,
        size <= cells[d],
        forall|e: int| 0 <= e < 3 && size <= #[trigger] cells[e] ==> cells[e] <= cells[d],
        process_grid(size, cells) == Some(seq![1int, 1int, 1int].update(d, size)),
{
    prime_factors_are_the_factorization(size);
    let factors: Seq<int> = prime_factors(size);
    let least: int = least_divisor(size);
    assert(is_least_divisor(size, size));
    assert(is_least_divisor(size, least));
    assert(least == size) by {
        if least > size {
            lemma_small_mod(size as nat, least as nat);
        }
        if least < size {
            assert(size % least != 0);
        }
    }
    assert(size / size == 1) by {
        lemma_fundamental_div_mod_converse(size, size, 1, 0);
    }
    assert(prime_factors(1).len() == 0);
    assert(factors =~= seq![size]);
    let grid: Seq<int> = seq![1, 1, 1];
    let d: int = factors_split_the_longest_parts(factors, grid, cells);
    assert forall|e: int| 0 <= e < 3 implies #[trigger] takes_factor(size, grid, cells, e) == (size
        <= cells[e]) by {}
    assert(takes_factor(size, grid, cells, 0) || takes_factor(size, grid, cells, 1)
        || takes_factor(size, grid, cells, 2));
    assert forall|e: int| 0 <= e < 3 && size <= #[trigger] cells[e] implies cells[e]
        <= cells[d] by {
        assert(takes_factor(size, grid, cells, e));
        assert(grid[d] == 1 && grid[e] == 1);
        lemma_mul_basics(cells[e]);
        lemma_mul_basics(cells[d]);
    }
    assert(factors.drop_first().len() == 0);
    assert(grid.update(d, grid[d] * size) == grid.update(d, size));
    d
}

/// A process grid has as many ranks as were asked for, and splits no axis finer
/// than its cells.
pub proof fn distribution_multiplies(factors: Seq<int>, grid: Seq<int>, cells: Seq<int>)
    requires
        grid.len() == 3,
        cells.len() == 3,
        forall|d: int| 0 <= d < 3 ==> 1 <= #[trigger] grid[d] <= axis_room(cells[d]),
        forall|d: int| 0 <= d < 3 ==> #[trigger] cells[d] >= 0,
        forall|i: int| 0 <= i < factors.len() ==> #[trigger] factors[i] >= 1,
    ensures
        distribute(factors, grid, cells) matches Some(r) ==> {
            &&& r.len() == 3
            &&& volume(r) == volume(grid) * product(factors)
            &&& forall|d: int| 0 <= d < 3 ==> 1 <= #[trigger] r[d] <= axis_room(cells[d])
        },
    decreases factors.len(),
{
    if factors.len() > 0 {
        let f: int = factors[0];
        busiest_axis_is_busiest(f, grid, cells, 3);
        if let Some(d) = busiest_axis(f, grid, cells, 3) {
            let next: Seq<int> = grid.update(d, grid[d] * f);
            assert(grid[d] * f >= 1) by (nonlinear_arith)
                requires
                    grid[d] >= 1,
                    f >= 1,
            ;
            volume_update(grid, d, f);
            distribution_multiplies(factors.drop_first(), next, cells);
            lemma_mul_is_associative(volume(grid), f, product(factors.drop_first()));
        }
    }
}

/// A split of x and y that goes along with a split of z makes a placement.
proof fn even_split_is_placement(size: int, cells: Seq<int>, a: int, b: int)
    requires
        size >= 1,
        splits_evenly(size, cells, a, b),
    ensures
        is_placement(seq![a, b, size / a / b], size, cells),
{
    let q: int = size / a;
    let c: int = q / b;
    lemma_fundamental_div_mod(size, a);
    lemma_fundamental_div_mod(q, b);
    assert(a * b * c == a * (b * c)) by (nonlinear_arith);
    assert(c >= 1) by (nonlinear_arith)
        requires
            a * (b * c) == size,
            size >= 1,
            a >= 1,
            b >= 1,
    ;
    let r: Seq<int> = seq![a, b, c];
    assert(volume(r) == size);
    assert forall|d: int| 0 <= d < 3 implies 1 <= #[trigger] r[d] <= axis_room(cells[d]) by {
        assert(d == 0 || d == 1 || d == 2);
    }
}

/// What is found along y splits evenly, and is found wherever there is any.
proof fn widest_y_is_found(size: int, cells: Seq<int>, a: int, upto: int)
    ensures
        match widest_y(size, cells, a, upto) {
            Some(b) => splits_evenly(size, cells, a, b),
            None => forall|b: int| 1 <= b <= upto ==> !#[trigger] splits_evenly(size, cells, a, b),
        },
    decreases upto,
{
    if upto > 0 {
        widest_y_is_found(size, cells, a, upto - 1);
    }
}

/// What is found is a placement, and is found wherever there is any with at most
/// `upto` parts along x.
proof fn widest_grid_is_found(size: int, cells: Seq<int>, upto: int)
    requires
        size >= 1,
    ensures
        match widest_grid(size, cells, upto) {
            Some(r) => is_placement(r, size, cells),
            None => forall|r: Seq<int>| #[trigger] is_placement(r, size, cells) ==> r[0] > upto,
        },
    decreases upto,
{
    if upto > 0 {
        widest_grid_is_found(size, cells, upto - 1);
        widest_y_is_found(size, cells, upto, size / upto);
        if let Some(b) = widest_y(size, cells, upto, size / upto) {
            even_split_is_placement(size, cells, upto, b);
        } else {
            assert forall|r: Seq<int>| #[trigger] is_placement(r, size, cells) && widest_grid(
                size,
                cells,
                upto - 1,
            ) is None implies r[0] > upto by {
                if r[0] == upto {
                    placement_splits_evenly(size, cells, r);
                }
            }
        }
    } else {
        assert forall|r: Seq<int>| #[trigger] is_placement(r, size, cells) implies r[0]
            > upto by {
            assert(1 <= r[0]);
        }
    }
}

/// A placement splits evenly, with no more parts along y than ranks are left for y
/// and z.
proof fn placement_splits_evenly(size: int, cells: Seq<int>, r: Seq<int>)
    requires
        is_placement(r, size, cells),
    ensures
        splits_evenly(size, cells, r[0], r[1]),
        r[1] <= size / r[0],
        r[0] <= size,
{
    let (a, b, c): (int, int, int) = (r[0], r[1], r[2]);
    assert(1 <= r[0] && 1 <= r[1] && 1 <= r[2]);
    assert(a * b * c == (b * c) * a && (b * c) == c * b) by (nonlinear_arith);
    lemma_fundamental_div_mod_converse(size, a, b * c, 0);
    lemma_fundamental_div_mod_converse(b * c, b, c, 0);
    assert(b <= b * c && a <= a * b * c) by (nonlinear_arith)
        requires
            1 <= a,
            1 <= b,
            1 <= c,
    ;
}

/// The ranks of a process grid number `size`, and no axis is split finer than its
/// cell count. There is one exactly where the ranks can be placed so at all.
pub proof fn process_grid_has_size_ranks(size: int, cells: Seq<int>)
    requires
        size >= 1,
        cells.len() == 3,
        forall|d: int| 0 <= d < 3 ==> #[trigger] cells[d] >= 0,
    ensures
        process_grid(size, cells) matches Some(r) ==> is_placement(r, size, cells),
        process_grid(size, cells) is Some <==> can_place(size, cells),
{
    prime_factors_are_the_factorization(size);
    distribution_multiplies(prime_factors(size), seq![1, 1, 1], cells);
    assert(volume(seq![1, 1, 1]) == 1);
    lemma_mul_basics(size);
    widest_grid_is_found(size, cells, size);
    if let Some(r) = process_grid(size, cells) {
        assert(is_placement(r, size, cells));
    }
    if can_place(size, cells) {
        let r: Seq<int> = choose|r: Seq<int>| #[trigger] is_placement(r, size, cells);
        placement_splits_evenly(size, cells, r);
    }
}

/// The prime factors of `size` in ascending order.
fn ascending_factors(size: i32) -> (r: Vec<i32>)
    requires
        size >= 1,
    ensures
        r@.len() == prime_factors(size as int).len(),
        forall|i: int|
            0 <= i < r@.len() ==> #[trigger] r@[i] == prime_factors(size as int)[r@.len() - 1 - i],
{
    let mut factors: Vec<i32> = Vec::new();
    let mut n: i32 = size;
    let mut f: i32 = 2;
    let ghost goal: Seq<int> = prime_factors(size as int);
    let ghost mut found: Seq<int> = Seq::empty();
    assert(goal =~= prime_factors(n as int) + found);
    while f as i64 * f as i64 <= n as i64
        invariant
            1 <= n <= size,
            2 <= f <= 46_341,
            f * f <= 46_341 * 46_341,
            forall|e: int| 2 <= e < f ==> #[trigger] (n as int % e) != 0,
            goal == prime_factors(n as int) + found,
            found.len() == factors@.len(),
            forall|i: int|
                0 <= i < factors@.len() ==> #[trigger] factors@[i] == found[factors@.len() - 1 - i],
        decreases n + (46_341 - f),
    {
        assert(f <= 46_340) by (nonlinear_arith)
            requires
                f * f <= n,
                n <= 0x7fff_ffff,
                f >= 2,
        ;
        assert((f + 1) * (f + 1) <= 46_341 * 46_341) by (nonlinear_arith)
            requires
                2 <= f <= 46_340,
        ;
        assert(f <= n) by (nonlinear_arith)
            requires
                f * f <= n,
                f >= 2,
        ;
        if n % f == 0 {
            proof {
                assert(is_least_divisor(n as int, f as int));
                prime_factors_step(n as int, f as int);
                assert forall|e: int| 2 <= e < f implies #[trigger] ((n / f) as int % e) != 0 by {
                    if (n / f) as int % e == 0 {
                        divisor_of_quotient(n as int, f as int, e);
                    }
                }
                assert(goal =~= prime_factors((n / f) as int) + (seq![f as int] + found));
                found = seq![f as int] + found;
            }
            factors.push(f);
            n = n / f;
        } else {
            assert forall|e: int| 2 <= e < f + 1 implies #[trigger] (n as int % e) != 0 by {
                if e == f {
                }
            }
            f = f + 1;
        }
    }
    if n > 1 {
        proof {
            no_small_divisor(n as int, f as int);
            prime_factors_step(n as int, n as int);
            lemma_div_by_self(n as int);
            assert(prime_factors(1).len() == 0);
            assert(goal =~= seq![n as int] + found);
            found = seq![n as int] + found;
        }
        factors.push(n);
    } else {
        assert(prime_factors(1).len() == 0);
        assert(goal =~= found);
    }
    factors
}

/// The process grid for `size` ranks over a grid of `global` cells, or `None`
/// where some rank would be left without a cell.
pub fn try_factor_decomposition(size: i32, global: [usize; 3]) -> (r: Option<[i32; 3]>)
    requires
        size >= 1,
    ensures
        match r {
            Some(d) => process_grid(size as int, cells_of(global)) == Some(shape_of(d)),
            None => process_grid(size as int, cells_of(global)) is None,
        },
        r is Some <==> can_place(size as int, cells_of(global)),
{
    proof {
        process_grid_has_size_ranks(size as int, cells_of(global));
    }
    let balanced: Option<[i32; 3]> = distribute_factors(size, global);
    match balanced {
        Some(d) => Some(d),
        None => search_grid(size, global),
    }
}

/// Whether `parts` parts leave no part of an axis of `n` cells without a cell.
fn has_room(parts: i32, n: usize) -> (r: bool)
    requires
        parts >= 1,
    ensures
        r == (parts <= axis_room(n as int)),
{
    parts == 1 || parts as usize <= n
}

/// The widest process grid that leaves no rank without a cell.
fn search_grid(size: i32, global: [usize; 3]) -> (r: Option<[i32; 3]>)
    requires
        size >= 1,
    ensures
        match r {
            Some(d) => widest_grid(size as int, cells_of(global), size as int) == Some(shape_of(d)),
            None => widest_grid(size as int, cells_of(global), size as int) is None,
        },
{
    let ghost cells: Seq<int> = cells_of(global);
    let mut a: i32 = size;
    while a > 0
        invariant
            size >= 1,
            cells == cells_of(global),
            0 <= a <= size,
            widest_grid(size as int, cells, size as int) == widest_grid(
                size as int,
                cells,
                a as int,
            ),
        decreases a,
    {
        if has_room(a, global[0]) && size % a == 0 {
            let q: i32 = size / a;
            let mut b: i32 = q;
            proof {
                lemma_div_pos_is_pos(size as int, a as int);
                lemma_div_is_ordered_by_denominator(size as int, 1, a as int);
            }
            while b > 0
                invariant
                    size >= 1,
                    1 <= a <= size,
                    cells == cells_of(global),
                    a <= axis_room(cells[0]),
                    size as int % a as int == 0,
                    q == size as int / a as int,
                    0 <= b <= q,
                    widest_y(size as int, cells, a as int, q as int) == widest_y(
                        size as int,
                        cells,
                        a as int,
                        b as int,
                    ),
                    widest_grid(size as int, cells, size as int) == widest_grid(
                        size as int,
                        cells,
                        a as int,
                    ),
                decreases b,
            {
                if q % b == 0 && has_room(b, global[1]) {
                    let c: i32 = q / b;
                    proof {
                        lemma_fundamental_div_mod(q as int, b as int);
                        assert(c >= 1) by (nonlinear_arith)
                            requires
                                q == b * c,
                                q >= 1,
                                b >= 1,
                        ;
                    }
                    if has_room(c, global[2]) {
                        let d: [i32; 3] = [a, b, c];
                        assert(shape_of(d) =~= seq![a as int, b as int, c as int]);
                        return Some(d);
                    }
                }
                b = b - 1;
            }
        } else {
            proof {
                widest_y_is_found(size as int, cells, a as int, size as int / a as int);
            }
        }
        a = a - 1;
    }
    None
}

/// The prime factors of `size`, each given to the busiest axis, or `None` where one
/// of them can be given to none.
fn distribute_factors(size: i32, global: [usize; 3]) -> (r: Option<[i32; 3]>)
    requires
        size >= 1,
    ensures
        match r {
            Some(d) => distribute(
                prime_factors(size as int),
                seq![1, 1, 1],
                cells_of(global),
            ) == Some(shape_of(d)),
            None => distribute(
                prime_factors(size as int),
                seq![1, 1, 1],
                cells_of(global),
            ) is None,
        },
{
    let ghost primes: Seq<int> = prime_factors(size as int);
    let ghost cells: Seq<int> = cells_of(global);
    let ghost goal: Option<Seq<int>> = distribute(primes, seq![1, 1, 1], cells);
    let ascending: Vec<i32> = ascending_factors(size);
    proof {
        prime_factors_are_the_factorization(size as int);
    }
    let mut decomp: [i32; 3] = [1, 1, 1];
    let mut left: usize = ascending.len();
    proof {
        assert(shape_of(decomp) =~= seq![1, 1, 1]);
        assert(primes.skip(0) =~= primes);
        assert(volume(seq![1, 1, 1]) == 1);
        lemma_mul_basics(size as int);
    }
    while left > 0
        invariant
            left <= ascending@.len(),
            ascending@.len() == primes.len(),
            cells == cells_of(global),
            size >= 1,
            forall|i: int|
                0 <= i < ascending@.len() ==> #[trigger] ascending@[i] == primes[ascending@.len()
                    - 1 - i],
            forall|i: int| 0 <= i < primes.len() ==> is_prime(#[trigger] primes[i]),
            decomp[0] >= 1,
            decomp[1] >= 1,
            decomp[2] >= 1,
            volume(shape_of(decomp)) * product(primes.skip(primes.len() - left)) == size,
            distribute(primes.skip(primes.len() - left), shape_of(decomp), cells) == goal,
            primes == prime_factors(size as int),
            goal == distribute(primes, seq![1, 1, 1], cells),
        decreases left,
    {
        let ghost rest: Seq<int> = primes.skip(primes.len() - left);
        let fac: i32 = ascending[left - 1];
        let ghost tail: int = product(rest.drop_first());
        let ghost vol: int = volume(shape_of(decomp));
        proof {
            assert(rest[0] == fac);
            assert(rest.drop_first() =~= primes.skip(primes.len() - (left - 1)));
            assert(is_prime(primes[primes.len() - left]));
            product_positive(rest.drop_first());
            let (a, b, c) = (decomp[0] as int, decomp[1] as int, decomp[2] as int);
            assert(a * b * c >= 1 && a <= a * b * c && b <= a * b * c && c <= a * b * c)
                by (nonlinear_arith)
                requires
                    a >= 1,
                    b >= 1,
                    c >= 1,
            ;
            assert(vol * fac <= size) by (nonlinear_arith)
                requires
                    vol * (fac * tail) == size,
                    tail >= 1,
                    vol >= 1,
                    fac >= 1,
            ;
            assert(a * fac <= vol * fac && b * fac <= vol * fac && c * fac <= vol * fac)
                by (nonlinear_arith)
                requires
                    a <= vol,
                    b <= vol,
                    c <= vol,
                    fac >= 1,
            ;
        }
        let best: Option<usize> = busiest(fac, decomp, global);
        match best {
            None => {
                return None;
            },
            Some(d) => {
                proof {
                    volume_update(shape_of(decomp), d as int, fac as int);
                    assert(vol * fac * tail == vol * (fac * tail)) by (nonlinear_arith);
                }
                let ghost before: Seq<int> = shape_of(decomp);
                let grown: i32 = decomp[d] * fac;
                decomp[d] = grown;
                proof {
                    assert(shape_of(decomp) =~= before.update(d as int, before[d as int] * fac));
                    assert(grown >= 1) by (nonlinear_arith)
                        requires
                            grown == before[d as int] * fac,
                            before[d as int] >= 1,
                            fac >= 1,
                    ;
                }
            },
        }
        left = left - 1;
    }
    proof {
        assert(primes.skip(primes.len() as int).len() == 0);
    }
    Some(decomp)
}

/// A product of numbers from one up is at least one.
proof fn product_positive(s: Seq<int>)
    requires
        forall|i: int| 0 <= i < s.len() ==> #[trigger] s[i] >= 1,
    ensures
        product(s) >= 1,
    decreases s.len(),
{
    if s.len() > 0 {
        product_positive(s.drop_first());
        assert(s[0] * product(s.drop_first()) >= 1) by (nonlinear_arith)
            requires
                s[0] >= 1,
                product(s.drop_first()) >= 1,
        ;
    }
}

/// The axis with the most cells per rank among those that `fac` can split.
fn busiest(fac: i32, decomp: [i32; 3], global: [usize; 3]) -> (r: Option<usize>)
    requires
        fac >= 1,
        decomp[0] >= 1,
        decomp[1] >= 1,
        decomp[2] >= 1,
        decomp[0] * fac <= i32::MAX,
        decomp[1] * fac <= i32::MAX,
        decomp[2] * fac <= i32::MAX,
    ensures
        match r {
            Some(d) => d < 3 && busiest_axis(
                fac as int,
                shape_of(decomp),
                cells_of(global),
                3,
            ) == Some(d as int),
            None => busiest_axis(fac as int, shape_of(decomp), cells_of(global), 3) is None,
        },
{
    let ghost grid: Seq<int> = shape_of(decomp);
    let ghost cells: Seq<int> = cells_of(global);
    let mut best: Option<usize> = None;
    let mut d: usize = 0;
    while d < 3
        invariant
            d <= 3,
            fac >= 1,
            grid == shape_of(decomp),
            cells == cells_of(global),
            forall|e: int| 0 <= e < 3 ==> #[trigger] decomp[e] >= 1,
            forall|e: int| 0 <= e < 3 ==> #[trigger] decomp[e] * fac <= i32::MAX,
            best matches Some(b) ==> b < d,
            match best {
                Some(b) => busiest_axis(fac as int, grid, cells, d as int) == Some(b as int),
                None => busiest_axis(fac as int, grid, cells, d as int) is None,
            },
        decreases 3 - d,
    {
        let parts: i32 = decomp[d];
        let next: i32 = parts * fac;
        assert(next >= 1) by (nonlinear_arith)
            requires
                next == parts * fac,
                parts >= 1,
                fac >= 1,
        ;
        let room: usize = if global[d] < 1 {
            1
        } else {
            global[d]
        };
        assert(grid[d as int] * fac == next);
        if next as usize <= room {
            let take: bool = match best {
                None => true,
                Some(b) => {
                    let mine: u128 = global[d] as u128;
                    let theirs: u128 = global[b] as u128;
                    let my_parts: u128 = parts as u128;
                    let their_parts: u128 = decomp[b] as u128;
                    assert(mine * their_parts <= 0xffff_ffff_ffff_ffff * 0x7fff_ffff)
                        by (nonlinear_arith)
                        requires
                            mine <= 0xffff_ffff_ffff_ffff,
                            their_parts <= 0x7fff_ffff,
                    ;
                    assert(theirs * my_parts <= 0xffff_ffff_ffff_ffff * 0x7fff_ffff)
                        by (nonlinear_arith)
                        requires
                            theirs <= 0xffff_ffff_ffff_ffff,
                            my_parts <= 0x7fff_ffff,
                    ;
                    mine * their_parts > theirs * my_parts
                },
            };
            if take {
                best = Some(d);
            }
        }
        d = d + 1;
    }
    best
}

/// Factor `size` ranks into a balanced 3D process grid `[npx, npy, npz]`:
/// distribute the prime factors of `size` to whichever axis currently has the
/// most cells per rank, never splitting an axis finer than its global cell
/// count. The product of the result always equals `size`. The ranks must be placeable
/// without giving some rank zero cells.
pub fn factor_decomposition(size: i32, global: [usize; 3]) -> (r: [i32; 3])
    requires
        size >= 1,
        can_place(size as int, cells_of(global)),
    ensures
        process_grid(size as int, cells_of(global)) == Some(shape_of(r)),
        r[0] * r[1] * r[2] == size,
        forall|d: int| 0 <= d < 3 ==> 1 <= #[trigger] r[d] <= axis_room(global[d] as int),
{
    proof {
        process_grid_has_size_ranks(size as int, cells_of(global));
    }
    let found: Option<[i32; 3]> = try_factor_decomposition(size, global);
    match found {
        Some(d) => {
            proof {
                let s: Seq<int> = shape_of(d);
                assert(s[0] == d[0] && s[1] == d[1] && s[2] == d[2]);
                assert forall|e: int| 0 <= e < 3 implies 1 <= #[trigger] d[e] <= axis_room(
                    global[e] as int,
                ) by {
                    assert(1 <= s[e] <= axis_room(cells_of(global)[e]));
                }
            }
            d
        },
        None => [1, 1, 1],
    }
}

} // verus!
