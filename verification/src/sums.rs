//! Sums over index ranges in a ring: how they split into blocks, trade places and
//! distribute.

use crate::index::flat;
use crate::scalar::Scalar;
use crate::scalar::counts_up;
use crate::scalar::is_ring;
use crate::scalar::plus_associates;
use crate::scalar::plus_commutes;
use crate::scalar::plus_zero;
use crate::scalar::sum_of;
use crate::scalar::times_distributes;
use crate::scalar::times_one;
use crate::scalar::times_zero;
use vstd::prelude::*;

verus! {

/// The sum of `f` over the first `n` indices, from the left.
pub open spec fn sum_over<S: Scalar>(n: int, f: spec_fn(int) -> S) -> S
    decreases n,
{
    if n <= 0 {
        S::zero_spec()
    } else {
        sum_over(n - 1, f).plus_spec(f(n - 1))
    }
}

/// The sum of a list is that of its entries.
pub proof fn sum_of_entries<S: Scalar>(n: nat, f: spec_fn(int) -> S)
    ensures
        sum_of(Seq::new(n, f)) == sum_over(n as int, f),
    decreases n,
{
    if n > 0 {
        sum_of_entries((n - 1) as nat, f);
        assert(Seq::new(n, f).drop_last() =~= Seq::new((n - 1) as nat, f));
    }
}

/// Equal terms have equal sums.
pub proof fn sums_agree<S: Scalar>(n: int, f: spec_fn(int) -> S, g: spec_fn(int) -> S)
    requires
        forall|i: int| 0 <= i < n ==> #[trigger] f(i) == g(i),
    ensures
        sum_over(n, f) == sum_over(n, g),
    decreases n,
{
    if n > 0 {
        sums_agree(n - 1, f, g);
        assert(f(n - 1) == g(n - 1));
    }
}

/// Zeros add up to zero.
pub proof fn zeros_vanish<S: Scalar>(n: int, f: spec_fn(int) -> S)
    requires
        is_ring::<S>(),
        forall|i: int| 0 <= i < n ==> #[trigger] f(i) == S::zero_spec(),
    ensures
        sum_over(n, f) == S::zero_spec(),
    decreases n,
{
    if n > 0 {
        zeros_vanish(n - 1, f);
        assert(f(n - 1) == S::zero_spec());
        plus_zero(S::zero_spec());
    }
}

/// A sum in which only term `k` differs from zero is that term.
pub proof fn one_term_remains<S: Scalar>(n: int, f: spec_fn(int) -> S, k: int)
    requires
        is_ring::<S>(),
        0 <= k < n,
        forall|i: int| 0 <= i < n && i != k ==> #[trigger] f(i) == S::zero_spec(),
    ensures
        sum_over(n, f) == f(k),
    decreases n,
{
    if k == n - 1 {
        zeros_vanish(n - 1, f);
        plus_zero(f(k));
    } else {
        one_term_remains(n - 1, f, k);
        assert(f(n - 1) == S::zero_spec());
        plus_zero(f(k));
    }
}

/// A sum of sums is the sum of both.
pub proof fn sums_add<S: Scalar>(n: int, f: spec_fn(int) -> S, g: spec_fn(int) -> S)
    requires
        is_ring::<S>(),
    ensures
        sum_over(n, |i: int| f(i).plus_spec(g(i))) == sum_over(n, f).plus_spec(sum_over(n, g)),
    decreases n,
{
    if n <= 0 {
        plus_zero(S::zero_spec());
    } else {
        sums_add(n - 1, f, g);
        let (a, b): (S, S) = (sum_over(n - 1, f), sum_over(n - 1, g));
        let (x, y): (S, S) = (f(n - 1), g(n - 1));
        plus_associates(a.plus_spec(b), x, y);
        plus_associates(a, b, x);
        plus_commutes(b, x);
        plus_associates(a, x, b);
        plus_associates(a.plus_spec(x), b, y);
    }
}

/// A factor distributes over a sum.
pub proof fn sums_distribute<S: Scalar>(n: int, f: spec_fn(int) -> S, y: S)
    requires
        is_ring::<S>(),
    ensures
        sum_over(n, |i: int| f(i).times_spec(y)) == sum_over(n, f).times_spec(y),
    decreases n,
{
    if n <= 0 {
        times_zero(y);
    } else {
        sums_distribute(n - 1, f, y);
        times_distributes(y, sum_over(n - 1, f), f(n - 1));
    }
}

/// Adding up one value `n` times is multiplying it by `n`.
pub proof fn copies_add_up<S: Scalar>(n: int, v: S)
    requires
        is_ring::<S>(),
        counts_up::<S>(),
        0 <= n,
    ensures
        sum_over(n, |q: int| v) == S::count_spec(n).times_spec(v),
    decreases n,
{
    if n == 0 {
        times_zero(v);
    } else {
        copies_add_up(n - 1, v);
        assert(S::count_spec(n - 1 + 1) == S::count_spec(n - 1).plus_spec(S::one_spec()));
        times_distributes(v, S::count_spec(n - 1), S::one_spec());
        times_one(v);
    }
}

/// A sum over `n + r` indices is that over the first `n` and that over the rest.
proof fn sums_join<S: Scalar>(n: int, r: int, f: spec_fn(int) -> S)
    requires
        is_ring::<S>(),
        0 <= n,
        0 <= r,
    ensures
        sum_over(n + r, f) == sum_over(n, f).plus_spec(sum_over(r, |d: int| f(n + d))),
    decreases r,
{
    let g = |d: int| f(n + d);
    if r == 0 {
        plus_zero(sum_over(n, f));
    } else {
        sums_join(n, r - 1, f);
        plus_associates(sum_over(n, f), sum_over(r - 1, g), g(r - 1));
    }
}

/// A sum over `n` blocks of `r` indices is the sum of the blocks' sums.
pub proof fn sums_block<S: Scalar>(n: int, r: int, f: spec_fn(int) -> S)
    requires
        is_ring::<S>(),
        0 <= n,
        0 <= r,
    ensures
        sum_over(n * r, f) == sum_over(n, |i: int| sum_over(r, |d: int| f(i * r + d))),
    decreases n,
{
    if n == 0 {
        assert(n * r == 0);
    } else {
        sums_block(n - 1, r, f);
        assert(n * r == (n - 1) * r + r) by (nonlinear_arith);
        assert(0 <= (n - 1) * r) by (nonlinear_arith)
            requires
                0 <= n - 1,
                0 <= r,
        ;
        sums_join((n - 1) * r, r, f);
        let g = |i: int| sum_over(r, |d: int| f(i * r + d));
        assert(g(n - 1) == sum_over(r, |d: int| f((n - 1) * r + d)));
    }
}

/// Two sums trade places.
pub proof fn sums_swap<S: Scalar>(a: int, b: int, f: spec_fn(int, int) -> S)
    requires
        is_ring::<S>(),
    ensures
        sum_over(a, |i: int| sum_over(b, |j: int| f(i, j))) == sum_over(
            b,
            |j: int| sum_over(a, |i: int| f(i, j)),
        ),
    decreases a,
{
    if a <= 0 {
        zeros_vanish(b, |j: int| sum_over(a, |i: int| f(i, j)));
    } else {
        sums_swap(a - 1, b, f);
        let head = |j: int| sum_over(a - 1, |i: int| f(i, j));
        let tail = |j: int| f(a - 1, j);
        sums_add(b, head, tail);
        let whole = |j: int| sum_over(a, |i: int| f(i, j));
        let both = |j: int| head(j).plus_spec(tail(j));
        assert forall|j: int| 0 <= j < b implies #[trigger] whole(j) == both(j) by {
            let column = |i: int| f(i, j);
            assert(sum_over(a, column) == sum_over(a - 1, column).plus_spec(column(a - 1)));
        }
        sums_agree(b, whole, both);
    }
}

/// The sum over three nested index ranges.
pub open spec fn sum_over_box<S: Scalar>(
    a: int,
    b: int,
    c: int,
    f: spec_fn(int, int, int) -> S,
) -> S {
    sum_over(a, |i: int| sum_over(b, |j: int| sum_over(c, |k: int| f(i, j, k))))
}

/// Equal terms have equal sums over a box.
pub proof fn boxes_agree<S: Scalar>(
    a: int,
    b: int,
    c: int,
    f: spec_fn(int, int, int) -> S,
    g: spec_fn(int, int, int) -> S,
)
    requires
        forall|i: int, j: int, k: int|
            0 <= i < a && 0 <= j < b && 0 <= k < c ==> #[trigger] f(i, j, k) == g(i, j, k),
    ensures
        sum_over_box(a, b, c, f) == sum_over_box(a, b, c, g),
{
    let p = |i: int| sum_over(b, |j: int| sum_over(c, |k: int| f(i, j, k)));
    let q = |i: int| sum_over(b, |j: int| sum_over(c, |k: int| g(i, j, k)));
    assert forall|i: int| 0 <= i < a implies #[trigger] p(i) == q(i) by {
        let r = |j: int| sum_over(c, |k: int| f(i, j, k));
        let s = |j: int| sum_over(c, |k: int| g(i, j, k));
        assert forall|j: int| 0 <= j < b implies #[trigger] r(j) == s(j) by {
            let t = |k: int| f(i, j, k);
            let u = |k: int| g(i, j, k);
            sums_agree(c, t, u);
        }
        sums_agree(b, r, s);
    }
    sums_agree(a, p, q);
}

/// A sum over all numbers of a box is that over its indices.
pub proof fn numbers_fill_the_box<S: Scalar>(a: int, b: int, c: int, f: spec_fn(int) -> S)
    requires
        is_ring::<S>(),
        0 <= a,
        0 <= b,
        0 <= c,
    ensures
        sum_over(a * b * c, f) == sum_over_box(
            a,
            b,
            c,
            |i: int, j: int, k: int| f(flat(i, j, k, b, c)),
        ),
{
    assert(0 <= a * b) by (nonlinear_arith)
        requires
            0 <= a,
            0 <= b,
    ;
    sums_block(a * b, c, f);
    let row = |p: int| sum_over(c, |k: int| f(p * c + k));
    sums_block(a, b, row);
    let g = |i: int, j: int, k: int| f(flat(i, j, k, b, c));
    let p = |i: int| sum_over(b, |j: int| row(i * b + j));
    let q = |i: int| sum_over(b, |j: int| sum_over(c, |k: int| g(i, j, k)));
    assert forall|i: int| 0 <= i < a implies #[trigger] p(i) == q(i) by {
        let r = |j: int| row(i * b + j);
        let s = |j: int| sum_over(c, |k: int| g(i, j, k));
        assert forall|j: int| 0 <= j < b implies #[trigger] r(j) == s(j) by {
            let t = |k: int| f((i * b + j) * c + k);
            let u = |k: int| g(i, j, k);
            sums_agree(c, t, u);
        }
        sums_agree(b, r, s);
    }
    sums_agree(a, p, q);
}

/// The sum over two nested index ranges.
spec fn sum_over_sheet<S: Scalar>(a: int, b: int, f: spec_fn(int, int) -> S) -> S {
    sum_over(a, |i: int| sum_over(b, |j: int| f(i, j)))
}

/// Equal terms have equal sums over a sheet.
proof fn sheets_agree<S: Scalar>(
    a: int,
    b: int,
    f: spec_fn(int, int) -> S,
    g: spec_fn(int, int) -> S,
)
    requires
        forall|i: int, j: int| 0 <= i < a && 0 <= j < b ==> #[trigger] f(i, j) == g(i, j),
    ensures
        sum_over_sheet(a, b, f) == sum_over_sheet(a, b, g),
{
    let p = |i: int| sum_over(b, |j: int| f(i, j));
    let q = |i: int| sum_over(b, |j: int| g(i, j));
    assert forall|i: int| 0 <= i < a implies #[trigger] p(i) == q(i) by {
        sums_agree(b, |j: int| f(i, j), |j: int| g(i, j));
    }
    sums_agree(a, p, q);
}

/// A sum over a sheet of blocks is the sum of the blocks' sums.
proof fn sheets_split<S: Scalar>(
    b: int,
    c: int,
    rb: int,
    rc: int,
    f: spec_fn(int, int) -> S,
)
    requires
        is_ring::<S>(),
        0 <= b,
        0 <= c,
        0 <= rb,
        0 <= rc,
    ensures
        sum_over_sheet(b * rb, c * rc, f) == sum_over_sheet(
            b,
            c,
            |j: int, k: int|
                sum_over_sheet(rb, rc, |y: int, z: int| f(j * rb + y, k * rc + z)),
        ),
{
    let part = |p: int, k: int| sum_over(rc, |z: int| f(p, k * rc + z));
    let row = |p: int| sum_over(c * rc, |q: int| f(p, q));
    let cut = |p: int| sum_over(c, |k: int| part(p, k));
    assert forall|p: int| 0 <= p < b * rb implies #[trigger] row(p) == cut(p) by {
        let line = |q: int| f(p, q);
        sums_block(c, rc, line);
        let u = |k: int| sum_over(rc, |z: int| line(k * rc + z));
        let v = |k: int| part(p, k);
        assert forall|k: int| 0 <= k < c implies #[trigger] u(k) == v(k) by {
            sums_agree(rc, |z: int| line(k * rc + z), |z: int| f(p, k * rc + z));
        }
        sums_agree(c, u, v);
    }
    sums_agree(b * rb, row, cut);
    sums_block(b, rb, cut);
    let g = |j: int, k: int| sum_over_sheet(rb, rc, |y: int, z: int| f(j * rb + y, k * rc + z));
    let m = |j: int| sum_over(rb, |y: int| cut(j * rb + y));
    let n = |j: int| sum_over(c, |k: int| g(j, k));
    assert forall|j: int| 0 <= j < b implies #[trigger] m(j) == n(j) by {
        let h = |y: int, k: int| part(j * rb + y, k);
        sums_swap(rb, c, h);
        let d = |y: int| cut(j * rb + y);
        let e = |y: int| sum_over(c, |k: int| h(y, k));
        assert forall|y: int| 0 <= y < rb implies #[trigger] d(y) == e(y) by {
            sums_agree(c, |k: int| part(j * rb + y, k), |k: int| h(y, k));
        }
        sums_agree(rb, d, e);
        let u = |k: int| sum_over(rb, |y: int| h(y, k));
        let v = |k: int| g(j, k);
        assert forall|k: int| 0 <= k < c implies #[trigger] u(k) == v(k) by {
            let w = |y: int, z: int| f(j * rb + y, k * rc + z);
            let s = |y: int| h(y, k);
            let t = |y: int| sum_over(rc, |z: int| w(y, z));
            assert forall|y: int| 0 <= y < rb implies #[trigger] s(y) == t(y) by {
                sums_agree(rc, |z: int| f(j * rb + y, k * rc + z), |z: int| w(y, z));
            }
            sums_agree(rb, s, t);
        }
        sums_agree(c, u, v);
    }
    sums_agree(b, m, n);
}

/// A sum over a box of blocks is the sum of the blocks' sums.
pub proof fn boxes_split<S: Scalar>(
    a: int,
    b: int,
    c: int,
    ra: int,
    rb: int,
    rc: int,
    f: spec_fn(int, int, int) -> S,
)
    requires
        is_ring::<S>(),
        0 <= a,
        0 <= b,
        0 <= c,
        0 <= ra,
        0 <= rb,
        0 <= rc,
    ensures
        sum_over_box(a * ra, b * rb, c * rc, f) == sum_over_box(
            a,
            b,
            c,
            |i: int, j: int, k: int|
                sum_over_box(
                    ra,
                    rb,
                    rc,
                    |x: int, y: int, z: int| f(i * ra + x, j * rb + y, k * rc + z),
                ),
        ),
{
    let part = |p: int, j: int, k: int|
        sum_over_sheet(rb, rc, |y: int, z: int| f(p, j * rb + y, k * rc + z));
    let layer = |p: int|
        sum_over(b * rb, |q: int| sum_over(c * rc, |r: int| f(p, q, r)));
    let cut = |p: int| sum_over(b, |j: int| sum_over(c, |k: int| part(p, j, k)));
    assert forall|p: int| 0 <= p < a * ra implies #[trigger] layer(p) == cut(p) by {
        let sheet = |q: int, r: int| f(p, q, r);
        sheets_split(b, c, rb, rc, sheet);
        let u = |q: int| sum_over(c * rc, |r: int| f(p, q, r));
        let v = |q: int| sum_over(c * rc, |r: int| sheet(q, r));
        assert forall|q: int| 0 <= q < b * rb implies #[trigger] u(q) == v(q) by {
            sums_agree(c * rc, |r: int| f(p, q, r), |r: int| sheet(q, r));
        }
        sums_agree(b * rb, u, v);
        let w = |j: int, k: int|
            sum_over_sheet(rb, rc, |y: int, z: int| sheet(j * rb + y, k * rc + z));
        let s = |j: int| sum_over(c, |k: int| w(j, k));
        let t = |j: int| sum_over(c, |k: int| part(p, j, k));
        assert forall|j: int| 0 <= j < b implies #[trigger] s(j) == t(j) by {
            let m = |k: int| w(j, k);
            let n = |k: int| part(p, j, k);
            assert forall|k: int| 0 <= k < c implies #[trigger] m(k) == n(k) by {
                sheets_agree(
                    rb,
                    rc,
                    |y: int, z: int| sheet(j * rb + y, k * rc + z),
                    |y: int, z: int| f(p, j * rb + y, k * rc + z),
                );
            }
            sums_agree(c, m, n);
        }
        sums_agree(b, s, t);
    }
    sums_agree(a * ra, layer, cut);
    sums_block(a, ra, cut);
    let g = |i: int, j: int, k: int|
        sum_over_box(
            ra,
            rb,
            rc,
            |x: int, y: int, z: int| f(i * ra + x, j * rb + y, k * rc + z),
        );
    let m = |i: int| sum_over(ra, |x: int| cut(i * ra + x));
    let n = |i: int| sum_over(b, |j: int| sum_over(c, |k: int| g(i, j, k)));
    assert forall|i: int| 0 <= i < a implies #[trigger] m(i) == n(i) by {
        let h = |x: int, j: int| sum_over(c, |k: int| part(i * ra + x, j, k));
        let d = |x: int| cut(i * ra + x);
        let e = |x: int| sum_over(b, |j: int| h(x, j));
        assert forall|x: int| 0 <= x < ra implies #[trigger] d(x) == e(x) by {
            sums_agree(
                b,
                |j: int| sum_over(c, |k: int| part(i * ra + x, j, k)),
                |j: int| h(x, j),
            );
        }
        sums_agree(ra, d, e);
        sums_swap(ra, b, h);
        let u = |j: int| sum_over(ra, |x: int| h(x, j));
        let v = |j: int| sum_over(c, |k: int| g(i, j, k));
        assert forall|j: int| 0 <= j < b implies #[trigger] u(j) == v(j) by {
            let l = |x: int, k: int| part(i * ra + x, j, k);
            let s = |x: int| h(x, j);
            let t = |x: int| sum_over(c, |k: int| l(x, k));
            assert forall|x: int| 0 <= x < ra implies #[trigger] s(x) == t(x) by {
                sums_agree(c, |k: int| part(i * ra + x, j, k), |k: int| l(x, k));
            }
            sums_agree(ra, s, t);
            sums_swap(ra, c, l);
            let o = |k: int| sum_over(ra, |x: int| l(x, k));
            let q = |k: int| g(i, j, k);
            assert forall|k: int| 0 <= k < c implies #[trigger] o(k) == q(k) by {
                let block = |x: int, y: int, z: int| f(i * ra + x, j * rb + y, k * rc + z);
                let w = |x: int| l(x, k);
                let r = |x: int| sum_over(rb, |y: int| sum_over(rc, |z: int| block(x, y, z)));
                assert forall|x: int| 0 <= x < ra implies #[trigger] w(x) == r(x) by {
                    sheets_agree(
                        rb,
                        rc,
                        |y: int, z: int| f(i * ra + x, j * rb + y, k * rc + z),
                        |y: int, z: int| block(x, y, z),
                    );
                    let sheet = |y: int, z: int| block(x, y, z);
                    let y1 = |y: int| sum_over(rc, |z: int| sheet(y, z));
                    let y2 = |y: int| sum_over(rc, |z: int| block(x, y, z));
                    assert forall|y: int| 0 <= y < rb implies #[trigger] y1(y) == y2(y) by {
                        sums_agree(rc, |z: int| sheet(y, z), |z: int| block(x, y, z));
                    }
                    sums_agree(rb, y1, y2);
                }
                sums_agree(ra, w, r);
            }
            sums_agree(c, o, q);
        }
        sums_agree(b, u, v);
    }
    sums_agree(a, m, n);
}

} // verus!
