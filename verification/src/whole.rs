//! [`Whole`] - exact integer arithmetic as a scalar.
//!
//! The integers modulo `2^64`, in the range of `i64`. Sums and products never
//! round, so a deposit of whole amounts is conserved to the unit, and a mesh laid
//! out on an integer lattice with even spacings has exact cell centres.

use crate::scalar::Scalar;
use crate::scalar::is_ordered;
use crate::scalar::is_ring;
use vstd::arithmetic::div_mod::*;
use vstd::arithmetic::mul::*;
use vstd::prelude::*;

verus! {

/// A whole number.
#[derive(Clone, Copy, Debug, PartialEq, Eq, Structural)]
pub struct Whole {
    /// The number held.
    pub n: i64,
}

/// The number of residues.
pub open spec fn modulus() -> int {
    0x1_0000_0000_0000_0000
}

/// The representative of `x` in the range of `i64`.
pub open spec fn wrapped(x: int) -> i64 {
    if x % modulus() > i64::MAX {
        (x % modulus() - modulus()) as i64
    } else {
        (x % modulus()) as i64
    }
}

/// The integer square root: the largest `r` with `r * r <= x`, or zero for a
/// negative `x`.
pub open spec fn is_int_root(x: int, r: int) -> bool {
    if x < 0 {
        r == 0
    } else {
        r >= 0 && r * r <= x && x < (r + 1) * (r + 1)
    }
}

/// `wrapped` picks the member of the residue class of `x` within the range.
proof fn wrapped_is_congruent(x: int)
    ensures
        wrapped(x) as int % modulus() == x % modulus(),
        i64::MIN <= x <= i64::MAX ==> wrapped(x) == x,
{
    let m: int = modulus();
    let r: int = x % m;
    lemma_mod_bound(x, m);
    if r > i64::MAX {
        assert(wrapped(x) as int == r - m);
        lemma_mod_sub_multiples_vanish(r, m);
        lemma_mod_twice(x, m);
        assert((-m + r) % m == r % m);
    } else {
        lemma_mod_twice(x, m);
    }
    if i64::MIN <= x <= i64::MAX {
        if x >= 0 {
            lemma_small_mod(x as nat, m as nat);
        } else {
            lemma_mod_add_multiples_vanish(x, m);
            lemma_small_mod((m + x) as nat, m as nat);
        }
    }
}

/// A sum may be reduced before or after adding.
proof fn wrapped_sum(x: int, y: int)
    ensures
        wrapped(wrapped(x) + y) == wrapped(x + y),
        wrapped(x + wrapped(y)) == wrapped(x + y),
{
    let m: int = modulus();
    wrapped_is_congruent(x);
    wrapped_is_congruent(y);
    lemma_add_mod_noop(wrapped(x) as int, y, m);
    lemma_add_mod_noop(x, y, m);
    lemma_add_mod_noop(x, wrapped(y) as int, m);
}

/// A product may be reduced before or after multiplying.
proof fn wrapped_product(x: int, y: int)
    ensures
        wrapped(wrapped(x) * y) == wrapped(x * y),
        wrapped(x * wrapped(y)) == wrapped(x * y),
{
    let m: int = modulus();
    wrapped_is_congruent(x);
    wrapped_is_congruent(y);
    lemma_mul_mod_noop(wrapped(x) as int, y, m);
    lemma_mul_mod_noop(x, y, m);
    lemma_mul_mod_noop(x, wrapped(y) as int, m);
}

impl Scalar for Whole {
    open spec fn zero_spec() -> Self {
        Whole { n: 0 }
    }

    open spec fn one_spec() -> Self {
        Whole { n: 1 }
    }

    open spec fn tiny_spec() -> Self {
        Whole { n: 1 }
    }

    open spec fn slop_spec() -> Self {
        Whole { n: 0 }
    }

    open spec fn count_spec(n: int) -> Self {
        Whole { n: wrapped(n) }
    }

    open spec fn plus_spec(self, rhs: Self) -> Self {
        Whole { n: wrapped(self.n + rhs.n) }
    }

    open spec fn minus_spec(self, rhs: Self) -> Self {
        Whole { n: wrapped(self.n - rhs.n) }
    }

    open spec fn times_spec(self, rhs: Self) -> Self {
        Whole { n: wrapped(self.n * rhs.n) }
    }

    /// The quotient that leaves a remainder from zero up; zero where there is no
    /// quotient in range.
    open spec fn over_spec(self, rhs: Self) -> Self {
        if rhs.n != 0 && i64::MIN <= self.n / rhs.n <= i64::MAX {
            Whole { n: (self.n / rhs.n) as i64 }
        } else {
            Whole { n: 0 }
        }
    }

    open spec fn negated_spec(self) -> Self {
        Whole { n: wrapped(-self.n) }
    }

    open spec fn halved_spec(self) -> Self {
        Whole { n: (self.n as int / 2) as i64 }
    }

    open spec fn floored_spec(self) -> Self {
        self
    }

    open spec fn root_spec(self) -> Self {
        Whole { n: choose|r: i64| is_int_root(self.n as int, r as int) }
    }

    open spec fn index_spec(self) -> usize {
        if self.n < 0 {
            0
        } else if self.n > usize::MAX {
            usize::MAX
        } else {
            self.n as usize
        }
    }

    open spec fn less_spec(self, rhs: Self) -> bool {
        self.n < rhs.n
    }

    open spec fn at_most_spec(self, rhs: Self) -> bool {
        self.n <= rhs.n
    }

    open spec fn equals_spec(self, rhs: Self) -> bool {
        self.n == rhs.n
    }

    fn zero() -> (r: Self) {
        Whole { n: 0 }
    }

    fn one() -> (r: Self) {
        Whole { n: 1 }
    }

    fn tiny() -> (r: Self) {
        Whole { n: 1 }
    }

    fn slop() -> (r: Self) {
        Whole { n: 0 }
    }

    fn from_count(n: usize) -> (r: Self) {
        proof {
            wrapped_is_congruent(n as int);
            lemma_small_mod(n as nat, modulus() as nat);
        }
        let wide: u64 = n as u64;
        if wide <= 0x7fff_ffff_ffff_ffff {
            Whole { n: wide as i64 }
        } else {
            let above: u64 = wide - 0x8000_0000_0000_0000;
            Whole { n: i64::MIN + above as i64 }
        }
    }

    fn from_signed(n: i64) -> (r: Self) {
        proof {
            wrapped_is_congruent(n as int);
        }
        Whole { n }
    }

    fn plus(self, rhs: Self) -> (r: Self) {
        proof {
            let s: int = self.n + rhs.n;
            wrapped_is_congruent(s);
            lemma_mod_add_multiples_vanish(s, modulus());
            lemma_mod_sub_multiples_vanish(s, modulus());
            wrapped_is_congruent(s - modulus());
            wrapped_is_congruent(s + modulus());
        }
        Whole { n: self.n.wrapping_add(rhs.n) }
    }

    fn minus(self, rhs: Self) -> (r: Self) {
        proof {
            let s: int = self.n - rhs.n;
            wrapped_is_congruent(s);
            lemma_mod_add_multiples_vanish(s, modulus());
            lemma_mod_sub_multiples_vanish(s, modulus());
            wrapped_is_congruent(s - modulus());
            wrapped_is_congruent(s + modulus());
        }
        Whole { n: self.n.wrapping_sub(rhs.n) }
    }

    fn times(self, rhs: Self) -> (r: Self) {
        Whole { n: self.n.wrapping_mul(rhs.n) }
    }

    fn over(self, rhs: Self) -> (r: Self) {
        match self.n.checked_div_euclid(rhs.n) {
            Some(q) => Whole { n: q },
            None => Whole { n: 0 },
        }
    }

    fn negated(self) -> (r: Self) {
        proof {
            let s: int = -self.n;
            wrapped_is_congruent(s);
            lemma_mod_sub_multiples_vanish(s, modulus());
            wrapped_is_congruent(s - modulus());
        }
        let zero: i64 = 0;
        Whole { n: zero.wrapping_sub(self.n) }
    }

    fn halved(self) -> (r: Self) {
        match self.n.checked_div_euclid(2) {
            Some(h) => Whole { n: h },
            None => Whole { n: 0 },
        }
    }

    fn floored(self) -> (r: Self) {
        self
    }

    fn root(self) -> (r: Self) {
        let n: i64 = int_root(self.n);
        proof {
            let picked: i64 = choose|r: i64| is_int_root(self.n as int, r as int);
            assert(is_int_root(self.n as int, n as int));
            assert(is_int_root(self.n as int, picked as int));
            int_root_is_unique(self.n as int, n as int, picked as int);
        }
        Whole { n }
    }

    fn to_index(self) -> (r: usize) {
        if self.n < 0 {
            0
        } else {
            let magnitude: u64 = self.n as u64;
            if magnitude > usize::MAX as u64 {
                usize::MAX
            } else {
                magnitude as usize
            }
        }
    }

    fn less(self, rhs: Self) -> (r: bool) {
        self.n < rhs.n
    }

    fn at_most(self, rhs: Self) -> (r: bool) {
        self.n <= rhs.n
    }

    fn equals(self, rhs: Self) -> (r: bool) {
        self.n == rhs.n
    }
}

/// A number has one integer square root.
proof fn int_root_is_unique(x: int, a: int, b: int)
    requires
        is_int_root(x, a),
        is_int_root(x, b),
    ensures
        a == b,
{
    if x >= 0 && a < b {
        assert((a + 1) * (a + 1) <= b * b) by (nonlinear_arith)
            requires
                0 <= a,
                a + 1 <= b,
        ;
    }
    if x >= 0 && b < a {
        assert((b + 1) * (b + 1) <= a * a) by (nonlinear_arith)
            requires
                0 <= b,
                b + 1 <= a,
        ;
    }
}

/// The integer square root by bisection.
fn int_root(x: i64) -> (r: i64)
    ensures
        is_int_root(x as int, r as int),
{
    if x < 0 {
        return 0;
    }
    let mut lo: i64 = 0;
    let mut hi: i64 = 3_037_000_500;
    while lo + 1 < hi
        invariant
            0 <= x,
            0 <= lo < hi <= 3_037_000_500,
            lo * lo <= x,
            x < hi * hi,
        decreases hi - lo,
    {
        let mid: i64 = lo + (hi - lo) / 2;
        assert(0 <= mid * mid <= 0x7fff_ffff_ffff_ffff) by (nonlinear_arith)
            requires
                0 <= mid < 3_037_000_500,
        ;
        if mid * mid <= x {
            lo = mid;
        } else {
            hi = mid;
        }
    }
    lo
}

/// Whole numbers form a commutative ring.
pub proof fn whole_is_ring()
    ensures
        is_ring::<Whole>(),
{
    reveal(is_ring);
    assert forall|a: Whole, b: Whole, c: Whole| #[trigger]
        a.plus_spec(b).plus_spec(c) == a.plus_spec(b.plus_spec(c)) by {
        wrapped_sum(a.n + b.n, c.n as int);
        wrapped_sum(a.n as int, b.n + c.n);
    }
    assert forall|a: Whole| #[trigger] a.plus_spec(Whole::zero_spec()) == a by {
        wrapped_is_congruent(a.n as int);
    }
    assert forall|a: Whole, b: Whole| #[trigger] a.times_spec(b) == b.times_spec(a) by {
        lemma_mul_is_commutative(a.n as int, b.n as int);
    }
    assert forall|a: Whole, b: Whole, c: Whole| #[trigger]
        a.times_spec(b).times_spec(c) == a.times_spec(b.times_spec(c)) by {
        wrapped_product(a.n * b.n, c.n as int);
        wrapped_product(a.n as int, b.n * c.n);
        lemma_mul_is_associative(a.n as int, b.n as int, c.n as int);
    }
    assert forall|a: Whole| #[trigger] a.times_spec(Whole::one_spec()) == a by {
        wrapped_is_congruent(a.n as int);
    }
    assert forall|a: Whole, b: Whole, c: Whole| #[trigger]
        a.times_spec(b.plus_spec(c)) == a.times_spec(b).plus_spec(a.times_spec(c)) by {
        wrapped_product(a.n as int, b.n + c.n);
        lemma_mul_is_distributive_add(a.n as int, b.n as int, c.n as int);
        wrapped_sum(a.n * b.n, wrapped(a.n * c.n) as int);
        wrapped_sum(a.n * b.n, a.n * c.n);
    }
    assert forall|a: Whole, b: Whole| #[trigger] a.minus_spec(b).plus_spec(b) == a by {
        wrapped_sum(a.n - b.n, b.n as int);
        wrapped_is_congruent(a.n as int);
    }
    assert forall|a: Whole| #[trigger] a.negated_spec().plus_spec(a) == Whole::zero_spec() by {
        wrapped_sum(-a.n, a.n as int);
        wrapped_is_congruent(0);
    }
}

/// Whole numbers are totally ordered.
pub proof fn whole_is_ordered()
    ensures
        is_ordered::<Whole>(),
{
    reveal(is_ordered);
}

} // verus!
