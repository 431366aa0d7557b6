//! [`Scalar`] - the number type that coordinates, spacings and field values are
//! made of.
//!
//! Every mesh, field store and transfer operator of this crate is generic over
//! its scalar. The trait asks for determinism only: each operation returns the
//! value of its specification function, and nothing is taken for granted about
//! how those functions relate. Rounding arithmetic therefore qualifies, and a
//! contract such as "this entry is the left-to-right sum of those entries" holds
//! for it to the last bit.
//!
//! Identities that need more, such as conservation of a deposited total, are
//! stated under [`is_ring`] or [`is_ordered`]: the arithmetic neither rounds nor
//! overflows into another value, the comparisons form a total order.
//! [`crate::whole::Whole`] meets both.

use vstd::prelude::*;

verus! {

/// A number type.
///
/// The specification functions have unspecified defaults, so that ordinary Rust
/// can implement the trait for its own types.
pub trait Scalar: Copy + Send + Sync + 'static {
    /// The value of [`Scalar::zero`].
    closed spec fn zero_spec() -> Self {
        arbitrary()
    }

    /// The value of [`Scalar::one`].
    closed spec fn one_spec() -> Self {
        arbitrary()
    }

    /// The value of [`Scalar::tiny`].
    closed spec fn tiny_spec() -> Self {
        arbitrary()
    }

    /// The value of [`Scalar::slop`].
    closed spec fn slop_spec() -> Self {
        arbitrary()
    }

    /// The value of [`Scalar::from_count`] and [`Scalar::from_signed`].
    closed spec fn count_spec(n: int) -> Self {
        arbitrary()
    }

    /// The value of [`Scalar::plus`].
    closed spec fn plus_spec(self, rhs: Self) -> Self {
        arbitrary()
    }

    /// The value of [`Scalar::minus`].
    closed spec fn minus_spec(self, rhs: Self) -> Self {
        arbitrary()
    }

    /// The value of [`Scalar::times`].
    closed spec fn times_spec(self, rhs: Self) -> Self {
        arbitrary()
    }

    /// The value of [`Scalar::over`].
    closed spec fn over_spec(self, rhs: Self) -> Self {
        arbitrary()
    }

    /// The value of [`Scalar::negated`].
    closed spec fn negated_spec(self) -> Self {
        arbitrary()
    }

    /// The value of [`Scalar::halved`].
    closed spec fn halved_spec(self) -> Self {
        arbitrary()
    }

    /// The value of [`Scalar::floored`].
    closed spec fn floored_spec(self) -> Self {
        arbitrary()
    }

    /// The value of [`Scalar::root`].
    closed spec fn root_spec(self) -> Self {
        arbitrary()
    }

    /// The value of [`Scalar::to_index`].
    closed spec fn index_spec(self) -> usize {
        arbitrary()
    }

    /// The value of [`Scalar::less`].
    closed spec fn less_spec(self, rhs: Self) -> bool {
        arbitrary()
    }

    /// The value of [`Scalar::at_most`].
    closed spec fn at_most_spec(self, rhs: Self) -> bool {
        arbitrary()
    }

    /// The value of [`Scalar::equals`].
    closed spec fn equals_spec(self, rhs: Self) -> bool {
        arbitrary()
    }

    /// The additive identity.
    fn zero() -> (r: Self)
        ensures
            r == Self::zero_spec(),
    ;

    /// The multiplicative identity.
    fn one() -> (r: Self)
        ensures
            r == Self::one_spec(),
    ;

    /// The spacing below which two coordinates count as coincident (`1e-30` in
    /// double precision).
    fn tiny() -> (r: Self)
        ensures
            r == Self::tiny_spec(),
    ;

    /// The relative slack of containment tests (`1e-9` in double precision).
    fn slop() -> (r: Self)
        ensures
            r == Self::slop_spec(),
    ;

    /// The scalar nearest to the count `n`.
    fn from_count(n: usize) -> (r: Self)
        ensures
            r == Self::count_spec(n as int),
    ;

    /// The scalar nearest to the whole number `n`.
    fn from_signed(n: i64) -> (r: Self)
        ensures
            r == Self::count_spec(n as int),
    ;

    /// `self + rhs`.
    fn plus(self, rhs: Self) -> (r: Self)
        ensures
            r == self.plus_spec(rhs),
    ;

    /// `self - rhs`.
    fn minus(self, rhs: Self) -> (r: Self)
        ensures
            r == self.minus_spec(rhs),
    ;

    /// `self * rhs`.
    fn times(self, rhs: Self) -> (r: Self)
        ensures
            r == self.times_spec(rhs),
    ;

    /// `self / rhs`.
    fn over(self, rhs: Self) -> (r: Self)
        ensures
            r == self.over_spec(rhs),
    ;

    /// `-self`.
    fn negated(self) -> (r: Self)
        ensures
            r == self.negated_spec(),
    ;

    /// Half of `self`.
    fn halved(self) -> (r: Self)
        ensures
            r == self.halved_spec(),
    ;

    /// The largest whole number not above `self`.
    fn floored(self) -> (r: Self)
        ensures
            r == self.floored_spec(),
    ;

    /// The square root of `self`.
    fn root(self) -> (r: Self)
        ensures
            r == self.root_spec(),
    ;

    /// `self` as an array index, saturating at the ends of the index range.
    fn to_index(self) -> (r: usize)
        ensures
            r == self.index_spec(),
    ;

    /// `self < rhs`.
    fn less(self, rhs: Self) -> (r: bool)
        ensures
            r == self.less_spec(rhs),
    ;

    /// `self <= rhs`.
    fn at_most(self, rhs: Self) -> (r: bool)
        ensures
            r == self.at_most_spec(rhs),
    ;

    /// `self == rhs`.
    fn equals(self, rhs: Self) -> (r: bool)
        ensures
            r == self.equals_spec(rhs),
    ;
}

/// Addition and multiplication of `S` form a commutative ring with `zero` and
/// `one`, and subtraction undoes addition.
#[verifier::opaque]
pub open spec fn is_ring<S: Scalar>() -> bool {
    &&& forall|a: S, b: S| #[trigger] a.plus_spec(b) == b.plus_spec(a)
    &&& forall|a: S, b: S, c: S| #[trigger]
        a.plus_spec(b).plus_spec(c) == a.plus_spec(b.plus_spec(c))
    &&& forall|a: S| #[trigger] a.plus_spec(S::zero_spec()) == a
    &&& forall|a: S, b: S| #[trigger] a.times_spec(b) == b.times_spec(a)
    &&& forall|a: S, b: S, c: S| #[trigger]
        a.times_spec(b).times_spec(c) == a.times_spec(b.times_spec(c))
    &&& forall|a: S| #[trigger] a.times_spec(S::one_spec()) == a
    &&& forall|a: S, b: S, c: S| #[trigger]
        a.times_spec(b.plus_spec(c)) == a.times_spec(b).plus_spec(a.times_spec(c))
    &&& forall|a: S, b: S| #[trigger] a.minus_spec(b).plus_spec(b) == a
    &&& forall|a: S| #[trigger] a.negated_spec().plus_spec(a) == S::zero_spec()
}

/// The comparisons of `S` are those of one total order.
#[verifier::opaque]
pub open spec fn is_ordered<S: Scalar>() -> bool {
    &&& forall|a: S, b: S| #[trigger] a.at_most_spec(b) || b.at_most_spec(a)
    &&& forall|a: S, b: S, c: S| #[trigger]
        a.at_most_spec(b) && #[trigger] b.at_most_spec(c) ==> a.at_most_spec(c)
    &&& forall|a: S, b: S| #[trigger] a.less_spec(b) == !b.at_most_spec(a)
    &&& forall|a: S, b: S| #[trigger]
        a.equals_spec(b) == (a.at_most_spec(b) && b.at_most_spec(a))
}

/// Counts go up by one from zero.
pub open spec fn counts_up<S: Scalar>() -> bool {
    &&& S::count_spec(0) == S::zero_spec()
    &&& forall|n: int|
        0 <= n ==> #[trigger] S::count_spec(n + 1) == S::count_spec(n).plus_spec(S::one_spec())
}

/// Addition commutes.
pub proof fn plus_commutes<S: Scalar>(a: S, b: S)
    requires
        is_ring::<S>(),
    ensures
        a.plus_spec(b) == b.plus_spec(a),
{
    reveal(is_ring);
}

/// Addition associates.
pub proof fn plus_associates<S: Scalar>(a: S, b: S, c: S)
    requires
        is_ring::<S>(),
    ensures
        a.plus_spec(b).plus_spec(c) == a.plus_spec(b.plus_spec(c)),
{
    reveal(is_ring);
}

/// Zero is the identity of addition.
pub proof fn plus_zero<S: Scalar>(a: S)
    requires
        is_ring::<S>(),
    ensures
        a.plus_spec(S::zero_spec()) == a,
        S::zero_spec().plus_spec(a) == a,
{
    reveal(is_ring);
    assert(a.plus_spec(S::zero_spec()) == S::zero_spec().plus_spec(a));
}

/// Multiplication commutes.
pub proof fn times_commutes<S: Scalar>(a: S, b: S)
    requires
        is_ring::<S>(),
    ensures
        a.times_spec(b) == b.times_spec(a),
{
    reveal(is_ring);
}

/// Multiplication associates.
pub proof fn times_associates<S: Scalar>(a: S, b: S, c: S)
    requires
        is_ring::<S>(),
    ensures
        a.times_spec(b).times_spec(c) == a.times_spec(b.times_spec(c)),
{
    reveal(is_ring);
}

/// One is the identity of multiplication.
pub proof fn times_one<S: Scalar>(a: S)
    requires
        is_ring::<S>(),
    ensures
        a.times_spec(S::one_spec()) == a,
        S::one_spec().times_spec(a) == a,
{
    reveal(is_ring);
    assert(a.times_spec(S::one_spec()) == S::one_spec().times_spec(a));
}

/// Multiplication distributes over addition, from either side.
pub proof fn times_distributes<S: Scalar>(a: S, b: S, c: S)
    requires
        is_ring::<S>(),
    ensures
        a.times_spec(b.plus_spec(c)) == a.times_spec(b).plus_spec(a.times_spec(c)),
        b.plus_spec(c).times_spec(a) == b.times_spec(a).plus_spec(c.times_spec(a)),
{
    reveal(is_ring);
    times_commutes(a, b.plus_spec(c));
    times_commutes(a, b);
    times_commutes(a, c);
}

/// Subtraction undoes addition.
pub proof fn minus_restores<S: Scalar>(a: S, b: S)
    requires
        is_ring::<S>(),
    ensures
        a.minus_spec(b).plus_spec(b) == a,
{
    reveal(is_ring);
}

/// A number and its negation add up to zero.
pub proof fn negated_cancels<S: Scalar>(a: S)
    requires
        is_ring::<S>(),
    ensures
        a.negated_spec().plus_spec(a) == S::zero_spec(),
{
    reveal(is_ring);
}

/// A term may be cancelled from both sides of an equation.
pub proof fn plus_cancels<S: Scalar>(a: S, b: S, c: S)
    requires
        is_ring::<S>(),
        a.plus_spec(c) == b.plus_spec(c),
    ensures
        a == b,
{
    let n: S = c.negated_spec();
    negated_cancels(c);
    plus_commutes(c, n);
    plus_associates(a, c, n);
    plus_associates(b, c, n);
    plus_zero(a);
    plus_zero(b);
}

/// Zero annihilates.
pub proof fn times_zero<S: Scalar>(a: S)
    requires
        is_ring::<S>(),
    ensures
        a.times_spec(S::zero_spec()) == S::zero_spec(),
        S::zero_spec().times_spec(a) == S::zero_spec(),
{
    let z: S = S::zero_spec();
    plus_zero(z);
    times_distributes(a, z, z);
    let p: S = a.times_spec(z);
    plus_zero(p);
    plus_cancels(p, z, p);
    times_commutes(a, z);
}

/// The sum of `s`, from the left, starting at zero.
pub open spec fn sum_of<S: Scalar>(s: Seq<S>) -> S
    decreases s.len(),
{
    if s.len() == 0 {
        S::zero_spec()
    } else {
        sum_of(s.drop_last()).plus_spec(s.last())
    }
}

/// The sum of a sequence that grew by one entry.
pub proof fn sum_of_push<S: Scalar>(s: Seq<S>, x: S)
    ensures
        sum_of(s.push(x)) == sum_of(s).plus_spec(x),
{
    assert(s.push(x).drop_last() =~= s);
}

/// In a ring, adding `d` to one entry adds `d` to the sum.
pub proof fn sum_of_update<S: Scalar>(s: Seq<S>, i: int, d: S)
    requires
        is_ring::<S>(),
        0 <= i < s.len(),
    ensures
        sum_of(s.update(i, s[i].plus_spec(d))) == sum_of(s).plus_spec(d),
    decreases s.len(),
{
    let t: Seq<S> = s.update(i, s[i].plus_spec(d));
    let rest: S = sum_of(s.drop_last());
    if i == s.len() - 1 {
        assert(t.drop_last() =~= s.drop_last());
        plus_associates(rest, s.last(), d);
    } else {
        assert(t.drop_last() =~= s.drop_last().update(
            i,
            s.drop_last()[i].plus_spec(d),
        ));
        sum_of_update(s.drop_last(), i, d);
        plus_associates(rest, d, s.last());
        plus_commutes(d, s.last());
        plus_associates(rest, s.last(), d);
    }
}

} // verus!
