//! Halves, midpoints and differences in exact arithmetic.

use crate::extent_laws::halving_is_exact;
use crate::extent_laws::midpoint;
use crate::flux::minus_is_plus_negated;
use crate::placement_laws::difference_of_sum;
use crate::scalar::Scalar;
use crate::scalar::is_ring;
use crate::scalar::minus_restores;
use crate::scalar::negated_cancels;
use crate::scalar::plus_associates;
use crate::scalar::plus_cancels;
use crate::scalar::plus_commutes;
use crate::scalar::times_commutes;
use crate::scalar::times_distributes;
use crate::scalar::times_one;
use crate::scalar::times_zero;
use vstd::prelude::*;

verus! {

/// Two halves make a whole.
pub proof fn halves_make_a_whole<S: Scalar>(a: S)
    requires
        halving_is_exact::<S>(),
    ensures
        a.halved_spec().plus_spec(a.halved_spec()) == a,
{
    reveal(halving_is_exact);
}

/// The half of a sum is the sum of the halves.
pub proof fn half_of_sum<S: Scalar>(a: S, b: S)
    requires
        halving_is_exact::<S>(),
    ensures
        a.plus_spec(b).halved_spec() == a.halved_spec().plus_spec(b.halved_spec()),
{
    reveal(halving_is_exact);
}

/// Numbers whose doubles are equal are equal.
pub proof fn doubles_cancel<S: Scalar>(a: S, b: S)
    requires
        halving_is_exact::<S>(),
        a.plus_spec(a) == b.plus_spec(b),
    ensures
        a == b,
{
    half_of_sum(a, a);
    half_of_sum(b, b);
    halves_make_a_whole(a);
    halves_make_a_whole(b);
}

/// To halve is to multiply by the half of one.
pub proof fn half_is_product<S: Scalar>(a: S)
    requires
        is_ring::<S>(),
        halving_is_exact::<S>(),
    ensures
        a.times_spec(S::one_spec().halved_spec()) == a.halved_spec(),
        S::one_spec().halved_spec().times_spec(a) == a.halved_spec(),
{
    let h: S = S::one_spec().halved_spec();
    halves_make_a_whole(S::one_spec());
    times_distributes(a, h, h);
    times_one(a);
    halves_make_a_whole(a);
    doubles_cancel(a.times_spec(h), a.halved_spec());
    times_commutes(a, h);
}

/// What gives `a` when `b` is added to it is the difference of `a` and `b`.
pub proof fn difference_is<S: Scalar>(a: S, b: S, c: S)
    requires
        is_ring::<S>(),
        c.plus_spec(b) == a,
    ensures
        a.minus_spec(b) == c,
{
    minus_restores(a, b);
    plus_cancels(a.minus_spec(b), c, b);
}

/// The half of a difference is the difference of the halves.
pub proof fn half_of_difference<S: Scalar>(a: S, b: S)
    requires
        is_ring::<S>(),
        halving_is_exact::<S>(),
    ensures
        a.minus_spec(b).halved_spec() == a.halved_spec().minus_spec(b.halved_spec()),
{
    minus_restores(a, b);
    half_of_sum(a.minus_spec(b), b);
    difference_is(a.halved_spec(), b.halved_spec(), a.minus_spec(b).halved_spec());
}

/// Half of the width up from the midpoint of an interval is its upper end, and half
/// of the width down its lower end.
pub proof fn ends_of_midpoint<S: Scalar>(a: S, b: S)
    requires
        is_ring::<S>(),
        halving_is_exact::<S>(),
    ensures
        midpoint(a, b).plus_spec(b.minus_spec(a).halved_spec()) == b,
        midpoint(a, b).minus_spec(b.minus_spec(a).halved_spec()) == a,
{
    let (p, q): (S, S) = (a.halved_spec(), b.halved_spec());
    let w: S = b.minus_spec(a).halved_spec();
    half_of_sum(a, b);
    half_of_difference(b, a);
    minus_restores(q, p);
    assert(w.plus_spec(p) == q);
    plus_commutes(p, q);
    plus_commutes(p, w);
    plus_associates(q, p, w);
    halves_make_a_whole(b);
    assert(midpoint(a, b).plus_spec(w) == b);
    plus_associates(p, p, w);
    halves_make_a_whole(a);
    assert(a.plus_spec(w) == midpoint(a, b));
    difference_is(midpoint(a, b), w, a);
}

/// An interval around `c` of width `w` is `w` wide.
pub proof fn ends_are_apart<S: Scalar>(c: S, w: S)
    requires
        is_ring::<S>(),
        halving_is_exact::<S>(),
    ensures
        c.plus_spec(w.halved_spec()).minus_spec(c.minus_spec(w.halved_spec())) == w,
{
    let h: S = w.halved_spec();
    let low: S = c.minus_spec(h);
    minus_restores(c, h);
    plus_associates(low, h, h);
    halves_make_a_whole(w);
    difference_of_sum(low, w);
}

/// Half a step up and half a step down is no step; two half steps up are one.
pub proof fn half_step_back<S: Scalar>(a: S, w: S)
    requires
        is_ring::<S>(),
        halving_is_exact::<S>(),
    ensures
        a.plus_spec(w.halved_spec()).minus_spec(w.halved_spec()) == a,
        a.plus_spec(w.halved_spec()).plus_spec(w.halved_spec()) == a.plus_spec(w),
{
    let h: S = w.halved_spec();
    difference_is(a.plus_spec(h), h, a);
    plus_associates(a, h, h);
    halves_make_a_whole(w);
}

/// The product with the negation of one is the negation.
pub proof fn times_minus_one<S: Scalar>(a: S)
    requires
        is_ring::<S>(),
    ensures
        S::one_spec().negated_spec().times_spec(a) == a.negated_spec(),
{
    let n: S = S::one_spec().negated_spec();
    negated_cancels(S::one_spec());
    times_distributes(a, n, S::one_spec());
    times_one(a);
    times_zero(a);
    negated_cancels(a);
    plus_cancels(n.times_spec(a), a.negated_spec(), a);
}

/// Adding a negation is subtracting.
pub proof fn plus_negated<S: Scalar>(a: S, b: S)
    requires
        is_ring::<S>(),
    ensures
        a.plus_spec(b.negated_spec()) == a.minus_spec(b),
{
    minus_is_plus_negated(a, b);
}

/// The product with a negation cancels the product.
pub proof fn negated_product_cancels<S: Scalar>(a: S, b: S)
    requires
        is_ring::<S>(),
    ensures
        a.times_spec(b).plus_spec(a.negated_spec().times_spec(b)) == S::zero_spec(),
{
    negated_cancels(a);
    plus_commutes(a, a.negated_spec());
    times_distributes(b, a, a.negated_spec());
    times_zero(b);
}

} // verus!
