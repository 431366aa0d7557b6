//! [`Component`] - the per-cell value types a field column holds.
//!
//! A component is a fixed-width value that knows how to write itself to a flat
//! buffer of scalars and to read itself back. Scalars, arrays of scalars and
//! boolean masks are components; physics makes its own state one.

use crate::scalar::Scalar;
use crate::scalar::is_ordered;
use crate::scalar::is_ring;
use crate::scalar::plus_zero;
use vstd::prelude::*;

verus! {

/// A fixed-width per-cell value that serializes to scalars.
pub trait Component<S: Scalar>: Copy + 'static {
    /// Number of scalars this component serializes to.
    closed spec fn width_spec() -> nat {
        arbitrary()
    }

    /// The scalars this component serializes to.
    closed spec fn written(self) -> Seq<S> {
        arbitrary()
    }

    /// The component that a buffer of this width holds.
    closed spec fn held_by(buf: Seq<S>) -> Self {
        arbitrary()
    }

    /// This component with the contents of `buf` accumulated into it.
    closed spec fn added(self, buf: Seq<S>) -> Self {
        arbitrary()
    }

    /// The additive identity.
    closed spec fn zero_value() -> Self {
        arbitrary()
    }

    /// Number of scalars this component serializes to.
    fn width() -> (r: usize)
        ensures
            r == Self::width_spec(),
            forall|x: Self| (#[trigger] x.written()).len() == r,
    ;

    /// Append this component's scalars to `buf`.
    fn write(&self, buf: &mut Vec<S>)
        ensures
            final(buf)@ == old(buf)@ + self.written(),
    ;

    /// Read this component from the front of `buf` (overwrite semantics).
    fn read(buf: &[S]) -> (r: Self)
        requires
            buf@.len() >= Self::width_spec(),
        ensures
            r == Self::held_by(buf@.take(Self::width_spec() as int)),
    ;

    /// Accumulate the front of `buf` into `self` (reverse-exchange semantics).
    fn add_from(&mut self, buf: &[S])
        requires
            buf@.len() >= Self::width_spec(),
        ensures
            *final(self) == old(self).added(buf@.take(Self::width_spec() as int)),
    ;

    /// The additive identity: resets accumulators and fills new cells.
    fn zero() -> (r: Self)
        ensures
            r == Self::zero_value(),
    ;
}

impl<S: Scalar> Component<S> for S {
    open spec fn width_spec() -> nat {
        1
    }

    open spec fn written(self) -> Seq<S> {
        seq![self]
    }

    open spec fn held_by(buf: Seq<S>) -> Self {
        buf[0]
    }

    open spec fn added(self, buf: Seq<S>) -> Self {
        self.plus_spec(buf[0])
    }

    open spec fn zero_value() -> Self {
        S::zero_spec()
    }

    fn width() -> (r: usize) {
        1
    }

    fn write(&self, buf: &mut Vec<S>) {
        buf.push(*self);
        assert(buf@ =~= old(buf)@ + self.written());
    }

    fn read(buf: &[S]) -> (r: Self) {
        buf[0]
    }

    fn add_from(&mut self, buf: &[S]) {
        *self = self.plus(buf[0]);
    }

    fn zero() -> (r: Self) {
        <S as Scalar>::zero()
    }
}

impl<S: Scalar, const N: usize> Component<S> for [S; N] {
    open spec fn width_spec() -> nat {
        N as nat
    }

    open spec fn written(self) -> Seq<S> {
        self@
    }

    open spec fn held_by(buf: Seq<S>) -> Self {
        choose|a: [S; N]| a@ == buf
    }

    open spec fn added(self, buf: Seq<S>) -> Self {
        choose|a: [S; N]| a@ == Seq::new(N as nat, |i: int| self@[i].plus_spec(buf[i]))
    }

    open spec fn zero_value() -> Self {
        choose|a: [S; N]| a@ == Seq::new(N as nat, |i: int| S::zero_spec())
    }

    fn width() -> (r: usize) {
        N
    }

    fn write(&self, buf: &mut Vec<S>) {
        let mut i: usize = 0;
        while i < N
            invariant
                i <= N,
                buf@ == old(buf)@ + self@.take(i as int),
            decreases N - i,
        {
            buf.push(self[i]);
            i = i + 1;
            assert(self@.take(i as int) =~= self@.take(i - 1).push(self@[i - 1]));
            assert(buf@ =~= old(buf)@ + self@.take(i as int));
        }
        assert(self@.take(N as int) =~= self@);
    }

    fn read(buf: &[S]) -> (r: Self) {
        let mut r: [S; N] = [<S as Scalar>::zero(); N];
        let mut i: usize = 0;
        while i < N
            invariant
                i <= N <= buf@.len(),
                forall|j: int| 0 <= j < i ==> #[trigger] r@[j] == buf@[j],
            decreases N - i,
        {
            r[i] = buf[i];
            i = i + 1;
        }
        assert(r@ =~= buf@.take(N as int));
        proof {
            let picked: [S; N] = choose|a: [S; N]| a@ == buf@.take(N as int);
            assert(picked@ == r@);
            assert(picked =~= r);
        }
        r
    }

    fn add_from(&mut self, buf: &[S]) {
        let ghost before: Seq<S> = self@;
        let ghost front: Seq<S> = buf@.take(N as int);
        let mut i: usize = 0;
        while i < N
            invariant
                i <= N <= buf@.len(),
                front == buf@.take(N as int),
                before.len() == N,
                forall|j: int| 0 <= j < i ==> #[trigger] self@[j] == before[j].plus_spec(front[j]),
                forall|j: int| i <= j < N ==> #[trigger] self@[j] == before[j],
            decreases N - i,
        {
            let x: S = self[i];
            self[i] = x.plus(buf[i]);
            i = i + 1;
        }
        proof {
            let want: Seq<S> = Seq::new(N as nat, |i: int| before[i].plus_spec(front[i]));
            assert(self@ =~= want);
            let picked: [S; N] = choose|a: [S; N]| a@ == want;
            assert(picked@ == self@);
            assert(picked =~= *self);
        }
    }

    fn zero() -> (r: Self) {
        let r: [S; N] = [<S as Scalar>::zero(); N];
        proof {
            let want: Seq<S> = Seq::new(N as nat, |i: int| S::zero_spec());
            assert(r@ =~= want);
            let picked: [S; N] = choose|a: [S; N]| a@ == want;
            assert(picked@ == r@);
            assert(picked =~= r);
        }
        r
    }
}

/// Boolean masks exchange as one or zero; a value above one half reads as set.
/// Accumulating is a logical or.
impl<S: Scalar> Component<S> for bool {
    open spec fn width_spec() -> nat {
        1
    }

    open spec fn written(self) -> Seq<S> {
        seq![
            if self {
                S::one_spec()
            } else {
                S::zero_spec()
            },
        ]
    }

    open spec fn held_by(buf: Seq<S>) -> Self {
        S::one_spec().halved_spec().less_spec(buf[0])
    }

    open spec fn added(self, buf: Seq<S>) -> Self {
        self || S::one_spec().halved_spec().less_spec(buf[0])
    }

    open spec fn zero_value() -> Self {
        false
    }

    fn width() -> (r: usize) {
        1
    }

    fn write(&self, buf: &mut Vec<S>) {
        if *self {
            buf.push(<S as Scalar>::one());
        } else {
            buf.push(<S as Scalar>::zero());
        }
        assert(buf@ =~= old(buf)@ + Component::<S>::written(*self));
    }

    fn read(buf: &[S]) -> (r: Self) {
        <S as Scalar>::one().halved().less(buf[0])
    }

    fn add_from(&mut self, buf: &[S]) {
        *self = *self || <S as Scalar>::one().halved().less(buf[0]);
    }

    fn zero() -> (r: Self) {
        false
    }
}

/// A scalar reads back as it was written.
pub proof fn scalar_round_trips<S: Scalar>(x: S)
    ensures
        <S as Component<S>>::held_by(Component::<S>::written(x)) == x,
{
}

/// An array reads back as it was written, and accumulating into it adds entry by
/// entry.
pub proof fn array_round_trips<S: Scalar, const N: usize>(x: [S; N], y: [S; N])
    ensures
        <[S; N] as Component<S>>::held_by(Component::<S>::written(x)) == x,
        forall|i: int|
            0 <= i < N ==> Component::<S>::added(x, Component::<S>::written(y))@[i]
                == #[trigger] x@[i].plus_spec(y@[i]),
{
    let picked: [S; N] = choose|a: [S; N]| a@ == x@;
    assert(x@ == x@);
    assert(picked =~= x);
    let want: Seq<S> = Seq::new(N as nat, |i: int| x@[i].plus_spec(y@[i]));
    let a: [S; N] = array_exists(x, want, N as int);
    assert(a@ =~= want);
    assert(Component::<S>::added(x, Component::<S>::written(y))@ == want);
}

/// An array can be overwritten up to `k` with the entries of any sequence.
proof fn array_exists<S, const N: usize>(base: [S; N], s: Seq<S>, k: int) -> (r: [S; N])
    requires
        s.len() == N,
        0 <= k <= N,
    ensures
        forall|i: int| 0 <= i < k ==> #[trigger] r@[i] == s[i],
    decreases k,
{
    if k == 0 {
        base
    } else {
        let a: [S; N] = array_exists(base, s, k - 1);
        let r: [S; N] = vstd::array::spec_array_update(a, k - 1, s[k - 1]);
        assert(r@ == a@.update(k - 1, s[k - 1]));
        r
    }
}

/// A mask reads back as it was written wherever one half lies between zero and
/// one.
pub proof fn mask_round_trips<S: Scalar>(x: bool)
    requires
        is_ordered::<S>(),
        S::zero_spec().at_most_spec(S::one_spec().halved_spec()),
        S::one_spec().halved_spec().less_spec(S::one_spec()),
    ensures
        <bool as Component<S>>::held_by(Component::<S>::written(x)) == x,
{
    reveal(is_ordered);
}

/// An accumulator starts from zero: what is added first is what it then holds.
pub proof fn accumulators_start_from_zero<S: Scalar, const N: usize>(
    x: S,
    list: [S; N],
    mask: bool,
)
    requires
        is_ring::<S>(),
        !S::one_spec().halved_spec().less_spec(S::zero_spec()),
        S::one_spec().halved_spec().less_spec(S::one_spec()),
    ensures
        <S as Component<S>>::added(
            <S as Component<S>>::zero_value(),
            <S as Component<S>>::written(x),
        ) == x,
        <[S; N] as Component<S>>::added(
            <[S; N] as Component<S>>::zero_value(),
            <[S; N] as Component<S>>::written(list),
        ) == list,
        <bool as Component<S>>::added(
            <bool as Component<S>>::zero_value(),
            <bool as Component<S>>::written(mask),
        ) == mask,
{
    plus_zero(x);
    let zeros: Seq<S> = Seq::new(N as nat, |i: int| S::zero_spec());
    let none: [S; N] = <[S; N] as Component<S>>::zero_value();
    let a: [S; N] = array_exists(list, zeros, N as int);
    assert(a@ =~= zeros);
    assert(none@ == zeros);
    let sum: Seq<S> = Seq::new(N as nat, |i: int| none@[i].plus_spec(list@[i]));
    assert forall|i: int| 0 <= i < N implies #[trigger] sum[i] == list@[i] by {
        plus_zero(list@[i]);
    }
    assert(sum =~= list@);
    let picked: [S; N] = <[S; N] as Component<S>>::added(none, list@);
    assert(list@ == sum);
    assert(picked@ == sum);
    assert(picked =~= list);
}

} // verus!
