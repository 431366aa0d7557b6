//! [`Column`] and [`Columns`] - field stores made of per-cell columns.
//!
//! A column says by its type which way it travels: forward (owner to ghost,
//! overwriting), reverse (ghost to owner, accumulating), and whether it is a
//! per-step accumulator. A column with no mark is resized with the mesh but never
//! crosses a rank boundary. [`Columns`] puts two stores side by side, so a store
//! of any number of columns is a chain of them.

use crate::component::Component;
use crate::field_data::FieldData;
use crate::field_data::resized;
use crate::scalar::Scalar;
use vstd::prelude::*;

verus! {

/// One column of components.
pub struct Column<C, const FORWARD: bool, const REVERSE: bool, const ZERO: bool> {
    /// The values, cell by cell.
    pub values: Vec<C>,
}

impl<C, const FORWARD: bool, const REVERSE: bool, const ZERO: bool> Column<
    C,
    FORWARD,
    REVERSE,
    ZERO,
> {
    /// A column without cells.
    pub fn new() -> (r: Self)
        ensures
            r.values@.len() == 0,
    {
        Column { values: Vec::new() }
    }
}

impl<
    S: Scalar,
    C: Component<S>,
    const FORWARD: bool,
    const REVERSE: bool,
    const ZERO: bool,
> FieldData<S> for Column<C, FORWARD, REVERSE, ZERO> {
    type Cell = C;

    open spec fn even(&self) -> bool {
        true
    }

    open spec fn cells(&self) -> Seq<C> {
        self.values@
    }

    open spec fn blank(&self) -> C {
        <C as Component<S>>::zero_value()
    }

    open spec fn forward_width(&self) -> nat {
        if FORWARD {
            <C as Component<S>>::width_spec()
        } else {
            0
        }
    }

    open spec fn reverse_width(&self) -> nat {
        if REVERSE {
            <C as Component<S>>::width_spec()
        } else {
            0
        }
    }

    open spec fn fits(&self) -> bool {
        true
    }

    open spec fn accumulates(&self) -> bool {
        ZERO
    }

    open spec fn forward_of(cell: C) -> Seq<S> {
        if FORWARD {
            <C as Component<S>>::written(cell)
        } else {
            Seq::empty()
        }
    }

    open spec fn with_forward(cell: C, buf: Seq<S>) -> C {
        if FORWARD {
            <C as Component<S>>::held_by(buf)
        } else {
            cell
        }
    }

    open spec fn reverse_of(cell: C) -> Seq<S> {
        if REVERSE {
            <C as Component<S>>::written(cell)
        } else {
            Seq::empty()
        }
    }

    open spec fn with_added(cell: C, buf: Seq<S>) -> C {
        if REVERSE {
            <C as Component<S>>::added(cell, buf)
        } else {
            cell
        }
    }

    open spec fn zeroed(cell: C) -> C {
        if ZERO {
            <C as Component<S>>::zero_value()
        } else {
            cell
        }
    }

    fn len(&self) -> (r: usize) {
        self.values.len()
    }

    fn resize(&mut self, n: usize) {
        let ghost before: Seq<C> = self.values@;
        if n < self.values.len() {
            self.values.truncate(n);
        }
        while self.values.len() < n
            invariant
                self.values@.len() <= n,
                before.len() <= self.values@.len() || self.values@.len() == n,
                self.values@ == resized(
                    before,
                    self.values@.len(),
                    <C as Component<S>>::zero_value(),
                ),
            decreases n - self.values@.len(),
        {
            self.values.push(<C as Component<S>>::zero());
            assert(self.values@ =~= resized(
                before,
                self.values@.len(),
                <C as Component<S>>::zero_value(),
            ));
        }
    }

    fn forward_size(&self) -> (r: usize) {
        if FORWARD {
            <C as Component<S>>::width()
        } else {
            0
        }
    }

    fn pack_forward(&self, c: usize, buf: &mut Vec<S>) {
        let width: usize = <C as Component<S>>::width();
        if FORWARD && width > 0 {
            self.values[c].write(buf);
        }
        assert(buf@.len() == old(buf)@.len() ==> buf@ =~= old(buf)@ + Seq::empty());
    }

    fn unpack_forward(&mut self, c: usize, buf: &[S]) -> (r: usize) {
        let width: usize = <C as Component<S>>::width();
        if FORWARD && width > 0 {
            let value: C = <C as Component<S>>::read(buf);
            self.values[c] = value;
            width
        } else {
            0
        }
    }

    fn reverse_size(&self) -> (r: usize) {
        if REVERSE {
            <C as Component<S>>::width()
        } else {
            0
        }
    }

    fn pack_reverse(&self, c: usize, buf: &mut Vec<S>) {
        let width: usize = <C as Component<S>>::width();
        if REVERSE && width > 0 {
            self.values[c].write(buf);
        }
        assert(buf@.len() == old(buf)@.len() ==> buf@ =~= old(buf)@ + Seq::empty());
    }

    fn unpack_reverse_add(&mut self, c: usize, buf: &[S]) -> (r: usize) {
        let width: usize = <C as Component<S>>::width();
        if REVERSE && width > 0 {
            let mut value: C = self.values[c];
            <C as Component<S>>::add_from(&mut value, buf);
            self.values[c] = value;
            width
        } else {
            0
        }
    }

    fn zero_cell(&mut self, c: usize) {
        if ZERO {
            self.values[c] = <C as Component<S>>::zero();
        }
    }
}

/// Two stores over the same cells, side by side.
pub struct Columns<A, B> {
    /// The store that travels first.
    pub first: A,
    /// The store that travels behind it.
    pub rest: B,
}

impl<S: Scalar, A: FieldData<S>, B: FieldData<S>> FieldData<S> for Columns<A, B> {
    type Cell = (A::Cell, B::Cell);

    open spec fn even(&self) -> bool {
        &&& self.first.even()
        &&& self.rest.even()
        &&& self.first.cells().len() == self.rest.cells().len()
    }

    open spec fn cells(&self) -> Seq<Self::Cell> {
        Seq::new(
            self.first.cells().len(),
            |c: int| (self.first.cells()[c], self.rest.cells()[c]),
        )
    }

    open spec fn blank(&self) -> Self::Cell {
        (self.first.blank(), self.rest.blank())
    }

    open spec fn forward_width(&self) -> nat {
        self.first.forward_width() + self.rest.forward_width()
    }

    open spec fn reverse_width(&self) -> nat {
        self.first.reverse_width() + self.rest.reverse_width()
    }

    open spec fn fits(&self) -> bool {
        &&& self.first.fits()
        &&& self.rest.fits()
        &&& self.first.forward_width() + self.rest.forward_width() <= usize::MAX
        &&& self.first.reverse_width() + self.rest.reverse_width() <= usize::MAX
    }

    open spec fn accumulates(&self) -> bool {
        self.first.accumulates() || self.rest.accumulates()
    }

    open spec fn forward_of(cell: Self::Cell) -> Seq<S> {
        A::forward_of(cell.0) + B::forward_of(cell.1)
    }

    open spec fn with_forward(cell: Self::Cell, buf: Seq<S>) -> Self::Cell {
        let split: int = A::forward_of(cell.0).len() as int;
        (
            if split == 0 {
                cell.0
            } else {
                A::with_forward(cell.0, buf.take(split))
            },
            if B::forward_of(cell.1).len() == 0 {
                cell.1
            } else {
                B::with_forward(cell.1, buf.skip(split))
            },
        )
    }

    open spec fn reverse_of(cell: Self::Cell) -> Seq<S> {
        A::reverse_of(cell.0) + B::reverse_of(cell.1)
    }

    open spec fn with_added(cell: Self::Cell, buf: Seq<S>) -> Self::Cell {
        let split: int = A::reverse_of(cell.0).len() as int;
        (
            if split == 0 {
                cell.0
            } else {
                A::with_added(cell.0, buf.take(split))
            },
            if B::reverse_of(cell.1).len() == 0 {
                cell.1
            } else {
                B::with_added(cell.1, buf.skip(split))
            },
        )
    }

    open spec fn zeroed(cell: Self::Cell) -> Self::Cell {
        (A::zeroed(cell.0), B::zeroed(cell.1))
    }

    fn len(&self) -> (r: usize) {
        self.first.len()
    }

    fn resize(&mut self, n: usize) {
        self.first.resize(n);
        self.rest.resize(n);
        assert(old(self).even() ==> self.cells() =~= resized(
            old(self).cells(),
            n as nat,
            old(self).blank(),
        ));
    }

    fn forward_size(&self) -> (r: usize) {
        self.first.forward_size() + self.rest.forward_size()
    }

    fn pack_forward(&self, c: usize, buf: &mut Vec<S>) {
        self.first.pack_forward(c, buf);
        self.rest.pack_forward(c, buf);
        assert(buf@ =~= old(buf)@ + (if self.forward_width() == 0 {
            Seq::empty()
        } else {
            Self::forward_of(self.cells()[c as int])
        }));
    }

    fn unpack_forward(&mut self, c: usize, buf: &[S]) -> (r: usize) {
        let used: usize = self.first.unpack_forward(c, buf);
        let tail: &[S] = vstd::slice::slice_subrange(buf, used, buf.len());
        let more: usize = self.rest.unpack_forward(c, tail);
        proof {
            let before = old(self).cells();
            let front: Seq<S> = buf@.take(old(self).forward_width() as int);
            assert(front.take(used as int) =~= buf@.take(used as int));
            assert(front.skip(used as int) =~= tail@.take(more as int));
            if old(self).forward_width() == 0 {
                assert(self.cells() =~= before);
            } else {
                assert(self.cells() =~= before.update(
                    c as int,
                    Self::with_forward(before[c as int], front),
                ));
            }
        }
        used + more
    }

    fn reverse_size(&self) -> (r: usize) {
        self.first.reverse_size() + self.rest.reverse_size()
    }

    fn pack_reverse(&self, c: usize, buf: &mut Vec<S>) {
        self.first.pack_reverse(c, buf);
        self.rest.pack_reverse(c, buf);
        assert(buf@ =~= old(buf)@ + (if self.reverse_width() == 0 {
            Seq::empty()
        } else {
            Self::reverse_of(self.cells()[c as int])
        }));
    }

    fn unpack_reverse_add(&mut self, c: usize, buf: &[S]) -> (r: usize) {
        let used: usize = self.first.unpack_reverse_add(c, buf);
        let tail: &[S] = vstd::slice::slice_subrange(buf, used, buf.len());
        let more: usize = self.rest.unpack_reverse_add(c, tail);
        proof {
            let before = old(self).cells();
            let front: Seq<S> = buf@.take(old(self).reverse_width() as int);
            assert(front.take(used as int) =~= buf@.take(used as int));
            assert(front.skip(used as int) =~= tail@.take(more as int));
            if old(self).reverse_width() == 0 {
                assert(self.cells() =~= before);
            } else {
                assert(self.cells() =~= before.update(
                    c as int,
                    Self::with_added(before[c as int], front),
                ));
            }
        }
        used + more
    }

    fn zero_cell(&mut self, c: usize) {
        self.first.zero_cell(c);
        self.rest.zero_cell(c);
        proof {
            let before = old(self).cells();
            if old(self).accumulates() {
                assert(self.cells() =~= before.update(
                    c as int,
                    Self::zeroed(before[c as int]),
                ));
            } else {
                assert(self.cells() =~= before);
            }
        }
    }
}

// ---------------------------------------------------------------------------
// What crosses between two cells.
// ---------------------------------------------------------------------------

/// Cell `into` after the forward data of cell `from` was unpacked into it.
pub open spec fn handed_over<S: Scalar, F: FieldData<S>>(into: F::Cell, from: F::Cell) -> F::Cell {
    if F::forward_of(from).len() == 0 {
        into
    } else {
        F::with_forward(into, F::forward_of(from))
    }
}

/// Cell `into` after the reverse data of cell `from` was accumulated into it.
pub open spec fn collected<S: Scalar, F: FieldData<S>>(into: F::Cell, from: F::Cell) -> F::Cell {
    if F::reverse_of(from).len() == 0 {
        into
    } else {
        F::with_added(into, F::reverse_of(from))
    }
}

/// Packing cell `c` of a store and unpacking at cell `d` uses up all that was
/// packed, hands the forward data of `c` over to `d` and leaves every other cell
/// alone.
pub proof fn forward_round_trip<S: Scalar, F: FieldData<S>>(
    before: Seq<F::Cell>,
    width: nat,
    c: int,
    d: int,
    packed: Seq<S>,
    after: Seq<F::Cell>,
)
    requires
        0 <= c < before.len(),
        0 <= d < before.len(),
        F::forward_of(before[c]).len() == width,
        packed == (if width == 0 {
            Seq::empty()
        } else {
            F::forward_of(before[c])
        }),
        after == (if width == 0 {
            before
        } else {
            before.update(d, F::with_forward(before[d], packed.take(width as int)))
        }),
    ensures
        packed.len() == width,
        after == before.update(d, handed_over::<S, F>(before[d], before[c])),
{
    assert(packed.take(width as int) =~= packed);
    assert(before.update(d, before[d]) =~= before);
}

/// Packing the reverse data of cell `c` of a store and unpacking at cell `d` uses up
/// all that was packed, accumulates it into `d` and leaves every other cell alone.
pub proof fn reverse_round_trip<S: Scalar, F: FieldData<S>>(
    before: Seq<F::Cell>,
    width: nat,
    c: int,
    d: int,
    packed: Seq<S>,
    after: Seq<F::Cell>,
)
    requires
        0 <= c < before.len(),
        0 <= d < before.len(),
        F::reverse_of(before[c]).len() == width,
        packed == (if width == 0 {
            Seq::empty()
        } else {
            F::reverse_of(before[c])
        }),
        after == (if width == 0 {
            before
        } else {
            before.update(d, F::with_added(before[d], packed.take(width as int)))
        }),
    ensures
        packed.len() == width,
        after == before.update(d, collected::<S, F>(before[d], before[c])),
{
    assert(packed.take(width as int) =~= packed);
    assert(before.update(d, before[d]) =~= before);
}

/// Stores side by side are handed over side by side: their widths add up, and each
/// store takes what it would take alone.
pub proof fn columns_hand_over<S: Scalar, A: FieldData<S>, B: FieldData<S>>(
    into: (A::Cell, B::Cell),
    from: (A::Cell, B::Cell),
)
    requires
        A::forward_of(into.0).len() == A::forward_of(from.0).len(),
        B::forward_of(into.1).len() == B::forward_of(from.1).len(),
    ensures
        <Columns<A, B> as FieldData<S>>::forward_of(from).len() == A::forward_of(from.0).len()
            + B::forward_of(from.1).len(),
        handed_over::<S, Columns<A, B>>(into, from) == (
            handed_over::<S, A>(into.0, from.0),
            handed_over::<S, B>(into.1, from.1),
        ),
{
    let (a, b): (Seq<S>, Seq<S>) = (A::forward_of(from.0), B::forward_of(from.1));
    assert((a + b).take(a.len() as int) =~= a);
    assert((a + b).skip(a.len() as int) =~= b);
}

/// Stores side by side collect side by side: their widths add up, and each store
/// accumulates what it would accumulate alone.
pub proof fn columns_collect<S: Scalar, A: FieldData<S>, B: FieldData<S>>(
    into: (A::Cell, B::Cell),
    from: (A::Cell, B::Cell),
)
    requires
        A::reverse_of(into.0).len() == A::reverse_of(from.0).len(),
        B::reverse_of(into.1).len() == B::reverse_of(from.1).len(),
    ensures
        <Columns<A, B> as FieldData<S>>::reverse_of(from).len() == A::reverse_of(from.0).len()
            + B::reverse_of(from.1).len(),
        collected::<S, Columns<A, B>>(into, from) == (
            collected::<S, A>(into.0, from.0),
            collected::<S, B>(into.1, from.1),
        ),
{
    let (a, b): (Seq<S>, Seq<S>) = (A::reverse_of(from.0), B::reverse_of(from.1));
    assert((a + b).take(a.len() as int) =~= a);
    assert((a + b).skip(a.len() as int) =~= b);
}

/// A forward column of a component that reads back as it was written takes the value
/// over unchanged, and a column that does not travel forward keeps its own.
pub proof fn forward_hands_over<
    S: Scalar,
    C: Component<S>,
    const REVERSE: bool,
    const ZERO: bool,
>(into: C, from: C)
    requires
        C::held_by(into.written()) == into,
        C::held_by(from.written()) == from,
        into.written().len() == from.written().len(),
    ensures
        handed_over::<S, Column<C, true, REVERSE, ZERO>>(into, from) == from,
        handed_over::<S, Column<C, false, REVERSE, ZERO>>(into, from) == into,
{
    if from.written().len() == 0 {
        assert(into.written() =~= from.written());
    }
}

/// A reverse column accumulates the value of the other cell, and a column that does
/// not travel back keeps its own.
pub proof fn reverse_collects<
    S: Scalar,
    C: Component<S>,
    const FORWARD: bool,
    const ZERO: bool,
>(into: C, from: C)
    requires
        from.written().len() > 0,
    ensures
        collected::<S, Column<C, FORWARD, true, ZERO>>(into, from) == into.added(from.written()),
        collected::<S, Column<C, FORWARD, false, ZERO>>(into, from) == into,
{
}

} // verus!
