//! [`FieldData`] - the seam between the mesh substrate and physics.
//!
//! A store keeps one value per cell. Cells never migrate or reorder, so the
//! contract is small: size the store to the mesh once, move values from owner to
//! ghost (forward, overwriting), move contributions from ghost to owner (reverse,
//! accumulating), and reset per-step accumulators.

use crate::scalar::Scalar;
use vstd::prelude::*;

verus! {

/// `cells` cut off or extended by `blank` to length `n`.
pub open spec fn resized<T>(cells: Seq<T>, n: nat, blank: T) -> Seq<T> {
    Seq::new(
        n,
        |i: int|
            if i < cells.len() {
                cells[i]
            } else {
                blank
            },
    )
}

/// Growing adds blank entries behind those that are there, and shrinking back to the
/// former number gives the former entries.
pub proof fn growing_is_undone_by_shrinking<T>(cells: Seq<T>, n: nat, blank: T)
    requires
        cells.len() <= n,
    ensures
        resized(resized(cells, n, blank), cells.len(), blank) == cells,
        resized(cells, n, blank).skip(cells.len() as int) == Seq::new(
            (n - cells.len()) as nat,
            |i: int| blank,
        ),
{
    assert(resized(resized(cells, n, blank), cells.len(), blank) =~= cells);
}

/// A per-cell field, stored as columns keyed by flat cell index: the same
/// indexing the mesh uses.
pub trait FieldData<S: Scalar>: Sized {
    /// What the store holds for one cell.
    type Cell;

    /// All columns of the store have the same length.
    closed spec fn even(&self) -> bool {
        arbitrary()
    }

    /// What the store holds, cell by cell.
    closed spec fn cells(&self) -> Seq<Self::Cell> {
        arbitrary()
    }

    /// What a new cell holds.
    closed spec fn blank(&self) -> Self::Cell {
        arbitrary()
    }

    /// Scalars per cell moved by forward exchange.
    closed spec fn forward_width(&self) -> nat {
        arbitrary()
    }

    /// Scalars per cell moved by reverse exchange.
    closed spec fn reverse_width(&self) -> nat {
        arbitrary()
    }

    /// The widths of the store are within the index range.
    closed spec fn fits(&self) -> bool {
        arbitrary()
    }

    /// Some column is a per-step accumulator.
    closed spec fn accumulates(&self) -> bool {
        arbitrary()
    }

    /// The forward data of a cell.
    closed spec fn forward_of(cell: Self::Cell) -> Seq<S> {
        arbitrary()
    }

    /// A cell whose forward columns were overwritten from `buf`.
    closed spec fn with_forward(cell: Self::Cell, buf: Seq<S>) -> Self::Cell {
        arbitrary()
    }

    /// The reverse data of a cell.
    closed spec fn reverse_of(cell: Self::Cell) -> Seq<S> {
        arbitrary()
    }

    /// A cell into whose reverse columns `buf` was accumulated.
    closed spec fn with_added(cell: Self::Cell, buf: Seq<S>) -> Self::Cell {
        arbitrary()
    }

    /// A cell whose accumulator columns were reset.
    closed spec fn zeroed(cell: Self::Cell) -> Self::Cell {
        arbitrary()
    }

    /// Number of cells currently stored.
    fn len(&self) -> (r: usize)
        ensures
            self.even() ==> r == self.cells().len(),
    ;

    /// Resize every column to `n` cells (new cells zero-filled).
    fn resize(&mut self, n: usize)
        ensures
            final(self).even(),
            final(self).cells().len() == n,
            old(self).even() ==> final(self).cells() == resized(
                old(self).cells(),
                n as nat,
                old(self).blank(),
            ),
            final(self).blank() == old(self).blank(),
            final(self).forward_width() == old(self).forward_width(),
            final(self).reverse_width() == old(self).reverse_width(),
            final(self).fits() == old(self).fits(),
            final(self).accumulates() == old(self).accumulates(),
    ;

    /// `true` when no cells are stored.
    fn is_empty(&self) -> (r: bool)
        ensures
            self.even() ==> r == (self.cells().len() == 0),
    {
        self.len() == 0
    }

    /// Number of scalars per cell moved by forward (halo) exchange.
    fn forward_size(&self) -> (r: usize)
        requires
            self.fits(),
        ensures
            r == self.forward_width(),
    ;

    /// Append cell `c`'s forward data to `buf`.
    fn pack_forward(&self, c: usize, buf: &mut Vec<S>)
        requires
            self.even(),
            c < self.cells().len() || self.forward_width() == 0,
        ensures
            final(buf)@ == old(buf)@ + (if self.forward_width() == 0 {
                Seq::empty()
            } else {
                Self::forward_of(self.cells()[c as int])
            }),
            c < self.cells().len() ==> Self::forward_of(self.cells()[c as int]).len()
                == self.forward_width(),
    ;

    /// Overwrite cell `c`'s forward fields from the front of `buf`; return the
    /// number of scalars consumed.
    fn unpack_forward(&mut self, c: usize, buf: &[S]) -> (r: usize)
        requires
            old(self).fits(),
            old(self).even(),
            c < old(self).cells().len() || old(self).forward_width() == 0,
            buf@.len() >= old(self).forward_width(),
        ensures
            r == old(self).forward_width(),
            final(self).even(),
            final(self).cells() == (if old(self).forward_width() == 0 {
                old(self).cells()
            } else {
                old(self).cells().update(
                    c as int,
                    Self::with_forward(
                        old(self).cells()[c as int],
                        buf@.take(old(self).forward_width() as int),
                    ),
                )
            }),
            final(self).blank() == old(self).blank(),
            final(self).forward_width() == old(self).forward_width(),
            final(self).reverse_width() == old(self).reverse_width(),
            final(self).fits() == old(self).fits(),
            final(self).accumulates() == old(self).accumulates(),
            c < old(self).cells().len() ==> Self::forward_of(old(self).cells()[c as int]).len() == old(
                self,
            ).forward_width(),
    ;

    /// Number of scalars per cell moved by reverse exchange.
    fn reverse_size(&self) -> (r: usize)
        requires
            self.fits(),
        ensures
            r == self.reverse_width(),
    ;

    /// Append ghost cell `c`'s reverse contribution to `buf`.
    fn pack_reverse(&self, c: usize, buf: &mut Vec<S>)
        requires
            self.even(),
            c < self.cells().len() || self.reverse_width() == 0,
        ensures
            final(buf)@ == old(buf)@ + (if self.reverse_width() == 0 {
                Seq::empty()
            } else {
                Self::reverse_of(self.cells()[c as int])
            }),
            c < self.cells().len() ==> Self::reverse_of(self.cells()[c as int]).len()
                == self.reverse_width(),
    ;

    /// Add the front of `buf` into owner cell `c`'s reverse fields; return the
    /// number of scalars consumed.
    fn unpack_reverse_add(&mut self, c: usize, buf: &[S]) -> (r: usize)
        requires
            old(self).fits(),
            old(self).even(),
            c < old(self).cells().len() || old(self).reverse_width() == 0,
            buf@.len() >= old(self).reverse_width(),
        ensures
            r == old(self).reverse_width(),
            final(self).even(),
            final(self).cells() == (if old(self).reverse_width() == 0 {
                old(self).cells()
            } else {
                old(self).cells().update(
                    c as int,
                    Self::with_added(
                        old(self).cells()[c as int],
                        buf@.take(old(self).reverse_width() as int),
                    ),
                )
            }),
            final(self).blank() == old(self).blank(),
            final(self).forward_width() == old(self).forward_width(),
            final(self).reverse_width() == old(self).reverse_width(),
            final(self).fits() == old(self).fits(),
            final(self).accumulates() == old(self).accumulates(),
            c < old(self).cells().len() ==> Self::reverse_of(old(self).cells()[c as int]).len() == old(
                self,
            ).reverse_width(),
    ;

    /// Reset cell `c`'s accumulator columns to zero.
    fn zero_cell(&mut self, c: usize)
        requires
            old(self).even(),
            c < old(self).cells().len() || !old(self).accumulates(),
        ensures
            final(self).even(),
            final(self).cells() == (if old(self).accumulates() {
                old(self).cells().update(c as int, Self::zeroed(old(self).cells()[c as int]))
            } else {
                old(self).cells()
            }),
            final(self).blank() == old(self).blank(),
            final(self).forward_width() == old(self).forward_width(),
            final(self).reverse_width() == old(self).reverse_width(),
            final(self).fits() == old(self).fits(),
            final(self).accumulates() == old(self).accumulates(),
            c < old(self).cells().len() && !old(self).accumulates() ==> Self::zeroed(
                old(self).cells()[c as int],
            ) == old(self).cells()[c as int],
    ;

    /// Apply [`FieldData::zero_cell`] over `0..n`.
    fn zero(&mut self, n: usize)
        requires
            old(self).even(),
            n <= old(self).cells().len() || !old(self).accumulates(),
        ensures
            final(self).even(),
            final(self).cells() == (if old(self).accumulates() {
                Seq::new(
                    old(self).cells().len(),
                    |i: int|
                        if i < n {
                            Self::zeroed(old(self).cells()[i])
                        } else {
                            old(self).cells()[i]
                        },
                )
            } else {
                old(self).cells()
            }),
            final(self).blank() == old(self).blank(),
            final(self).forward_width() == old(self).forward_width(),
            final(self).reverse_width() == old(self).reverse_width(),
            final(self).fits() == old(self).fits(),
            final(self).accumulates() == old(self).accumulates(),
    {
        let mut c: usize = 0;
        while c < n
            invariant
                c <= n,
                n <= old(self).cells().len() || !old(self).accumulates(),
                self.even(),
                self.cells().len() == old(self).cells().len(),
                !old(self).accumulates() ==> self.cells() == old(self).cells(),
                old(self).accumulates() ==> forall|i: int|
                    0 <= i < c ==> #[trigger] self.cells()[i] == Self::zeroed(
                        old(self).cells()[i],
                    ),
                old(self).accumulates() ==> forall|i: int|
                    c <= i < old(self).cells().len() ==> #[trigger] self.cells()[i] == old(
                        self,
                    ).cells()[i],
                self.blank() == old(self).blank(),
                self.forward_width() == old(self).forward_width(),
                self.reverse_width() == old(self).reverse_width(),
                self.fits() == old(self).fits(),
                self.accumulates() == old(self).accumulates(),
            decreases n - c,
        {
            self.zero_cell(c);
            c = c + 1;
        }
        proof {
            if old(self).accumulates() {
                assert(self.cells() =~= Seq::new(
                    old(self).cells().len(),
                    |i: int|
                        if i < n {
                            Self::zeroed(old(self).cells()[i])
                        } else {
                            old(self).cells()[i]
                        },
                ));
            }
        }
    }
}

} // verus!
