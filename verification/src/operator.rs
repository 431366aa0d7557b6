//! [`Vector`] and [`LinearOperator`] - the matrix-free algebra a Krylov solver is
//! written against - and [`CellVector`], the vector that carries one unknown per
//! mesh cell.
//!
//! A [`CellVector`] lies in the mesh's full, ghost-inclusive layout and is a
//! [`FieldData`] store, so a matrix-free operator can halo-exchange it before it
//! reads across a rank boundary. Its reductions run over owned cells only, so that
//! the partial results of all ranks add up to the global one.

use crate::field_data::FieldData;
use crate::field_data::resized;
use crate::mesh::FvMesh;
use crate::mesh::count_set;
use crate::scalar::Scalar;
use crate::scalar::is_ring;
use crate::scalar::plus_associates;
use crate::scalar::plus_commutes;
use crate::scalar::plus_zero;
use crate::scalar::sum_of;
use crate::scalar::sum_of_push;
use crate::scalar::times_associates;
use crate::scalar::times_commutes;
use crate::scalar::times_distributes;
use crate::scalar::times_zero;
use crate::sums::one_term_remains;
use crate::sums::sum_of_entries;
use crate::sums::sum_over;
use crate::sums::sums_agree;
use crate::sums::sums_swap;
use vstd::prelude::*;

verus! {

/// The products of the entries of `a` and `b` at the positions `at`.
pub open spec fn products<S: Scalar>(a: Seq<S>, b: Seq<S>, at: Seq<usize>) -> Seq<S> {
    Seq::new(at.len(), |k: int| a[at[k] as int].times_spec(b[at[k] as int]))
}

/// The inner product of `a` and `b` over the positions `at`, from the left.
pub open spec fn dot_over<S: Scalar>(a: Seq<S>, b: Seq<S>, at: Seq<usize>) -> S {
    sum_of(products(a, b, at))
}

/// Every position lies within a list of length `n`.
pub open spec fn all_below(at: Seq<usize>, n: nat) -> bool {
    forall|k: int| 0 <= k < at.len() ==> (#[trigger] at[k]) < n
}

/// `y + alpha * x`, entry by entry.
pub open spec fn combined<S: Scalar>(y: Seq<S>, alpha: S, x: Seq<S>) -> Seq<S> {
    Seq::new(y.len(), |i: int| y[i].plus_spec(alpha.times_spec(x[i])))
}

/// `alpha * y`, entry by entry.
pub open spec fn scaled<S: Scalar>(y: Seq<S>, alpha: S) -> Seq<S> {
    Seq::new(y.len(), |i: int| y[i].times_spec(alpha))
}

/// The vector operations a Krylov iteration uses.
///
/// Reductions are the local contribution, over owned unknowns; a parallel solver
/// sums them across ranks. Two vectors combined with each other share a layout.
pub trait Vector<S: Scalar>: Sized {
    /// All entries.
    closed spec fn entries(&self) -> Seq<S> {
        arbitrary()
    }

    /// The positions of the owned unknowns.
    closed spec fn reduction_set(&self) -> Seq<usize> {
        arbitrary()
    }

    /// Local inner product over owned unknowns.
    fn dot(&self, other: &Self) -> (r: S)
        requires
            all_below(self.reduction_set(), self.entries().len()),
            self.entries().len() == other.entries().len(),
        ensures
            r == dot_over(self.entries(), other.entries(), self.reduction_set()),
    ;

    /// Local Euclidean norm over owned unknowns.
    fn norm(&self) -> (r: S)
        requires
            all_below(self.reduction_set(), self.entries().len()),
        ensures
            r == dot_over(self.entries(), self.entries(), self.reduction_set()).root_spec(),
    {
        self.dot(self).root()
    }

    /// `self + alpha * x`, in place.
    fn axpy(&mut self, alpha: S, x: &Self)
        requires
            old(self).entries().len() == x.entries().len(),
        ensures
            final(self).entries() == combined(old(self).entries(), alpha, x.entries()),
            final(self).reduction_set() == old(self).reduction_set(),
    ;

    /// `alpha * self`, in place.
    fn scale(&mut self, alpha: S)
        ensures
            final(self).entries() == scaled(old(self).entries(), alpha),
            final(self).reduction_set() == old(self).reduction_set(),
    ;

    /// Copy the contents of `x`.
    fn copy_from(&mut self, x: &Self)
        requires
            old(self).entries().len() == x.entries().len(),
        ensures
            final(self).entries() == x.entries(),
            final(self).reduction_set() == old(self).reduction_set(),
    ;

    /// Set every entry to `value`.
    fn fill(&mut self, value: S)
        ensures
            final(self).entries() == Seq::new(old(self).entries().len(), |i: int| value),
            final(self).reduction_set() == old(self).reduction_set(),
    ;
}

/// A matrix-free linear operator: given `x`, produce its image without assembling
/// a matrix.
pub trait LinearOperator {
    /// The vector type this operator maps between.
    type Vector;

    /// The operator can be applied to `x` into `y`.
    closed spec fn accepts(&self, x: Self::Vector, y: Self::Vector) -> bool {
        arbitrary()
    }

    /// What the operator makes of `x`, written over `y`.
    closed spec fn image(&self, x: Self::Vector, y: Self::Vector) -> Self::Vector {
        arbitrary()
    }

    /// Write the image of `x` into `y`.
    fn apply(&self, x: &Self::Vector, y: &mut Self::Vector)
        requires
            self.accepts(*x, *old(y)),
        ensures
            *final(y) == self.image(*x, *old(y)),
    ;
}

/// The positions of the marks that are set, ascending.
pub open spec fn set_positions(mask: Seq<bool>) -> Seq<usize>
    decreases mask.len(),
{
    if mask.len() == 0 {
        Seq::empty()
    } else if mask.last() {
        set_positions(mask.drop_last()).push((mask.len() - 1) as usize)
    } else {
        set_positions(mask.drop_last())
    }
}

/// A vector of one unknown per mesh cell.
pub struct CellVector<S> {
    values: Vec<S>,
    owned: Vec<usize>,
}

impl<S: Scalar> CellVector<S> {
    /// One entry per cell, indexed as the mesh indexes.
    pub closed spec fn cell_values(&self) -> Seq<S> {
        self.values@
    }

    /// Flat indices of the owned cells.
    pub closed spec fn owned_cells(&self) -> Seq<usize> {
        self.owned@
    }

    /// A zeroed vector shaped to `mesh`, with its owned cells as reduction set.
    pub fn from_mesh<M: FvMesh<S>>(mesh: &M) -> (r: Self)
        requires
            mesh.valid(),
        ensures
            r.cell_values() == Seq::new(mesh.owned().len(), |c: int| S::zero_spec()),
            r.owned_cells() == set_positions(mesh.owned()),
            all_below(r.owned_cells(), r.cell_values().len()),
    {
        let n: usize = mesh.n_cells_total();
        let mut values: Vec<S> = Vec::new();
        let mut owned: Vec<usize> = Vec::new();
        let mut c: usize = 0;
        while c < n
            invariant
                mesh.valid(),
                n == mesh.owned().len(),
                c <= n,
                values@ == Seq::new(c as nat, |i: int| S::zero_spec()),
                owned@ == set_positions(mesh.owned().take(c as int)),
            decreases n - c,
        {
            assert(mesh.owned().take(c + 1).drop_last() =~= mesh.owned().take(c as int));
            if mesh.is_local_cell(c) {
                owned.push(c);
            }
            values.push(S::zero());
            c = c + 1;
            assert(values@ =~= Seq::new(c as nat, |i: int| S::zero_spec()));
        }
        proof {
            assert(mesh.owned().take(c as int) =~= mesh.owned());
            assert forall|k: int| 0 <= k < owned@.len() implies (#[trigger] owned@[k])
                < values@.len() by {
                position_is_set(mesh.owned(), k);
            }
        }
        CellVector { values, owned }
    }

    /// A zeroed vector with the shape and the owned cells of another.
    pub fn zeros_like(other: &CellVector<S>) -> (r: Self)
        ensures
            r.cell_values() == Seq::new(other.cell_values().len(), |c: int| S::zero_spec()),
            r.owned_cells() == other.owned_cells(),
    {
        let mut values: Vec<S> = Vec::new();
        while values.len() < other.values.len()
            invariant
                values@.len() <= other.values@.len(),
                values@ == Seq::new(values@.len(), |i: int| S::zero_spec()),
            decreases other.values@.len() - values@.len(),
        {
            values.push(S::zero());
            assert(values@ =~= Seq::new(values@.len(), |i: int| S::zero_spec()));
        }
        let mut owned: Vec<usize> = Vec::new();
        let mut k: usize = 0;
        while k < other.owned.len()
            invariant
                k <= other.owned@.len(),
                owned@ == other.owned@.take(k as int),
            decreases other.owned@.len() - k,
        {
            owned.push(other.owned[k]);
            k = k + 1;
            assert(owned@ =~= other.owned@.take(k as int));
        }
        assert(owned@ =~= other.owned@);
        CellVector { values, owned }
    }

    /// Number of cells stored (interior and ghost).
    pub fn n_total(&self) -> (r: usize)
        ensures
            r == self.cell_values().len(),
    {
        self.values.len()
    }

    /// Number of owned unknowns the reductions run over.
    pub fn n_owned(&self) -> (r: usize)
        ensures
            r == self.owned_cells().len(),
    {
        self.owned.len()
    }

    /// Read cell `c`.
    pub fn get(&self, c: usize) -> (r: S)
        requires
            c < self.cell_values().len(),
        ensures
            r == self.cell_values()[c as int],
    {
        self.values[c]
    }

    /// Write cell `c`.
    pub fn set(&mut self, c: usize, v: S)
        requires
            c < old(self).cell_values().len(),
        ensures
            final(self).cell_values() == old(self).cell_values().update(c as int, v),
            final(self).owned_cells() == old(self).owned_cells(),
    {
        self.values[c] = v;
    }

    /// All entries, for an operator's stencil loop.
    pub fn as_slice(&self) -> (r: &[S])
        ensures
            r@ == self.cell_values(),
    {
        self.values.as_slice()
    }

    /// All entries, for writing.
    pub fn as_mut_slice(&mut self) -> (r: &mut [S])
        ensures
            r@ == old(self).cell_values(),
            final(self).cell_values() == final(r)@,
            final(self).owned_cells() == old(self).owned_cells(),
    {
        self.values.as_mut_slice()
    }

    /// The owned cells.
    pub fn owned(&self) -> (r: &[usize])
        ensures
            r@ == self.owned_cells(),
    {
        self.owned.as_slice()
    }
}

impl<S: Scalar> Vector<S> for CellVector<S> {
    open spec fn entries(&self) -> Seq<S> {
        self.cell_values()
    }

    open spec fn reduction_set(&self) -> Seq<usize> {
        self.owned_cells()
    }

    fn dot(&self, other: &Self) -> (r: S) {
        let ghost all: Seq<S> = products(self.values@, other.values@, self.owned@);
        let mut sum: S = S::zero();
        let mut k: usize = 0;
        while k < self.owned.len()
            invariant
                all_below(self.owned@, self.values@.len()),
                self.values@.len() == other.values@.len(),
                all == products(self.values@, other.values@, self.owned@),
                k <= self.owned@.len(),
                sum == sum_of(all.take(k as int)),
            decreases self.owned@.len() - k,
        {
            let c: usize = self.owned[k];
            sum = sum.plus(self.values[c].times(other.values[c]));
            proof {
                sum_of_push(all.take(k as int), all[k as int]);
                assert(all.take(k + 1) =~= all.take(k as int).push(all[k as int]));
            }
            k = k + 1;
        }
        assert(all.take(k as int) =~= all);
        sum
    }

    fn axpy(&mut self, alpha: S, x: &Self) {
        let ghost before: Seq<S> = self.values@;
        let mut i: usize = 0;
        while i < self.values.len()
            invariant
                i <= self.values@.len(),
                self.values@.len() == before.len() == x.values@.len(),
                self.owned == old(self).owned,
                forall|j: int|
                    0 <= j < i ==> #[trigger] self.values@[j] == before[j].plus_spec(
                        alpha.times_spec(x.values@[j]),
                    ),
                forall|j: int| i <= j < before.len() ==> #[trigger] self.values@[j] == before[j],
            decreases before.len() - i,
        {
            let y: S = self.values[i].plus(alpha.times(x.values[i]));
            self.values[i] = y;
            i = i + 1;
        }
        assert(self.values@ =~= combined(before, alpha, x.values@));
    }

    fn scale(&mut self, alpha: S) {
        let ghost before: Seq<S> = self.values@;
        let mut i: usize = 0;
        while i < self.values.len()
            invariant
                i <= self.values@.len(),
                self.values@.len() == before.len(),
                self.owned == old(self).owned,
                forall|j: int|
                    0 <= j < i ==> #[trigger] self.values@[j] == before[j].times_spec(alpha),
                forall|j: int| i <= j < before.len() ==> #[trigger] self.values@[j] == before[j],
            decreases before.len() - i,
        {
            let y: S = self.values[i].times(alpha);
            self.values[i] = y;
            i = i + 1;
        }
        assert(self.values@ =~= scaled(before, alpha));
    }

    fn copy_from(&mut self, x: &Self) {
        let ghost before: Seq<S> = self.values@;
        let mut i: usize = 0;
        while i < self.values.len()
            invariant
                i <= self.values@.len(),
                self.values@.len() == before.len() == x.values@.len(),
                self.owned == old(self).owned,
                forall|j: int| 0 <= j < i ==> #[trigger] self.values@[j] == x.values@[j],
            decreases before.len() - i,
        {
            self.values[i] = x.values[i];
            i = i + 1;
        }
        assert(self.values@ =~= x.values@);
    }

    fn fill(&mut self, value: S) {
        let ghost before: Seq<S> = self.values@;
        let mut i: usize = 0;
        while i < self.values.len()
            invariant
                i <= self.values@.len(),
                self.values@.len() == before.len(),
                self.owned == old(self).owned,
                forall|j: int| 0 <= j < i ==> #[trigger] self.values@[j] == value,
            decreases before.len() - i,
        {
            self.values[i] = value;
            i = i + 1;
        }
        assert(self.values@ =~= Seq::new(before.len(), |i: int| value));
    }
}

/// A cell vector rides the halo like any field: one forward column, owner to
/// ghost. It has no reverse columns and no accumulators.
impl<S: Scalar> FieldData<S> for CellVector<S> {
    type Cell = S;

    open spec fn even(&self) -> bool {
        true
    }

    open spec fn cells(&self) -> Seq<S> {
        self.cell_values()
    }

    open spec fn blank(&self) -> S {
        S::zero_spec()
    }

    open spec fn forward_width(&self) -> nat {
        1
    }

    open spec fn reverse_width(&self) -> nat {
        0
    }

    open spec fn fits(&self) -> bool {
        true
    }

    open spec fn accumulates(&self) -> bool {
        false
    }

    open spec fn forward_of(cell: S) -> Seq<S> {
        seq![cell]
    }

    open spec fn with_forward(cell: S, buf: Seq<S>) -> S {
        buf[0]
    }

    open spec fn reverse_of(cell: S) -> Seq<S> {
        Seq::empty()
    }

    open spec fn with_added(cell: S, buf: Seq<S>) -> S {
        cell
    }

    open spec fn zeroed(cell: S) -> S {
        cell
    }

    fn len(&self) -> (r: usize) {
        self.values.len()
    }

    fn resize(&mut self, n: usize) {
        let ghost before: Seq<S> = self.values@;
        if n < self.values.len() {
            self.values.truncate(n);
        }
        while self.values.len() < n
            invariant
                self.values@.len() <= n,
                before.len() <= self.values@.len() || self.values@.len() == n,
                self.values@ == resized(before, self.values@.len(), S::zero_spec()),
            decreases n - self.values@.len(),
        {
            self.values.push(S::zero());
            assert(self.values@ =~= resized(before, self.values@.len(), S::zero_spec()));
        }
    }

    fn forward_size(&self) -> (r: usize) {
        1
    }

    fn pack_forward(&self, c: usize, buf: &mut Vec<S>) {
        buf.push(self.values[c]);
        assert(buf@ =~= old(buf)@ + seq![self.values@[c as int]]);
    }

    fn unpack_forward(&mut self, c: usize, buf: &[S]) -> (r: usize) {
        self.values[c] = buf[0];
        1
    }

    fn reverse_size(&self) -> (r: usize) {
        0
    }

    fn pack_reverse(&self, c: usize, buf: &mut Vec<S>) {
        assert(buf@ =~= old(buf)@ + Seq::empty());
    }

    fn unpack_reverse_add(&mut self, c: usize, buf: &[S]) -> (r: usize) {
        0
    }

    fn zero_cell(&mut self, c: usize) {
    }
}

/// Position `k` is that of a mark that is set.
pub proof fn position_is_set(mask: Seq<bool>, k: int)
    requires
        mask.len() <= usize::MAX,
        0 <= k < set_positions(mask).len(),
    ensures
        set_positions(mask)[k] < mask.len(),
        mask[set_positions(mask)[k] as int],
    decreases mask.len(),
{
    if k < set_positions(mask.drop_last()).len() {
        position_is_set(mask.drop_last(), k);
    }
}

/// The reduction set of a mesh is as large as the number of its local cells.
pub proof fn positions_are_counted(mask: Seq<bool>)
    ensures
        set_positions(mask).len() == count_set(mask),
    decreases mask.len(),
{
    if mask.len() > 0 {
        positions_are_counted(mask.drop_last());
    }
}

/// Reductions run over owned cells only: entries elsewhere do not enter them.
pub proof fn dot_ignores_ghosts<S: Scalar>(
    mask: Seq<bool>,
    a: Seq<S>,
    b: Seq<S>,
    c: int,
    x: S,
)
    requires
        mask.len() <= usize::MAX,
        a.len() == mask.len(),
        b.len() == mask.len(),
        0 <= c < mask.len(),
        !mask[c],
    ensures
        dot_over(a.update(c, x), b, set_positions(mask)) == dot_over(a, b, set_positions(mask)),
        dot_over(a, b.update(c, x), set_positions(mask)) == dot_over(a, b, set_positions(mask)),
{
    let at: Seq<usize> = set_positions(mask);
    assert forall|k: int| 0 <= k < at.len() implies (#[trigger] at[k]) != c && at[k]
        < mask.len() by {
        position_is_set(mask, k);
    }
    assert(products(a.update(c, x), b, at) =~= products(a, b, at));
    assert(products(a, b.update(c, x), at) =~= products(a, b, at));
}

/// In a ring the inner product does not depend on the order of its factors.
pub proof fn dot_commutes<S: Scalar>(a: Seq<S>, b: Seq<S>, at: Seq<usize>)
    requires
        is_ring::<S>(),
    ensures
        dot_over(a, b, at) == dot_over(b, a, at),
{
    assert forall|k: int| 0 <= k < at.len() implies #[trigger] products(a, b, at)[k] == products(
        b,
        a,
        at,
    )[k] by {
        times_commutes(a[at[k] as int], b[at[k] as int]);
    }
    assert(products(a, b, at) =~= products(b, a, at));
}

/// The sum of a list that is a combination of two others.
proof fn sum_of_combined<S: Scalar>(y: Seq<S>, alpha: S, x: Seq<S>)
    requires
        is_ring::<S>(),
        y.len() == x.len(),
    ensures
        sum_of(combined(y, alpha, x)) == sum_of(y).plus_spec(alpha.times_spec(sum_of(x))),
    decreases y.len(),
{
    let z: S = S::zero_spec();
    if y.len() == 0 {
        times_zero(alpha);
        plus_zero(z);
    } else {
        let (u, v): (Seq<S>, Seq<S>) = (y.drop_last(), x.drop_last());
        sum_of_combined(u, alpha, v);
        assert(combined(y, alpha, x).drop_last() =~= combined(u, alpha, v));
        let (a, b): (S, S) = (sum_of(u), alpha.times_spec(sum_of(v)));
        let (c, d): (S, S) = (y.last(), alpha.times_spec(x.last()));
        times_distributes(alpha, sum_of(v), x.last());
        // (a + b) + (c + d) is (a + c) + (b + d).
        plus_associates(a, b, c.plus_spec(d));
        plus_associates(b, c, d);
        plus_commutes(b, c);
        plus_associates(c, b, d);
        plus_associates(a, c, b.plus_spec(d));
    }
}

/// The inner product is linear: with `y + alpha * x` it is that with `y` and `alpha`
/// times that with `x`.
pub proof fn dot_is_linear<S: Scalar>(
    y: Seq<S>,
    alpha: S,
    x: Seq<S>,
    z: Seq<S>,
    at: Seq<usize>,
)
    requires
        is_ring::<S>(),
        x.len() == y.len(),
        all_below(at, y.len()),
    ensures
        dot_over(combined(y, alpha, x), z, at) == dot_over(y, z, at).plus_spec(
            alpha.times_spec(dot_over(x, z, at)),
        ),
{
    let all: Seq<S> = products(combined(y, alpha, x), z, at);
    assert forall|k: int| 0 <= k < at.len() implies #[trigger] all[k] == combined(
        products(y, z, at),
        alpha,
        products(x, z, at),
    )[k] by {
        let c: int = at[k] as int;
        assert(at[k] < y.len());
        times_distributes(z[c], y[c], alpha.times_spec(x[c]));
        times_associates(alpha, x[c], z[c]);
    }
    assert(all =~= combined(products(y, z, at), alpha, products(x, z, at)));
    sum_of_combined(products(y, z, at), alpha, products(x, z, at));
}

/// The inner product with `alpha * y` is `alpha` times that with `y`.
pub proof fn dot_scales<S: Scalar>(y: Seq<S>, alpha: S, z: Seq<S>, at: Seq<usize>)
    requires
        is_ring::<S>(),
        all_below(at, y.len()),
    ensures
        dot_over(scaled(y, alpha), z, at) == alpha.times_spec(dot_over(y, z, at)),
{
    let nothing: Seq<S> = Seq::new(y.len(), |i: int| S::zero_spec());
    assert(scaled(y, alpha) =~= combined(nothing, alpha, y)) by {
        assert forall|i: int| 0 <= i < y.len() implies #[trigger] scaled(y, alpha)[i] == combined(
            nothing,
            alpha,
            y,
        )[i] by {
            times_commutes(alpha, y[i]);
            plus_zero(alpha.times_spec(y[i]));
        }
    }
    dot_is_linear(nothing, alpha, y, z, at);
    let zeros: Seq<S> = products(nothing, z, at);
    assert forall|k: int| 0 <= k < at.len() implies #[trigger] zeros[k] == S::zero_spec() by {
        assert(at[k] < y.len());
        times_zero(z[at[k] as int]);
    }
    sum_of_zeros(zeros);
    plus_zero(alpha.times_spec(dot_over(y, z, at)));
}

/// A list of zeros adds up to zero.
proof fn sum_of_zeros<S: Scalar>(s: Seq<S>)
    requires
        is_ring::<S>(),
        forall|k: int| 0 <= k < s.len() ==> #[trigger] s[k] == S::zero_spec(),
    ensures
        sum_of(s) == S::zero_spec(),
    decreases s.len(),
{
    if s.len() > 0 {
        sum_of_zeros(s.drop_last());
        plus_zero(S::zero_spec());
    }
}

/// The marks of the cells that rank `r` owns.
pub open spec fn owned_by(owner: Seq<int>, r: int) -> Seq<bool> {
    owner.map_values(|o: int| o == r)
}

/// The inner product over the set marks is the sum of the products at all cells
/// whose mark is set.
proof fn dot_over_mask<S: Scalar>(a: Seq<S>, b: Seq<S>, mask: Seq<bool>)
    requires
        is_ring::<S>(),
        mask.len() <= usize::MAX,
    ensures
        dot_over(a, b, set_positions(mask)) == sum_over(
            mask.len() as int,
            |c: int|
                if mask[c] {
                    a[c].times_spec(b[c])
                } else {
                    S::zero_spec()
                },
        ),
    decreases mask.len(),
{
    let at: Seq<usize> = set_positions(mask);
    let f = |c: int|
        if mask[c] {
            a[c].times_spec(b[c])
        } else {
            S::zero_spec()
        };
    if mask.len() > 0 {
        let rest: Seq<bool> = mask.drop_last();
        let n: int = mask.len() - 1;
        dot_over_mask(a, b, rest);
        let g = |c: int|
            if rest[c] {
                a[c].times_spec(b[c])
            } else {
                S::zero_spec()
            };
        sums_agree(n, f, g);
        if mask.last() {
            let before: Seq<S> = products(a, b, set_positions(rest));
            sum_of_push(before, a[n].times_spec(b[n]));
            assert(products(a, b, at) =~= before.push(a[n].times_spec(b[n])));
        } else {
            plus_zero(sum_over(n, f));
        }
    }
}

/// Where every cell has one owner among `size` ranks, the ranks' partial inner
/// products add up to the one over all cells.
pub proof fn partial_dots_add_up<S: Scalar>(a: Seq<S>, b: Seq<S>, owner: Seq<int>, size: int)
    requires
        is_ring::<S>(),
        owner.len() <= usize::MAX,
        a.len() == owner.len(),
        b.len() == owner.len(),
        forall|c: int| 0 <= c < owner.len() ==> 0 <= #[trigger] owner[c] < size,
    ensures
        sum_over(size, |r: int| dot_over(a, b, set_positions(owned_by(owner, r)))) == sum_of(
            Seq::new(owner.len(), |c: int| a[c].times_spec(b[c])),
        ),
{
    let n: int = owner.len() as int;
    let term = |r: int, c: int|
        if owner[c] == r {
            a[c].times_spec(b[c])
        } else {
            S::zero_spec()
        };
    let partial = |r: int| dot_over(a, b, set_positions(owned_by(owner, r)));
    let spread = |r: int| sum_over(n, |c: int| term(r, c));
    assert forall|r: int| 0 <= r < size implies #[trigger] partial(r) == spread(r) by {
        let mask: Seq<bool> = owned_by(owner, r);
        dot_over_mask(a, b, mask);
        sums_agree(
            n,
            |c: int|
                if mask[c] {
                    a[c].times_spec(b[c])
                } else {
                    S::zero_spec()
                },
            |c: int| term(r, c),
        );
    }
    sums_agree(size, partial, spread);
    sums_swap(size, n, term);
    let column = |c: int| sum_over(size, |r: int| term(r, c));
    let whole = |c: int| a[c].times_spec(b[c]);
    assert forall|c: int| 0 <= c < n implies #[trigger] column(c) == whole(c) by {
        one_term_remains(size, |r: int| term(r, c), owner[c]);
    }
    sums_agree(n, column, whole);
    sum_of_entries(owner.len(), whole);
}

} // verus!
