//! The particle-to-mesh transfer primitive: conservative scatter (particle to
//! cell) and consistent gather (cell to particle).
//!
//! The particle side is plain slices, positions and a column of values. The mesh
//! side is a [`TransferMesh`]: cell count, cell volume, and a shape-function
//! stencil for a point. Both directions use one shape function, cloud-in-cell: the
//! trilinear kernel over the eight cells around a point. Its weights add up to
//! one, so a scatter conserves what it deposits and a gather reproduces a constant
//! field.

use crate::index::first_of;
use crate::index::second_of;
use crate::index::third_of;
use crate::mesh::Bracket;
use crate::mesh::FvMesh;
use crate::mesh::StructuredMesh;
use crate::mesh::Vec3;
use crate::scalar::Scalar;
use crate::scalar::sum_of;
use crate::scalar::sum_of_push;
use vstd::prelude::*;

verus! {

/// Number of cells one particle couples to under the cloud-in-cell stencil.
pub const CIC_STENCIL: usize = 8;

/// One cell of a stencil and the weight on it.
pub ghost struct Term<S> {
    /// The cell.
    pub cell: int,
    /// Its weight.
    pub weight: S,
}

/// A particle's shape-function stencil: the cells it couples to and the weight on
/// each. It has room for [`CIC_STENCIL`] terms, so that no allocation happens per
/// particle.
#[derive(Clone, Copy, Debug)]
pub struct Stencil<S> {
    cells: [usize; 8],
    weights: [S; 8],
    len: usize,
}

impl<S: Scalar> Stencil<S> {
    /// No more terms than there is room for.
    pub closed spec fn valid(&self) -> bool {
        self.len <= 8
    }

    /// The terms, in order.
    pub closed spec fn terms(&self) -> Seq<Term<S>> {
        Seq::new(
            self.len as nat,
            |i: int| Term { cell: self.cells[i] as int, weight: self.weights[i] },
        )
    }

    /// An empty stencil, for mesh implementations that build incrementally.
    pub fn new() -> (r: Self)
        ensures
            r.valid(),
            r.terms() == Seq::<Term<S>>::empty(),
    {
        let r: Stencil<S> = Stencil { cells: [0; 8], weights: [S::zero(); 8], len: 0 };
        assert(r.terms() =~= Seq::<Term<S>>::empty());
        r
    }

    /// Append one `(cell, weight)` term. A stencil never exceeds eight terms.
    pub fn push(&mut self, cell: usize, weight: S)
        requires
            old(self).valid(),
            old(self).terms().len() < CIC_STENCIL,
        ensures
            final(self).valid(),
            final(self).terms() == old(self).terms().push(
                (Term { cell: cell as int, weight }),
            ),
    {
        self.cells[self.len] = cell;
        self.weights[self.len] = weight;
        self.len = self.len + 1;
        assert(self.terms() =~= old(self).terms().push(Term { cell: cell as int, weight }));
    }

    /// Number of `(cell, weight)` terms in this stencil.
    pub fn len(&self) -> (r: usize)
        requires
            self.valid(),
        ensures
            r == self.terms().len(),
            r <= CIC_STENCIL,
    {
        self.len
    }

    /// Whether the stencil has no terms.
    pub fn is_empty(&self) -> (r: bool)
        requires
            self.valid(),
        ensures
            r == (self.terms().len() == 0),
    {
        self.len == 0
    }

    /// Term number `i`.
    pub fn term(&self, i: usize) -> (r: (usize, S))
        requires
            self.valid(),
            i < self.terms().len(),
        ensures
            r.0 == self.terms()[i as int].cell,
            r.1 == self.terms()[i as int].weight,
    {
        (self.cells[i], self.weights[i])
    }

    /// The `(cell, weight)` terms, in order.
    pub fn iter(&self) -> (r: Vec<(usize, S)>)
        requires
            self.valid(),
        ensures
            r@.len() == self.terms().len(),
            forall|i: int|
                0 <= i < r@.len() ==> (#[trigger] r@[i]).0 == self.terms()[i].cell && r@[i].1
                    == self.terms()[i].weight,
    {
        let mut r: Vec<(usize, S)> = Vec::new();
        let mut i: usize = 0;
        while i < self.len
            invariant
                self.valid(),
                i <= self.len,
                r@.len() == i,
                forall|j: int|
                    0 <= j < i ==> (#[trigger] r@[j]).0 == self.terms()[j].cell && r@[j].1
                        == self.terms()[j].weight,
            decreases self.len - i,
        {
            r.push(self.term(i));
            i = i + 1;
        }
        r
    }

    /// Sum of the weights, from the left.
    pub fn weight_sum(&self) -> (r: S)
        requires
            self.valid(),
        ensures
            r == sum_of(weights_of(self.terms())),
    {
        let ghost all: Seq<S> = weights_of(self.terms());
        let mut sum: S = S::zero();
        let mut i: usize = 0;
        while i < self.len
            invariant
                self.valid(),
                all == weights_of(self.terms()),
                i <= self.len,
                sum == sum_of(all.take(i as int)),
            decreases self.len - i,
        {
            sum = sum.plus(self.weights[i]);
            proof {
                sum_of_push(all.take(i as int), all[i as int]);
                assert(all.take(i + 1) =~= all.take(i as int).push(all[i as int]));
            }
            i = i + 1;
        }
        assert(all.take(i as int) =~= all);
        sum
    }
}

impl<S: Scalar> Default for Stencil<S> {
    fn default() -> (r: Self)
        ensures
            r.valid(),
            r.terms() == Seq::<Term<S>>::empty(),
    {
        Stencil::new()
    }
}

/// The weights of a list of terms.
pub open spec fn weights_of<S: Scalar>(terms: Seq<Term<S>>) -> Seq<S> {
    terms.map_values(|t: Term<S>| t.weight)
}

/// The mesh capability the transfer operators need, and nothing more.
pub trait TransferMesh<S: Scalar> {
    /// The mesh is well formed.
    closed spec fn can_transfer(&self) -> bool {
        arbitrary()
    }

    /// Number of cells.
    closed spec fn cell_total(&self) -> nat {
        arbitrary()
    }

    /// Control volume of cell `c`.
    closed spec fn volume_in(&self, c: int) -> S {
        arbitrary()
    }

    /// The terms of the stencil for a point, if it lies within the mesh.
    closed spec fn stencil_at(&self, point: Vec3<S>) -> Option<Seq<Term<S>>> {
        arbitrary()
    }

    /// Number of cells the field arrays are indexed by.
    fn n_cells(&self) -> (r: usize)
        requires
            self.can_transfer(),
        ensures
            r == self.cell_total(),
    ;

    /// Control volume of cell `c`, for the density deposits.
    fn cell_volume(&self, c: usize) -> (r: S)
        requires
            self.can_transfer(),
            c < self.cell_total(),
        ensures
            r == self.volume_in(c as int),
    ;

    /// The shape-function stencil for `point`, or `None` if the point lies outside
    /// the mesh's addressable extent, ghost layers included.
    fn stencil(&self, point: Vec3<S>) -> (r: Option<Stencil<S>>)
        requires
            self.can_transfer(),
        ensures
            match r {
                Some(s) => {
                    &&& s.valid()
                    &&& self.stencil_at(point) == Some(s.terms())
                    &&& forall|i: int|
                        0 <= i < s.terms().len() ==> 0 <= (#[trigger] s.terms()[i]).cell
                            < self.cell_total()
                },
                None => self.stencil_at(point) is None,
            },
    ;
}

/// The linear hat: the fraction on the far side, its complement on the near side.
pub open spec fn hat<S: Scalar>(t: S, far: int) -> S {
    if far == 1 {
        t
    } else {
        S::one_spec().minus_spec(t)
    }
}

/// Term number `q` of the cloud-in-cell stencil of a bracket.
pub open spec fn cic_term<S: Scalar, M: StructuredMesh<S>>(
    mesh: M,
    b: Bracket<S>,
    q: int,
) -> Term<S> {
    let (di, dj, dk): (int, int, int) = (first_of(q, 2, 2), second_of(q, 2, 2), third_of(q, 2));
    Term {
        cell: mesh.raw_index(b.lo[0] + di, b.lo[1] + dj, b.lo[2] + dk),
        weight: hat(b.t[0], di).times_spec(hat(b.t[1], dj)).times_spec(hat(b.t[2], dk)),
    }
}

/// The cloud-in-cell stencil of a bracket.
pub open spec fn cic_terms<S: Scalar, M: StructuredMesh<S>>(
    mesh: M,
    b: Bracket<S>,
) -> Seq<Term<S>> {
    Seq::new(8, |q: int| cic_term(mesh, b, q))
}

/// Every structured mesh is a transfer mesh: what it says about a point, the cells
/// around it and the fractions between them, is the cloud-in-cell stencil.
impl<S: Scalar, M: StructuredMesh<S>> TransferMesh<S> for M {
    open spec fn can_transfer(&self) -> bool {
        self.valid()
    }

    open spec fn cell_total(&self) -> nat {
        self.owned().len()
    }

    open spec fn volume_in(&self, c: int) -> S {
        self.volume_of(c)
    }

    open spec fn stencil_at(&self, point: Vec3<S>) -> Option<Seq<Term<S>>> {
        match self.bracket_of(point) {
            Some(b) => Some(cic_terms(*self, b)),
            None => None,
        }
    }

    fn n_cells(&self) -> (r: usize) {
        FvMesh::n_cells_total(self)
    }

    fn cell_volume(&self, c: usize) -> (r: S) {
        FvMesh::cell_volume(self, c)
    }

    fn stencil(&self, point: Vec3<S>) -> (r: Option<Stencil<S>>) {
        let (lo, t): ([usize; 3], [S; 3]) = match self.locate(point) {
            Some(found) => found,
            None => {
                return None;
            },
        };
        let ghost b: Bracket<S> = self.bracket_of(point).unwrap();
        let mut stencil: Stencil<S> = Stencil::new();
        let total: [usize; 3] = self.total_dims();
        assert(lo[0] + 1 < total[0] && lo[1] + 1 < total[1] && lo[2] + 1 < total[2]);
        let near: [S; 3] = [S::one().minus(t[0]), S::one().minus(t[1]), S::one().minus(t[2])];
        let mut q: usize = 0;
        while q < 8
            invariant
                self.valid(),
                self.bracket_of(point) == Some(b),
                forall|a: int| 0 <= a < 3 ==> #[trigger] lo[a] == b.lo[a],
                t@ == b.t,
                lo[0] + 1 < total[0],
                lo[1] + 1 < total[1],
                lo[2] + 1 < total[2],
                forall|a: int|
                    0 <= a < 3 ==> #[trigger] total[a] == self.dim(a) + 2 * self.ghosts(),
                near == [hat(t[0], 0), hat(t[1], 0), hat(t[2], 0)],
                q <= 8,
                stencil.valid(),
                stencil.terms() == cic_terms(*self, b).take(q as int),
                forall|i: int|
                    0 <= i < q ==> 0 <= (#[trigger] cic_terms(*self, b)[i]).cell
                        < self.cell_total(),
            decreases 8 - q,
        {
            let di: usize = q / 2 / 2;
            let dj: usize = q / 2 % 2;
            let dk: usize = q % 2;
            let wx: S = if di == 1 {
                t[0]
            } else {
                near[0]
            };
            let wy: S = if dj == 1 {
                t[1]
            } else {
                near[1]
            };
            let wz: S = if dk == 1 {
                t[2]
            } else {
                near[2]
            };
            proof {
                assert(lo[0] == b.lo[0] && lo[1] == b.lo[1] && lo[2] == b.lo[2]);
                assert(total[0] == self.dim(0) + 2 * self.ghosts());
                assert(total[1] == self.dim(1) + 2 * self.ghosts());
                assert(total[2] == self.dim(2) + 2 * self.ghosts());
            }
            let cell: usize = self.idx_raw(lo[0] + di, lo[1] + dj, lo[2] + dk);
            stencil.push(cell, wx.times(wy).times(wz));
            proof {
                let term: Term<S> = cic_terms(*self, b)[q as int];
                assert(term == cic_term(*self, b, q as int));
                assert(stencil.terms().last() == term);
                assert(cic_terms(*self, b).take(q + 1) =~= cic_terms(*self, b).take(
                    q as int,
                ).push(term));
            }
            q = q + 1;
        }
        assert(cic_terms(*self, b).take(8) =~= cic_terms(*self, b));
        Some(stencil)
    }
}

/// How many particles a transfer touched, split by whether they landed on the
/// mesh.
#[derive(Clone, Copy, Debug, PartialEq, Eq, Structural)]
pub struct TransferStats {
    /// Particles whose stencil was found and applied.
    pub applied: usize,
    /// Particles outside the mesh extent.
    pub skipped: usize,
}

impl Default for TransferStats {
    fn default() -> (r: Self)
        ensures
            r.applied == 0,
            r.skipped == 0,
    {
        TransferStats { applied: 0, skipped: 0 }
    }
}

/// How many of the positions lie within the mesh.
pub open spec fn located<S: Scalar, M: TransferMesh<S>>(mesh: M, positions: Seq<Vec3<S>>) -> nat
    decreases positions.len(),
{
    if positions.len() == 0 {
        0
    } else {
        located(mesh, positions.drop_last()) + (if mesh.stencil_at(positions.last()) is Some {
            1nat
        } else {
            0nat
        })
    }
}

/// The cells after the first `n` terms of a stencil took their share of `v`.
pub open spec fn deposited<S: Scalar>(cells: Seq<S>, terms: Seq<Term<S>>, v: S) -> Seq<S>
    decreases terms.len(),
{
    if terms.len() == 0 {
        cells
    } else {
        let before: Seq<S> = deposited(cells, terms.drop_last(), v);
        let term: Term<S> = terms.last();
        before.update(term.cell, before[term.cell].plus_spec(term.weight.times_spec(v)))
    }
}

/// The cells after every particle deposited its value.
pub open spec fn scattered<S: Scalar, M: TransferMesh<S>>(
    mesh: M,
    positions: Seq<Vec3<S>>,
    values: Seq<S>,
    cells: Seq<S>,
) -> Seq<S>
    decreases positions.len(),
{
    if positions.len() == 0 {
        cells
    } else {
        let before: Seq<S> = scattered(mesh, positions.drop_last(), values.drop_last(), cells);
        match mesh.stencil_at(positions.last()) {
            Some(terms) => deposited(before, terms, values.last()),
            None => before,
        }
    }
}

/// The cells after the terms of a stencil took their share of `v` per volume.
pub open spec fn deposited_density<S: Scalar, M: TransferMesh<S>>(
    mesh: M,
    cells: Seq<S>,
    terms: Seq<Term<S>>,
    v: S,
) -> Seq<S>
    decreases terms.len(),
{
    if terms.len() == 0 {
        cells
    } else {
        let before: Seq<S> = deposited_density(mesh, cells, terms.drop_last(), v);
        let term: Term<S> = terms.last();
        before.update(
            term.cell,
            before[term.cell].plus_spec(
                term.weight.times_spec(v).over_spec(mesh.volume_in(term.cell)),
            ),
        )
    }
}

/// The cells after every particle deposited its value per volume.
pub open spec fn scattered_density<S: Scalar, M: TransferMesh<S>>(
    mesh: M,
    positions: Seq<Vec3<S>>,
    values: Seq<S>,
    cells: Seq<S>,
) -> Seq<S>
    decreases positions.len(),
{
    if positions.len() == 0 {
        cells
    } else {
        let before: Seq<S> = scattered_density(
            mesh,
            positions.drop_last(),
            values.drop_last(),
            cells,
        );
        match mesh.stencil_at(positions.last()) {
            Some(terms) => deposited_density(mesh, before, terms, values.last()),
            None => before,
        }
    }
}

/// The weighted sum of the cells of a stencil, from the left.
pub open spec fn sampled<S: Scalar>(cells: Seq<S>, terms: Seq<Term<S>>) -> S
    decreases terms.len(),
{
    if terms.len() == 0 {
        S::zero_spec()
    } else {
        sampled(cells, terms.drop_last()).plus_spec(
            terms.last().weight.times_spec(cells[terms.last().cell]),
        )
    }
}

/// What is gathered at a position.
pub open spec fn gathered_at<S: Scalar, M: TransferMesh<S>>(
    mesh: M,
    point: Vec3<S>,
    cells: Seq<S>,
    fallback: S,
) -> S {
    match mesh.stencil_at(point) {
        Some(terms) => sampled(cells, terms),
        None => fallback,
    }
}

/// Scatter (particle to cell): add each particle's quantity onto the cells of its
/// stencil, `cells[c] += w(p, c) * values[p]`, in the order of the particles.
///
/// Deposit is additive and does not zero `cells` first. Particles outside the mesh
/// contribute nothing.
pub fn scatter<S: Scalar, M: TransferMesh<S>>(
    mesh: &M,
    positions: &[Vec3<S>],
    values: &[S],
    cells: &mut [S],
) -> (r: TransferStats)
    requires
        mesh.can_transfer(),
        positions@.len() == values@.len(),
        old(cells)@.len() == mesh.cell_total(),
    ensures
        final(cells)@ == scattered(*mesh, positions@, values@, old(cells)@),
        final(cells)@.len() == old(cells)@.len(),
        r.applied == located(*mesh, positions@),
        r.applied + r.skipped == positions@.len(),
{
    let ghost before: Seq<S> = cells@;
    let mut stats: TransferStats = TransferStats::default();
    let mut p: usize = 0;
    while p < positions.len()
        invariant
            mesh.can_transfer(),
            positions@.len() == values@.len(),
            cells@.len() == mesh.cell_total(),
            p <= positions@.len(),
            cells@ == scattered(
                *mesh,
                positions@.take(p as int),
                values@.take(p as int),
                before,
            ),
            stats.applied == located(*mesh, positions@.take(p as int)),
            stats.applied + stats.skipped == p,
        decreases positions@.len() - p,
    {
        assert(positions@.take(p + 1).drop_last() =~= positions@.take(p as int));
        assert(values@.take(p + 1).drop_last() =~= values@.take(p as int));
        match mesh.stencil(positions[p]) {
            Some(s) => {
                let v: S = values[p];
                let ghost start: Seq<S> = cells@;
                let n: usize = s.len();
                let mut i: usize = 0;
                while i < n
                    invariant
                        s.valid(),
                        n == s.terms().len(),
                        i <= n,
                        cells@.len() == start.len() == mesh.cell_total(),
                        cells@ == deposited(start, s.terms().take(i as int), v),
                        forall|j: int|
                            0 <= j < s.terms().len() ==> 0 <= (#[trigger] s.terms()[j]).cell
                                < mesh.cell_total(),
                    decreases n - i,
                {
                    assert(s.terms().take(i + 1).drop_last() =~= s.terms().take(i as int));
                    let (c, w): (usize, S) = s.term(i);
                    assert(s.terms()[i as int].cell < mesh.cell_total());
                    cells[c] = cells[c].plus(w.times(v));
                    i = i + 1;
                }
                assert(s.terms().take(i as int) =~= s.terms());
                stats.applied = stats.applied + 1;
            },
            None => {
                stats.skipped = stats.skipped + 1;
            },
        }
        p = p + 1;
    }
    assert(positions@.take(p as int) =~= positions@);
    assert(values@.take(p as int) =~= values@);
    stats
}

/// Scatter of a density: like [`scatter`], but the contribution to each cell is
/// divided by that cell's volume, so that `cells` carries a per-volume field.
pub fn scatter_density<S: Scalar, M: TransferMesh<S>>(
    mesh: &M,
    positions: &[Vec3<S>],
    values: &[S],
    cells: &mut [S],
) -> (r: TransferStats)
    requires
        mesh.can_transfer(),
        positions@.len() == values@.len(),
        old(cells)@.len() == mesh.cell_total(),
    ensures
        final(cells)@ == scattered_density(*mesh, positions@, values@, old(cells)@),
        final(cells)@.len() == old(cells)@.len(),
        r.applied == located(*mesh, positions@),
        r.applied + r.skipped == positions@.len(),
{
    let ghost before: Seq<S> = cells@;
    let mut stats: TransferStats = TransferStats::default();
    let mut p: usize = 0;
    while p < positions.len()
        invariant
            mesh.can_transfer(),
            positions@.len() == values@.len(),
            cells@.len() == mesh.cell_total(),
            p <= positions@.len(),
            cells@ == scattered_density(
                *mesh,
                positions@.take(p as int),
                values@.take(p as int),
                before,
            ),
            stats.applied == located(*mesh, positions@.take(p as int)),
            stats.applied + stats.skipped == p,
        decreases positions@.len() - p,
    {
        assert(positions@.take(p + 1).drop_last() =~= positions@.take(p as int));
        assert(values@.take(p + 1).drop_last() =~= values@.take(p as int));
        match mesh.stencil(positions[p]) {
            Some(s) => {
                let v: S = values[p];
                let ghost start: Seq<S> = cells@;
                let n: usize = s.len();
                let mut i: usize = 0;
                while i < n
                    invariant
                        mesh.can_transfer(),
                        s.valid(),
                        n == s.terms().len(),
                        i <= n,
                        cells@.len() == start.len() == mesh.cell_total(),
                        cells@ == deposited_density(*mesh, start, s.terms().take(i as int), v),
                        forall|j: int|
                            0 <= j < s.terms().len() ==> 0 <= (#[trigger] s.terms()[j]).cell
                                < mesh.cell_total(),
                    decreases n - i,
                {
                    assert(s.terms().take(i + 1).drop_last() =~= s.terms().take(i as int));
                    let (c, w): (usize, S) = s.term(i);
                    assert(s.terms()[i as int].cell < mesh.cell_total());
                    let volume: S = mesh.cell_volume(c);
                    cells[c] = cells[c].plus(w.times(v).over(volume));
                    i = i + 1;
                }
                assert(s.terms().take(i as int) =~= s.terms());
                stats.applied = stats.applied + 1;
            },
            None => {
                stats.skipped = stats.skipped + 1;
            },
        }
        p = p + 1;
    }
    assert(positions@.take(p as int) =~= positions@);
    assert(values@.take(p as int) =~= values@);
    stats
}

/// Gather (cell to particle): sample the cell field at each particle with the same
/// shape function, `values[p]` being the sum of `w(p, c) * cells[c]`. Particles
/// outside the mesh are written `fallback`.
pub fn gather<S: Scalar, M: TransferMesh<S>>(
    mesh: &M,
    positions: &[Vec3<S>],
    cells: &[S],
    values: &mut [S],
    fallback: S,
) -> (r: TransferStats)
    requires
        mesh.can_transfer(),
        positions@.len() == old(values)@.len(),
        cells@.len() == mesh.cell_total(),
    ensures
        final(values)@ == Seq::new(
            positions@.len(),
            |p: int| gathered_at(*mesh, positions@[p], cells@, fallback),
        ),
        r.applied == located(*mesh, positions@),
        r.applied + r.skipped == positions@.len(),
{
    let mut stats: TransferStats = TransferStats::default();
    let mut p: usize = 0;
    while p < positions.len()
        invariant
            mesh.can_transfer(),
            positions@.len() == values@.len(),
            cells@.len() == mesh.cell_total(),
            p <= positions@.len(),
            forall|q: int|
                0 <= q < p ==> #[trigger] values@[q] == gathered_at(
                    *mesh,
                    positions@[q],
                    cells@,
                    fallback,
                ),
            stats.applied == located(*mesh, positions@.take(p as int)),
            stats.applied + stats.skipped == p,
        decreases positions@.len() - p,
    {
        assert(positions@.take(p + 1).drop_last() =~= positions@.take(p as int));
        match mesh.stencil(positions[p]) {
            Some(s) => {
                let mut acc: S = S::zero();
                let n: usize = s.len();
                let mut i: usize = 0;
                while i < n
                    invariant
                        s.valid(),
                        n == s.terms().len(),
                        i <= n,
                        cells@.len() == mesh.cell_total(),
                        acc == sampled(cells@, s.terms().take(i as int)),
                        forall|j: int|
                            0 <= j < s.terms().len() ==> 0 <= (#[trigger] s.terms()[j]).cell
                                < mesh.cell_total(),
                    decreases n - i,
                {
                    assert(s.terms().take(i + 1).drop_last() =~= s.terms().take(i as int));
                    let (c, w): (usize, S) = s.term(i);
                    assert(s.terms()[i as int].cell < mesh.cell_total());
                    acc = acc.plus(w.times(cells[c]));
                    i = i + 1;
                }
                assert(s.terms().take(i as int) =~= s.terms());
                values[p] = acc;
                stats.applied = stats.applied + 1;
            },
            None => {
                values[p] = fallback;
                stats.skipped = stats.skipped + 1;
            },
        }
        p = p + 1;
    }
    assert(positions@.take(p as int) =~= positions@);
    assert(values@ =~= Seq::new(
        positions@.len(),
        |p: int| gathered_at(*mesh, positions@[p], cells@, fallback),
    ));
    stats
}

} // verus!
