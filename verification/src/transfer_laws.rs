//! Laws of the transfer operators, for exact arithmetic: the weights of a point add
//! up to one, a scatter conserves, a gather reproduces constant and linear fields,
//! and the two are adjoint.

use crate::index::first_of;
use crate::index::second_of;
use crate::index::third_of;
use crate::mesh::Bracket;
use crate::mesh::StructuredMesh;
use crate::mesh::Vec3;
use crate::scalar::Scalar;
use crate::scalar::counts_up;
use crate::scalar::is_ring;
use crate::scalar::minus_restores;
use crate::scalar::plus_associates;
use crate::scalar::plus_zero;
use crate::scalar::sum_of;
use crate::scalar::sum_of_push;
use crate::scalar::sum_of_update;
use crate::scalar::times_associates;
use crate::scalar::times_commutes;
use crate::scalar::times_distributes;
use crate::scalar::times_one;
use crate::scalar::times_zero;
use crate::transfer::Term;
use crate::transfer::TransferMesh;
use crate::transfer::cic_term;
use crate::transfer::cic_terms;
use crate::transfer::deposited;
use crate::transfer::deposited_density;
use crate::transfer::gathered_at;
use crate::transfer::hat;
use crate::transfer::located;
use crate::transfer::sampled;
use crate::transfer::scattered;
use crate::transfer::scattered_density;
use crate::transfer::weights_of;
use vstd::prelude::*;

verus! {

// ---------------------------------------------------------------------------
// Partition of unity.
// ---------------------------------------------------------------------------

/// The terms of a stencil are on cells of the mesh.
pub open spec fn terms_inside<S>(terms: Seq<Term<S>>, n: nat) -> bool {
    forall|i: int| 0 <= i < terms.len() ==> 0 <= (#[trigger] terms[i]).cell < n
}

/// The near and the far weight of an axis add up to one.
pub proof fn hats_add_up<S: Scalar>(t: S)
    requires
        is_ring::<S>(),
    ensures
        hat(t, 0).plus_spec(hat(t, 1)) == S::one_spec(),
{
    minus_restores(S::one_spec(), t);
}

/// A quantity split by the near and far weights of an axis is whole again.
pub proof fn hats_split<S: Scalar>(x: S, t: S)
    requires
        is_ring::<S>(),
    ensures
        x.times_spec(hat(t, 0)).plus_spec(x.times_spec(hat(t, 1))) == x,
{
    hats_add_up(t);
    times_distributes(x, hat(t, 0), hat(t, 1));
    times_one(x);
}

/// Adding two terms one after the other adds their sum.
pub proof fn plus_twice<S: Scalar>(x: S, a: S, b: S, sum: S)
    requires
        is_ring::<S>(),
        a.plus_spec(b) == sum,
    ensures
        x.plus_spec(a).plus_spec(b) == x.plus_spec(sum),
{
    plus_associates(x, a, b);
}

/// The first `n` of the weights of a cloud-in-cell stencil.
proof fn cic_weights_upto<S: Scalar, M: StructuredMesh<S>>(mesh: M, b: Bracket<S>, n: int)
    requires
        0 <= n < 8,
    ensures
        sum_of(weights_of(cic_terms(mesh, b)).take(n + 1)) == sum_of(
            weights_of(cic_terms(mesh, b)).take(n),
        ).plus_spec(cic_term(mesh, b, n).weight),
{
    let all: Seq<S> = weights_of(cic_terms(mesh, b));
    sum_of_push(all.take(n), all[n]);
    assert(all.take(n + 1) =~= all.take(n).push(all[n]));
}

/// The cloud-in-cell weights of any point add up to one.
pub proof fn weights_partition_unity<S: Scalar, M: StructuredMesh<S>>(mesh: M, b: Bracket<S>)
    requires
        is_ring::<S>(),
    ensures
        sum_of(weights_of(cic_terms(mesh, b))) == S::one_spec(),
{
    let one: S = S::one_spec();
    let z: S = S::zero_spec();
    let (a0, a1): (S, S) = (hat(b.t[0], 0), hat(b.t[0], 1));
    let (b0, b1): (S, S) = (hat(b.t[1], 0), hat(b.t[1], 1));
    let all: Seq<S> = weights_of(cic_terms(mesh, b));
    cic_weights_upto(mesh, b, 0);
    cic_weights_upto(mesh, b, 1);
    cic_weights_upto(mesh, b, 2);
    cic_weights_upto(mesh, b, 3);
    cic_weights_upto(mesh, b, 4);
    cic_weights_upto(mesh, b, 5);
    cic_weights_upto(mesh, b, 6);
    cic_weights_upto(mesh, b, 7);
    assert(all.take(0).len() == 0);
    assert(all.take(8) =~= all);
    let t2: S = b.t[2];
    let (p, q, r, s): (S, S, S, S) = (
        a0.times_spec(b0),
        a0.times_spec(b1),
        a1.times_spec(b0),
        a1.times_spec(b1),
    );
    hats_split(p, t2);
    hats_split(q, t2);
    hats_split(r, t2);
    hats_split(s, t2);
    let (e, f): (S, S) = (hat(t2, 0), hat(t2, 1));
    plus_twice(z, p.times_spec(e), p.times_spec(f), p);
    let s2: S = z.plus_spec(p);
    plus_twice(s2, q.times_spec(e), q.times_spec(f), q);
    let s4: S = s2.plus_spec(q);
    plus_twice(s4, r.times_spec(e), r.times_spec(f), r);
    let s6: S = s4.plus_spec(r);
    plus_twice(s6, s.times_spec(e), s.times_spec(f), s);
    hats_split(a0, b.t[1]);
    hats_split(a1, b.t[1]);
    plus_twice(z, p, q, a0);
    plus_twice(z.plus_spec(a0), r, s, a1);
    hats_add_up(b.t[0]);
    plus_twice(z, a0, a1, one);
    plus_zero(one);
}

/// `x` lies between zero and one.
pub open spec fn in_unit<S: Scalar>(x: S) -> bool {
    S::zero_spec().at_most_spec(x) && x.at_most_spec(S::one_spec())
}

/// Products and complements of numbers between zero and one lie between zero and
/// one.
pub open spec fn unit_is_closed<S: Scalar>() -> bool {
    &&& forall|a: S, b: S| in_unit(a) && in_unit(b) ==> in_unit(#[trigger] a.times_spec(b))
    &&& forall|a: S| in_unit(a) ==> in_unit(#[trigger] S::one_spec().minus_spec(a))
}

/// Where the fractions of a bracket lie between zero and one, so does every
/// cloud-in-cell weight.
pub proof fn weights_lie_in_the_unit_interval<S: Scalar, M: StructuredMesh<S>>(
    mesh: M,
    b: Bracket<S>,
    q: int,
)
    requires
        unit_is_closed::<S>(),
        in_unit(b.t[0]) && in_unit(b.t[1]) && in_unit(b.t[2]),
        0 <= q < 8,
    ensures
        in_unit(cic_terms(mesh, b)[q].weight),
{
    let term: Term<S> = cic_term(mesh, b, q);
    let (x, y, z): (S, S, S) = (
        hat(b.t[0], first_of(q, 2, 2)),
        hat(b.t[1], second_of(q, 2, 2)),
        hat(b.t[2], third_of(q, 2)),
    );
    assert(in_unit(x.times_spec(y)));
    assert(in_unit(x.times_spec(y).times_spec(z)));
}

// ---------------------------------------------------------------------------
// Conservation.
// ---------------------------------------------------------------------------

/// What the particles that landed on the mesh carry, added up in order.
pub open spec fn landed<S: Scalar, M: TransferMesh<S>>(
    mesh: M,
    positions: Seq<Vec3<S>>,
    values: Seq<S>,
) -> S
    decreases positions.len(),
{
    if positions.len() == 0 {
        S::zero_spec()
    } else {
        let rest: S = landed(mesh, positions.drop_last(), values.drop_last());
        if mesh.stencil_at(positions.last()) is Some {
            rest.plus_spec(values.last())
        } else {
            rest
        }
    }
}

/// Every stencil of the given positions is on cells of the mesh, and its weights
/// add up to one.
pub open spec fn shares_unity<S: Scalar, M: TransferMesh<S>>(
    mesh: M,
    positions: Seq<Vec3<S>>,
) -> bool {
    forall|p: int|
        0 <= p < positions.len() ==> match mesh.stencil_at(#[trigger] positions[p]) {
            Some(terms) => terms_inside(terms, mesh.cell_total()) && sum_of(weights_of(terms))
                == S::one_spec(),
            None => true,
        }
}

/// A deposit adds the weights times the value to the total.
proof fn deposit_adds<S: Scalar>(cells: Seq<S>, terms: Seq<Term<S>>, v: S)
    requires
        is_ring::<S>(),
        terms_inside(terms, cells.len()),
    ensures
        deposited(cells, terms, v).len() == cells.len(),
        sum_of(deposited(cells, terms, v)) == sum_of(cells).plus_spec(
            sum_of(weights_of(terms)).times_spec(v),
        ),
    decreases terms.len(),
{
    let w: S = sum_of(weights_of(terms));
    if terms.len() == 0 {
        assert(weights_of(terms).len() == 0);
        times_zero(v);
        plus_zero(sum_of(cells));
    } else {
        let rest: Seq<Term<S>> = terms.drop_last();
        let term: Term<S> = terms.last();
        assert(term == terms[terms.len() - 1]);
        assert forall|i: int| 0 <= i < rest.len() implies 0 <= (#[trigger] rest[i]).cell
            < cells.len() by {
            assert(rest[i] == terms[i]);
        }
        deposit_adds(cells, rest, v);
        let before: Seq<S> = deposited(cells, rest, v);
        sum_of_update(before, term.cell, term.weight.times_spec(v));
        assert(weights_of(terms).drop_last() =~= weights_of(rest));
        let u: S = sum_of(weights_of(rest));
        times_distributes(v, u, term.weight);
        plus_associates(sum_of(cells), u.times_spec(v), term.weight.times_spec(v));
    }
}

/// A scatter conserves: the total over the cells grows by exactly what the
/// particles on the mesh carry.
pub proof fn scatter_conserves<S: Scalar, M: TransferMesh<S>>(
    mesh: M,
    positions: Seq<Vec3<S>>,
    values: Seq<S>,
    cells: Seq<S>,
)
    requires
        is_ring::<S>(),
        shares_unity(mesh, positions),
        positions.len() == values.len(),
        cells.len() == mesh.cell_total(),
    ensures
        scattered(mesh, positions, values, cells).len() == cells.len(),
        sum_of(scattered(mesh, positions, values, cells)) == sum_of(cells).plus_spec(
            landed(mesh, positions, values),
        ),
    decreases positions.len(),
{
    if positions.len() == 0 {
        plus_zero(sum_of(cells));
    } else {
        let rest: Seq<Vec3<S>> = positions.drop_last();
        rest_shares_unity(mesh, positions);
        scatter_conserves(mesh, rest, values.drop_last(), cells);
        let before: Seq<S> = scattered(mesh, rest, values.drop_last(), cells);
        let v: S = values.last();
        assert(positions.last() == positions[positions.len() - 1]);
        if let Some(terms) = mesh.stencil_at(positions.last()) {
            deposit_adds(before, terms, v);
            times_one(v);
            plus_associates(sum_of(cells), landed(mesh, rest, values.drop_last()), v);
        }
    }
}

/// Where every particle carries one, what landed is the number of particles on the
/// mesh.
proof fn unit_values_count<S: Scalar, M: TransferMesh<S>>(
    mesh: M,
    positions: Seq<Vec3<S>>,
    values: Seq<S>,
)
    requires
        counts_up::<S>(),
        positions.len() == values.len(),
        forall|p: int| 0 <= p < values.len() ==> #[trigger] values[p] == S::one_spec(),
    ensures
        landed(mesh, positions, values) == S::count_spec(located(mesh, positions) as int),
    decreases positions.len(),
{
    if positions.len() > 0 {
        let rest: Seq<S> = values.drop_last();
        assert forall|p: int| 0 <= p < rest.len() implies #[trigger] rest[p] == S::one_spec() by {
            assert(rest[p] == values[p]);
        }
        unit_values_count(mesh, positions.drop_last(), rest);
        let n: int = located(mesh, positions.drop_last()) as int;
        assert(S::count_spec(n + 1) == S::count_spec(n).plus_spec(S::one_spec()));
    }
}

/// Depositing one per particle adds the number of particles on the mesh to the total
/// over the cells.
pub proof fn unit_deposits_count_particles<S: Scalar, M: TransferMesh<S>>(
    mesh: M,
    positions: Seq<Vec3<S>>,
    values: Seq<S>,
    cells: Seq<S>,
)
    requires
        is_ring::<S>(),
        counts_up::<S>(),
        shares_unity(mesh, positions),
        positions.len() == values.len(),
        forall|p: int| 0 <= p < values.len() ==> #[trigger] values[p] == S::one_spec(),
        cells.len() == mesh.cell_total(),
    ensures
        sum_of(scattered(mesh, positions, values, cells)) == sum_of(cells).plus_spec(
            S::count_spec(located(mesh, positions) as int),
        ),
{
    scatter_conserves(mesh, positions, values, cells);
    unit_values_count(mesh, positions, values);
}

/// Fewer particles still share unity.
proof fn rest_shares_unity<S: Scalar, M: TransferMesh<S>>(mesh: M, positions: Seq<Vec3<S>>)
    requires
        positions.len() > 0,
        shares_unity(mesh, positions),
    ensures
        shares_unity(mesh, positions.drop_last()),
{
    let rest: Seq<Vec3<S>> = positions.drop_last();
    assert forall|p: int| 0 <= p < rest.len() implies match mesh.stencil_at(
        #[trigger] rest[p],
    ) {
        Some(terms) => terms_inside(terms, mesh.cell_total()) && sum_of(weights_of(terms))
            == S::one_spec(),
        None => true,
    } by {
        assert(rest[p] == positions[p]);
    }
}

/// Dividing by the volume of a cell and multiplying by it again changes nothing.
pub open spec fn divides<S: Scalar>(volume: S) -> bool {
    forall|x: S| (#[trigger] x.over_spec(volume)).times_spec(volume) == x
}

/// What the cells hold in all, where `cells` is what they hold per volume.
pub open spec fn contents<S: Scalar, M: TransferMesh<S>>(mesh: M, cells: Seq<S>) -> Seq<S> {
    Seq::new(cells.len(), |c: int| cells[c].times_spec(mesh.volume_in(c)))
}

/// The volume integral of a per-volume field.
pub open spec fn integral<S: Scalar, M: TransferMesh<S>>(mesh: M, cells: Seq<S>) -> S {
    sum_of(contents(mesh, cells))
}

/// Every stencil of the given positions is on cells of the mesh.
pub open spec fn stencils_inside<S: Scalar, M: TransferMesh<S>>(
    mesh: M,
    positions: Seq<Vec3<S>>,
) -> bool {
    forall|p: int|
        0 <= p < positions.len() ==> match mesh.stencil_at(#[trigger] positions[p]) {
            Some(terms) => terms_inside(terms, mesh.cell_total()),
            None => true,
        }
}

/// A per-volume deposit puts into each cell what a plain deposit does.
proof fn density_deposit_fills<S: Scalar, M: TransferMesh<S>>(
    mesh: M,
    cells: Seq<S>,
    terms: Seq<Term<S>>,
    v: S,
)
    requires
        is_ring::<S>(),
        terms_inside(terms, cells.len()),
        forall|c: int| 0 <= c < cells.len() ==> divides(#[trigger] mesh.volume_in(c)),
    ensures
        deposited_density(mesh, cells, terms, v).len() == cells.len(),
        contents(mesh, deposited_density(mesh, cells, terms, v)) == deposited(
            contents(mesh, cells),
            terms,
            v,
        ),
    decreases terms.len(),
{
    if terms.len() > 0 {
        let rest: Seq<Term<S>> = terms.drop_last();
        let term: Term<S> = terms.last();
        assert(term == terms[terms.len() - 1]);
        assert forall|i: int| 0 <= i < rest.len() implies 0 <= (#[trigger] rest[i]).cell
            < cells.len() by {
            assert(rest[i] == terms[i]);
        }
        density_deposit_fills(mesh, cells, rest, v);
        let before: Seq<S> = deposited_density(mesh, cells, rest, v);
        let after: Seq<S> = deposited_density(mesh, cells, terms, v);
        let c: int = term.cell;
        let volume: S = mesh.volume_in(c);
        let share: S = term.weight.times_spec(v);
        assert(divides(volume));
        assert(share.over_spec(volume).times_spec(volume) == share);
        times_distributes(volume, before[c], share.over_spec(volume));
        let held: Seq<S> = contents(mesh, before);
        assert(contents(mesh, after) =~= held.update(c, held[c].plus_spec(share)));
    }
}

/// A density scatter times the volume of each cell is the plain scatter, cell by
/// cell.
pub proof fn density_times_volume_is_the_scatter<S: Scalar, M: TransferMesh<S>>(
    mesh: M,
    positions: Seq<Vec3<S>>,
    values: Seq<S>,
    cells: Seq<S>,
)
    requires
        is_ring::<S>(),
        stencils_inside(mesh, positions),
        positions.len() == values.len(),
        cells.len() == mesh.cell_total(),
        forall|c: int| 0 <= c < cells.len() ==> divides(#[trigger] mesh.volume_in(c)),
    ensures
        scattered_density(mesh, positions, values, cells).len() == cells.len(),
        contents(mesh, scattered_density(mesh, positions, values, cells)) == scattered(
            mesh,
            positions,
            values,
            contents(mesh, cells),
        ),
    decreases positions.len(),
{
    if positions.len() > 0 {
        let rest: Seq<Vec3<S>> = positions.drop_last();
        assert forall|p: int| 0 <= p < rest.len() implies match mesh.stencil_at(
            #[trigger] rest[p],
        ) {
            Some(terms) => terms_inside(terms, mesh.cell_total()),
            None => true,
        } by {
            assert(rest[p] == positions[p]);
        }
        density_times_volume_is_the_scatter(mesh, rest, values.drop_last(), cells);
        let before: Seq<S> = scattered_density(mesh, rest, values.drop_last(), cells);
        assert(positions.last() == positions[positions.len() - 1]);
        if let Some(terms) = mesh.stencil_at(positions.last()) {
            density_deposit_fills(mesh, before, terms, values.last());
        }
    }
}

/// A density scatter conserves: the volume integral over the cells grows by
/// exactly what the particles on the mesh carry.
pub proof fn density_scatter_conserves<S: Scalar, M: TransferMesh<S>>(
    mesh: M,
    positions: Seq<Vec3<S>>,
    values: Seq<S>,
    cells: Seq<S>,
)
    requires
        is_ring::<S>(),
        shares_unity(mesh, positions),
        positions.len() == values.len(),
        cells.len() == mesh.cell_total(),
        forall|c: int| 0 <= c < cells.len() ==> divides(#[trigger] mesh.volume_in(c)),
    ensures
        scattered_density(mesh, positions, values, cells).len() == cells.len(),
        integral(mesh, scattered_density(mesh, positions, values, cells)) == integral(
            mesh,
            cells,
        ).plus_spec(landed(mesh, positions, values)),
{
    density_times_volume_is_the_scatter(mesh, positions, values, cells);
    scatter_conserves(mesh, positions, values, contents(mesh, cells));
}

// ---------------------------------------------------------------------------
// Consistency.
// ---------------------------------------------------------------------------

/// Sampling a constant field gives the weights times the constant.
proof fn sample_of_constant<S: Scalar>(cells: Seq<S>, terms: Seq<Term<S>>, k: S)
    requires
        is_ring::<S>(),
        terms_inside(terms, cells.len()),
        forall|c: int| 0 <= c < cells.len() ==> #[trigger] cells[c] == k,
    ensures
        sampled(cells, terms) == sum_of(weights_of(terms)).times_spec(k),
    decreases terms.len(),
{
    if terms.len() == 0 {
        assert(weights_of(terms).len() == 0);
        times_zero(k);
    } else {
        let rest: Seq<Term<S>> = terms.drop_last();
        let term: Term<S> = terms.last();
        assert(term == terms[terms.len() - 1]);
        assert forall|i: int| 0 <= i < rest.len() implies 0 <= (#[trigger] rest[i]).cell
            < cells.len() by {
            assert(rest[i] == terms[i]);
        }
        sample_of_constant(cells, rest, k);
        assert(weights_of(terms).drop_last() =~= weights_of(rest));
        assert(cells[term.cell] == k);
        times_distributes(k, sum_of(weights_of(rest)), term.weight);
    }
}

/// A gather preserves constants: a uniform field is sampled back unchanged at
/// every point of the mesh.
pub proof fn gather_preserves_constants<S: Scalar, M: TransferMesh<S>>(
    mesh: M,
    point: Vec3<S>,
    cells: Seq<S>,
    fallback: S,
    k: S,
)
    requires
        is_ring::<S>(),
        shares_unity(mesh, seq![point]),
        mesh.stencil_at(point) is Some,
        cells.len() == mesh.cell_total(),
        forall|c: int| 0 <= c < cells.len() ==> #[trigger] cells[c] == k,
    ensures
        gathered_at(mesh, point, cells, fallback) == k,
{
    assert(seq![point][0] == point);
    let terms: Seq<Term<S>> = mesh.stencil_at(point).unwrap();
    sample_of_constant(cells, terms, k);
    times_one(k);
}

/// The inner product of two fields.
pub open spec fn inner_product<S: Scalar>(a: Seq<S>, b: Seq<S>) -> S {
    sum_of(Seq::new(a.len(), |c: int| a[c].times_spec(b[c])))
}

/// What a deposit adds to the inner product with a field is the value times the
/// sample of that field.
proof fn deposit_meets_sample<S: Scalar>(cells: Seq<S>, terms: Seq<Term<S>>, v: S, f: Seq<S>)
    requires
        is_ring::<S>(),
        terms_inside(terms, cells.len()),
        f.len() == cells.len(),
    ensures
        deposited(cells, terms, v).len() == cells.len(),
        inner_product(deposited(cells, terms, v), f) == inner_product(cells, f).plus_spec(
            v.times_spec(sampled(f, terms)),
        ),
    decreases terms.len(),
{
    if terms.len() == 0 {
        times_zero(v);
        plus_zero(inner_product(cells, f));
    } else {
        let rest: Seq<Term<S>> = terms.drop_last();
        let term: Term<S> = terms.last();
        assert(term == terms[terms.len() - 1]);
        assert forall|i: int| 0 <= i < rest.len() implies 0 <= (#[trigger] rest[i]).cell
            < cells.len() by {
            assert(rest[i] == terms[i]);
        }
        deposit_meets_sample(cells, rest, v, f);
        let before: Seq<S> = deposited(cells, rest, v);
        let after: Seq<S> = deposited(cells, terms, v);
        let c: int = term.cell;
        let w: S = term.weight;
        let share: S = w.times_spec(v);
        let products: Seq<S> = Seq::new(before.len(), |c: int| before[c].times_spec(f[c]));
        times_distributes(f[c], before[c], share);
        assert(Seq::new(after.len(), |c: int| after[c].times_spec(f[c])) =~= products.update(
            c,
            products[c].plus_spec(share.times_spec(f[c])),
        ));
        sum_of_update(products, c, share.times_spec(f[c]));
        // (w v) f is v (w f).
        times_commutes(w, v);
        times_associates(v, w, f[c]);
        let s: S = sampled(f, rest);
        times_distributes(v, s, w.times_spec(f[c]));
        plus_associates(
            inner_product(cells, f),
            v.times_spec(s),
            v.times_spec(w.times_spec(f[c])),
        );
    }
}

/// The values of the particles times what a gather gives them, added up in order
/// over the particles on the mesh.
pub open spec fn gathered_product<S: Scalar, M: TransferMesh<S>>(
    mesh: M,
    positions: Seq<Vec3<S>>,
    values: Seq<S>,
    f: Seq<S>,
) -> S
    decreases positions.len(),
{
    if positions.len() == 0 {
        S::zero_spec()
    } else {
        let rest: S = gathered_product(mesh, positions.drop_last(), values.drop_last(), f);
        match mesh.stencil_at(positions.last()) {
            Some(terms) => rest.plus_spec(values.last().times_spec(sampled(f, terms))),
            None => rest,
        }
    }
}

/// Scatter and gather are adjoint: the inner product over the cells of what was
/// scattered with a field is the inner product over the particles of their values
/// with what the field gathers.
pub proof fn scatter_and_gather_are_adjoint<S: Scalar, M: TransferMesh<S>>(
    mesh: M,
    positions: Seq<Vec3<S>>,
    values: Seq<S>,
    cells: Seq<S>,
    f: Seq<S>,
)
    requires
        is_ring::<S>(),
        shares_unity(mesh, positions),
        positions.len() == values.len(),
        cells.len() == mesh.cell_total(),
        f.len() == cells.len(),
    ensures
        scattered(mesh, positions, values, cells).len() == cells.len(),
        inner_product(scattered(mesh, positions, values, cells), f) == inner_product(
            cells,
            f,
        ).plus_spec(gathered_product(mesh, positions, values, f)),
    decreases positions.len(),
{
    if positions.len() == 0 {
        plus_zero(inner_product(cells, f));
    } else {
        let rest: Seq<Vec3<S>> = positions.drop_last();
        rest_shares_unity(mesh, positions);
        scatter_and_gather_are_adjoint(mesh, rest, values.drop_last(), cells, f);
        let before: Seq<S> = scattered(mesh, rest, values.drop_last(), cells);
        let v: S = values.last();
        assert(positions.last() == positions[positions.len() - 1]);
        if let Some(terms) = mesh.stencil_at(positions.last()) {
            deposit_meets_sample(before, terms, v, f);
            plus_associates(
                inner_product(cells, f),
                gathered_product(mesh, rest, values.drop_last(), f),
                v.times_spec(sampled(f, terms)),
            );
        }
    }
}

/// The particles that a transfer applies are those whose position has a stencil.
pub proof fn applied_particles_have_stencils<S: Scalar, M: TransferMesh<S>>(
    mesh: M,
    positions: Seq<Vec3<S>>,
)
    ensures
        located(mesh, positions) == positions.filter(
            |p: Vec3<S>| mesh.stencil_at(p) is Some,
        ).len(),
    decreases positions.len(),
{
    reveal(Seq::filter);
    if positions.len() > 0 {
        applied_particles_have_stencils(mesh, positions.drop_last());
    }
}

} // verus!
