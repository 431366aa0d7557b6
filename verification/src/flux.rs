//! Scattering face fluxes into cells: what leaves one cell enters the other.

use crate::mesh::Face;
use crate::scalar::Scalar;
use crate::scalar::is_ring;
use crate::scalar::minus_restores;
use crate::scalar::negated_cancels;
use crate::scalar::plus_associates;
use crate::scalar::plus_cancels;
use crate::scalar::plus_commutes;
use crate::scalar::plus_zero;
use crate::scalar::sum_of;
use crate::scalar::sum_of_update;
use vstd::prelude::*;

verus! {

/// Cell `c` holding `x` once `phi` crossed `face`: the flux leaves the owner, and
/// enters the other cell unless the face lies on a physical boundary.
pub open spec fn after_face<S: Scalar>(x: S, face: Face<S>, phi: S, c: int) -> S {
    let y: S = if face.owner == c {
        x.minus_spec(phi)
    } else {
        x
    };
    if face.patch is None && face.other == c {
        y.plus_spec(phi)
    } else {
        y
    }
}

/// What cell `c` gains once every face was crossed by its flux, from zero.
pub open spec fn net_flux<S: Scalar>(faces: Seq<Face<S>>, flux: Seq<S>, c: int) -> S
    decreases faces.len(),
{
    if faces.len() == 0 {
        S::zero_spec()
    } else {
        after_face(
            net_flux(faces.drop_last(), flux.drop_last(), c),
            faces.last(),
            flux.last(),
            c,
        )
    }
}

/// The flux that leaves through the physical boundary.
pub open spec fn outflow<S: Scalar>(faces: Seq<Face<S>>, flux: Seq<S>) -> S
    decreases faces.len(),
{
    if faces.len() == 0 {
        S::zero_spec()
    } else {
        let rest: S = outflow(faces.drop_last(), flux.drop_last());
        if faces.last().patch is Some {
            rest.plus_spec(flux.last())
        } else {
            rest
        }
    }
}

/// The components of the face normals along axis `d`.
pub open spec fn areas<S: Scalar>(faces: Seq<Face<S>>, d: int) -> Seq<S> {
    faces.map_values(|f: Face<S>| f.area_normal[d])
}

/// Every face joins two different ones of `n` cells.
pub open spec fn joins_cells<S>(faces: Seq<Face<S>>, n: nat) -> bool {
    forall|p: int|
        0 <= p < faces.len() ==> {
            &&& (#[trigger] faces[p]).owner < n
            &&& faces[p].other < n
            &&& faces[p].owner != faces[p].other
        }
}

/// What one more list of at most one face adds to the net area of a cell.
pub proof fn net_area_appends<S: Scalar>(faces: Seq<Face<S>>, more: Seq<Face<S>>, d: int, c: int)
    requires
        more.len() <= 1,
    ensures
        net_flux(faces + more, areas(faces + more, d), c) == (if more.len() == 0 {
            net_flux(faces, areas(faces, d), c)
        } else {
            after_face(net_flux(faces, areas(faces, d), c), more[0], more[0].area_normal[d], c)
        }),
{
    if more.len() == 0 {
        assert(faces + more =~= faces);
    } else {
        let all: Seq<Face<S>> = faces + more;
        assert(all.drop_last() =~= faces);
        assert(areas(all, d).drop_last() =~= areas(faces, d));
    }
}

/// In a ring, subtracting is adding the negation.
pub proof fn minus_is_plus_negated<S: Scalar>(a: S, b: S)
    requires
        is_ring::<S>(),
    ensures
        a.minus_spec(b) == a.plus_spec(b.negated_spec()),
{
    minus_restores(a, b);
    plus_associates(a, b.negated_spec(), b);
    negated_cancels(b);
    plus_zero(a);
    plus_cancels(a.minus_spec(b), a.plus_spec(b.negated_spec()), b);
}

/// In a ring, subtracting a negation is adding.
pub proof fn minus_negated<S: Scalar>(a: S, b: S)
    requires
        is_ring::<S>(),
    ensures
        a.minus_spec(b.negated_spec()) == a.plus_spec(b),
{
    minus_restores(a, b.negated_spec());
    plus_associates(a, b, b.negated_spec());
    negated_cancels(b);
    plus_commutes(b, b.negated_spec());
    plus_zero(a);
    plus_cancels(a.minus_spec(b.negated_spec()), a.plus_spec(b), b.negated_spec());
}

/// In a ring, subtracting zero changes nothing.
pub proof fn minus_zero<S: Scalar>(a: S)
    requires
        is_ring::<S>(),
    ensures
        a.minus_spec(S::zero_spec()) == a,
{
    minus_restores(a, S::zero_spec());
    plus_zero(a.minus_spec(S::zero_spec()));
}

/// A scatter of face fluxes conserves: over all cells the gains add up to what
/// came in through the physical boundary. Across every other face, what one cell
/// loses the other gains.
pub proof fn scatter_telescopes<S: Scalar>(faces: Seq<Face<S>>, flux: Seq<S>, n: nat)
    requires
        is_ring::<S>(),
        faces.len() == flux.len(),
        joins_cells(faces, n),
    ensures
        sum_of(Seq::new(n, |c: int| net_flux(faces, flux, c))).plus_spec(outflow(faces, flux))
            == S::zero_spec(),
    decreases faces.len(),
{
    let z: S = S::zero_spec();
    let all: Seq<S> = Seq::new(n, |c: int| net_flux(faces, flux, c));
    if faces.len() == 0 {
        assert(all =~= Seq::new(n, |c: int| z));
        sum_of_zeros::<S>(n);
        plus_zero(z);
    } else {
        let rest: Seq<Face<S>> = faces.drop_last();
        let before: Seq<S> = Seq::new(n, |c: int| net_flux(rest, flux.drop_last(), c));
        assert forall|p: int| 0 <= p < rest.len() implies {
            &&& (#[trigger] rest[p]).owner < n
            &&& rest[p].other < n
            &&& rest[p].owner != rest[p].other
        } by {
            assert(rest[p] == faces[p]);
        }
        scatter_telescopes(rest, flux.drop_last(), n);
        let face: Face<S> = faces.last();
        assert(face == faces[faces.len() - 1]);
        let phi: S = flux.last();
        let out: S = outflow(rest, flux.drop_last());
        let total: S = sum_of(before);
        let owner: int = face.owner as int;
        let other: int = face.other as int;
        let lost: Seq<S> = before.update(owner, before[owner].plus_spec(phi.negated_spec()));
        minus_is_plus_negated(before[owner], phi);
        sum_of_update(before, owner, phi.negated_spec());
        if face.patch is Some {
            assert(all =~= lost);
            plus_associates(total, phi.negated_spec(), out.plus_spec(phi));
            plus_commutes(out, phi);
            plus_associates(phi.negated_spec(), phi, out);
            negated_cancels(phi);
            plus_zero(out);
        } else {
            let gained: Seq<S> = lost.update(other, lost[other].plus_spec(phi));
            assert(all =~= gained);
            sum_of_update(lost, other, phi);
            plus_associates(total, phi.negated_spec(), phi);
            negated_cancels(phi);
            plus_zero(total);
        }
    }
}

/// Zeros add up to zero.
pub proof fn sum_of_zeros<S: Scalar>(n: nat)
    requires
        is_ring::<S>(),
    ensures
        sum_of(Seq::new(n, |c: int| S::zero_spec())) == S::zero_spec(),
    decreases n,
{
    let s: Seq<S> = Seq::new(n, |c: int| S::zero_spec());
    if n > 0 {
        sum_of_zeros::<S>((n - 1) as nat);
        assert(s.drop_last() =~= Seq::new((n - 1) as nat, |c: int| S::zero_spec()));
        plus_zero(S::zero_spec());
    }
}

/// The sum of `k` terms `a`; of `-k` terms `-a` for a negative `k`.
pub open spec fn multiple<S: Scalar>(k: int, a: S) -> S
    decreases (if k >= 0 { k } else { -k }),
{
    if k == 0 {
        S::zero_spec()
    } else if k > 0 {
        multiple(k - 1, a).plus_spec(a)
    } else {
        multiple(k + 1, a).minus_spec(a)
    }
}

/// One more term adds the term, one less subtracts it.
pub proof fn multiple_steps<S: Scalar>(k: int, a: S)
    requires
        is_ring::<S>(),
    ensures
        multiple(k + 1, a) == multiple(k, a).plus_spec(a),
        multiple(k - 1, a) == multiple(k, a).minus_spec(a),
{
    if k < 0 {
        minus_restores(multiple(k + 1, a), a);
    }
    if k > 0 {
        minus_restores(multiple(k, a), a);
        plus_cancels(multiple(k, a).minus_spec(a), multiple(k - 1, a), a);
    }
}

} // verus!
