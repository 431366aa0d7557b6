//! Laws of the two-level adaptive mesh: how many leaves there are, that their
//! volumes tile the domain, and that every leaf is a closed control volume.

use crate::amr::Forest;
use crate::amr::ForestConfig;
use crate::amr::ForestMesh;
use crate::amr::Leaf;
use crate::amr::all_leaves;
use crate::amr::axis_vector;
use crate::amr::child_leaf;
use crate::amr::coarse_count;
use crate::amr::coarse_leaves;
use crate::amr::coarse_total;
use crate::amr::first_leaf;
use crate::amr::forest_faces;
use crate::amr::has_next;
use crate::amr::is_forest;
use crate::amr::is_ghost_coarse;
use crate::amr::is_listed;
use crate::amr::leaves_fit;
use crate::amr::leaves_upto;
use crate::amr::local_mask;
use crate::amr::next_slot;
use crate::amr::pairs_of;
use crate::amr::slot_axis_faces;
use crate::amr::slot_count;
use crate::amr::slot_faces_upto;
use crate::amr::slot_has_leaf;
use crate::amr::slot_leaf;
use crate::amr::slot_total;
use crate::amr::sub_area;
use crate::amr::whole_leaf;
use crate::flux::after_face;
use crate::flux::areas;
use crate::flux::joins_cells;
use crate::flux::minus_negated;
use crate::flux::minus_zero;
use crate::flux::multiple;
use crate::flux::multiple_steps;
use crate::flux::net_area_appends;
use crate::flux::net_flux;
use crate::flux::outflow;
use crate::flux::scatter_telescopes;
use crate::grid::Grid;
use crate::grid::cell_count;
use crate::grid::interior_is_counted;
use crate::grid::interior_mask;
use crate::grid::is_interior;
use crate::index::first_of;
use crate::index::flat;
use crate::index::flat_is_inside;
use crate::index::flat_joins;
use crate::index::flat_splits;
use crate::index::flat_steps;
use crate::index::second_of;
use crate::index::third_of;
use crate::mesh::CoarseFineFace;
use crate::mesh::Face;
use crate::mesh::count_set;
use crate::scalar::Scalar;
use crate::scalar::is_ring;
use crate::scalar::plus_associates;
use crate::scalar::plus_zero;
use crate::scalar::sum_of;
use crate::scalar::times_distributes;
use vstd::arithmetic::mul::*;
use vstd::prelude::*;

verus! {

// ---------------------------------------------------------------------------
// Counting leaves.
// ---------------------------------------------------------------------------

/// Refining a coarse cell adds seven leaves: eight children in place of one.
pub proof fn leaves_are_counted<S: Scalar>(f: Forest<S>)
    requires
        is_forest(f),
    ensures
        all_leaves(f).len() == coarse_count(f) + 7 * count_set(f.refined),
{
    leaves_fit(f);
    leaves_before(f, coarse_count(f));
    assert(f.refined.take(coarse_count(f)) =~= f.refined);
}

/// The leaves of the first `m` coarse cells.
proof fn leaves_before<S: Scalar>(f: Forest<S>, m: int)
    requires
        0 <= m <= f.refined.len(),
    ensures
        first_leaf(f, m) == m + 7 * count_set(f.refined.take(m)),
    decreases m,
{
    if m > 0 {
        leaves_before(f, m - 1);
        assert(f.refined.take(m).drop_last() =~= f.refined.take(m - 1));
    } else {
        assert(f.refined.take(0).len() == 0);
    }
}

/// The marks of two masks end to end.
proof fn count_set_joins(a: Seq<bool>, b: Seq<bool>)
    ensures
        count_set(a + b) == count_set(a) + count_set(b),
    decreases b.len(),
{
    if b.len() == 0 {
        assert(a + b =~= a);
    } else {
        count_set_joins(a, b.drop_last());
        assert((a + b).drop_last() =~= a + b.drop_last());
    }
}

/// A mask of one value counts all of its entries or none.
proof fn count_set_of_one(mask: Seq<bool>, value: bool)
    requires
        forall|i: int| 0 <= i < mask.len() ==> #[trigger] mask[i] == value,
    ensures
        count_set(mask) == (if value {
            mask.len()
        } else {
            0
        }),
    decreases mask.len(),
{
    if mask.len() > 0 {
        assert(mask.last() == mask[mask.len() - 1]);
        assert forall|i: int| 0 <= i < mask.len() - 1 implies #[trigger] mask.drop_last()[i]
            == value by {
            assert(mask[i] == value);
        }
        count_set_of_one(mask.drop_last(), value);
    }
}

/// The marks of fine leaves.
spec fn fine_mask<S>(leaves: Seq<Leaf<S>>) -> Seq<bool> {
    leaves.map_values(|l: Leaf<S>| l.level == 1)
}

/// The fine leaves of the first `m` coarse cells.
proof fn fine_leaves_upto<S: Scalar>(f: Forest<S>, m: int)
    requires
        0 <= m <= f.refined.len(),
    ensures
        count_set(fine_mask(leaves_upto(f, m))) == 8 * count_set(f.refined.take(m)),
    decreases m,
{
    if m > 0 {
        fine_leaves_upto(f, m - 1);
        assert(f.refined.take(m).drop_last() =~= f.refined.take(m - 1));
        let (before, own): (Seq<Leaf<S>>, Seq<Leaf<S>>) = (
            leaves_upto(f, m - 1),
            coarse_leaves(f, m - 1),
        );
        assert(fine_mask(before + own) =~= fine_mask(before) + fine_mask(own));
        count_set_joins(fine_mask(before), fine_mask(own));
        count_set_of_one(fine_mask(own), f.refined[m - 1]);
    } else {
        assert(f.refined.take(0).len() == 0);
    }
}

/// Every refined coarse cell has eight fine leaves, and there are no others.
pub proof fn fine_leaves_are_counted<S: Scalar>(f: Forest<S>)
    requires
        is_forest(f),
    ensures
        ForestMesh::<S>::fine_count(all_leaves(f)) == 8 * count_set(f.refined),
{
    leaves_fit(f);
    fine_leaves_upto(f, coarse_count(f));
    assert(f.refined.take(coarse_count(f)) =~= f.refined);
    assert(fine_mask(all_leaves(f)) =~= all_leaves(f).map_values(|l: Leaf<S>| l.level == 1));
}

/// No coarse cell of the ghost layer is refined.
pub open spec fn ghosts_are_whole<S>(f: Forest<S>) -> bool {
    forall|m: int| 0 <= m < f.refined.len() && #[trigger] f.refined[m] ==> !is_ghost_coarse(f, m)
}

/// The local leaves of the first `m` coarse cells.
proof fn local_leaves_upto<S: Scalar>(f: Forest<S>, m: int)
    requires
        ghosts_are_whole(f),
        0 <= m <= f.refined.len(),
    ensures
        count_set(local_mask(leaves_upto(f, m))) == local_coarse(f, m) + 7 * count_set(
            f.refined.take(m),
        ),
    decreases m,
{
    if m > 0 {
        local_leaves_upto(f, m - 1);
        assert(f.refined.take(m).drop_last() =~= f.refined.take(m - 1));
        let (before, own): (Seq<Leaf<S>>, Seq<Leaf<S>>) = (
            leaves_upto(f, m - 1),
            coarse_leaves(f, m - 1),
        );
        assert(local_mask(before + own) =~= local_mask(before) + local_mask(own));
        count_set_joins(local_mask(before), local_mask(own));
        assert(f.refined[m - 1] ==> !is_ghost_coarse(f, m - 1));
        count_set_of_one(local_mask(own), !is_ghost_coarse(f, m - 1));
    } else {
        assert(f.refined.take(0).len() == 0);
    }
}

/// Where no ghost is refined, the local leaves are one for each coarse cell of the
/// domain and seven more for each refined one.
pub proof fn local_leaves_are_counted<S: Scalar>(f: Forest<S>)
    requires
        is_forest(f),
        ghosts_are_whole(f),
        f.nc[1] >= 1,
        f.nc[2] >= 1,
    ensures
        count_set(local_mask(all_leaves(f))) == f.nc[0] * f.nc[1] * f.nc[2] + 7 * count_set(
            f.refined,
        ),
{
    leaves_fit(f);
    local_leaves_upto(f, coarse_count(f));
    coarse_cells_are_counted(f);
    assert(f.refined.take(coarse_count(f)) =~= f.refined);
}

/// The cells that a configuration lists lie in the domain, so no ghost is refined.
pub proof fn configured_ghosts_are_whole<S: Scalar>(cfg: ForestConfig<S>)
    requires
        cfg.can_build(),
    ensures
        ghosts_are_whole(cfg.forest()),
{
    let f: Forest<S> = cfg.forest();
    let (t1, t2): (int, int) = (cfg.ncy + 2, cfg.ncz + 2);
    assert forall|m: int| 0 <= m < f.refined.len() && #[trigger] f.refined[m] implies
        !is_ghost_coarse(f, m) by {
        let (i, j, k): (int, int, int) = (
            first_of(m, t1, t2),
            second_of(m, t1, t2),
            third_of(m, t2),
        );
        assert(is_listed(cfg.refine@, i, j, k));
        let r: int = choose|r: int|
            0 <= r < cfg.refine@.len() && (#[trigger] cfg.refine@[r])[0] + 1 == i
                && cfg.refine@[r][1] + 1 == j && cfg.refine@[r][2] + 1 == k;
        assert(cfg.refine@[r][0] < cfg.ncx);
    }
}

/// Setting a mark that was not set adds one to the count.
proof fn count_set_update(mask: Seq<bool>, i: int)
    requires
        0 <= i < mask.len(),
        !mask[i],
    ensures
        count_set(mask.update(i, true)) == count_set(mask) + 1,
    decreases mask.len(),
{
    let after: Seq<bool> = mask.update(i, true);
    if i == mask.len() - 1 {
        assert(after.drop_last() =~= mask.drop_last());
    } else {
        assert(after.drop_last() =~= mask.drop_last().update(i, true));
        count_set_update(mask.drop_last(), i);
    }
}

/// No marks count as zero.
proof fn count_set_none(n: nat)
    ensures
        count_set(Seq::new(n, |m: int| false)) == 0,
    decreases n,
{
    let mask: Seq<bool> = Seq::new(n, |m: int| false);
    if n > 0 {
        assert(mask.drop_last() =~= Seq::new((n - 1) as nat, |m: int| false));
        count_set_none((n - 1) as nat);
    }
}

/// The marks of the coarse cells of a list.
spec fn marks(list: Seq<[usize; 3]>, t0: int, t1: int, t2: int) -> Seq<bool> {
    Seq::new(
        (t0 * t1 * t2) as nat,
        |m: int| is_listed(list, first_of(m, t1, t2), second_of(m, t1, t2), third_of(m, t2)),
    )
}

/// The cells of a list without repetition are as many as their marks.
proof fn marks_are_counted(list: Seq<[usize; 3]>, t0: int, t1: int, t2: int)
    requires
        forall|r: int|
            0 <= r < list.len() ==> (#[trigger] list[r])[0] + 2 < t0 && list[r][1] + 2 < t1
                && list[r][2] + 2 < t2,
        forall|r: int, q: int|
            0 <= r < q < list.len() ==> (#[trigger] list[r])@ != (#[trigger] list[q])@,
        2 <= t0,
        2 <= t1,
        2 <= t2,
    ensures
        count_set(marks(list, t0, t1, t2)) == list.len(),
    decreases list.len(),
{
    let n: nat = (t0 * t1 * t2) as nat;
    if list.len() == 0 {
        assert(marks(list, t0, t1, t2) =~= Seq::new(n, |m: int| false));
        count_set_none(n);
    } else {
        let rest: Seq<[usize; 3]> = list.drop_last();
        let cell: [usize; 3] = list.last();
        let last: int = list.len() - 1;
        assert(cell == list[last]);
        assert forall|r: int| 0 <= r < rest.len() implies (#[trigger] rest[r])[0] + 2 < t0
            && rest[r][1] + 2 < t1 && rest[r][2] + 2 < t2 by {
            assert(rest[r] == list[r]);
        }
        assert forall|r: int, q: int| 0 <= r < q < rest.len() implies (#[trigger] rest[r])@ != (
        #[trigger] rest[q])@ by {
            assert(rest[r] == list[r] && rest[q] == list[q]);
        }
        marks_are_counted(rest, t0, t1, t2);
        let (ci, cj, ck): (int, int, int) = (cell[0] + 1, cell[1] + 1, cell[2] + 1);
        flat_is_inside(ci, cj, ck, t0, t1, t2);
        flat_splits(ci, cj, ck, t1, t2);
        let number: int = flat(ci, cj, ck, t1, t2);
        let before: Seq<bool> = marks(rest, t0, t1, t2);
        if is_listed(rest, ci, cj, ck) {
            let w: int = choose|w: int|
                0 <= w < rest.len() && (#[trigger] rest[w])[0] + 1 == ci && rest[w][1] + 1 == cj
                    && rest[w][2] + 1 == ck;
            assert(rest[w]@ =~= cell@);
            assert(list[w]@ != list[last]@);
        }
        assert(!before[number]);
        count_set_update(before, number);
        assert forall|m: int| 0 <= m < n implies #[trigger] marks(list, t0, t1, t2)[m]
            == before.update(number, true)[m] by {
            flat_joins(m, t0, t1, t2);
            let (i, j, k): (int, int, int) = (
                first_of(m, t1, t2),
                second_of(m, t1, t2),
                third_of(m, t2),
            );
            if is_listed(rest, i, j, k) {
                let w: int = choose|w: int|
                    0 <= w < rest.len() && (#[trigger] rest[w])[0] + 1 == i && rest[w][1] + 1 == j
                        && rest[w][2] + 1 == k;
                assert(list[w] == rest[w]);
            }
            if m == number {
                assert(list[last][0] + 1 == i);
            } else if is_listed(list, i, j, k) {
                let w: int = choose|w: int|
                    0 <= w < list.len() && (#[trigger] list[w])[0] + 1 == i && list[w][1] + 1 == j
                        && list[w][2] + 1 == k;
                assert(w != last);
                assert(rest[w] == list[w]);
            }
        }
        assert(marks(list, t0, t1, t2) =~= before.update(number, true));
    }
}

/// A configuration that lists no cell twice gives seven leaves more than coarse
/// cells for each cell it lists, eight of them fine; of the local leaves there are
/// seven more than coarse cells of the domain.
pub proof fn listed_cells_add_leaves<S: Scalar>(cfg: ForestConfig<S>)
    requires
        cfg.can_build(),
        forall|r: int, q: int|
            0 <= r < q < cfg.refine@.len() ==> (#[trigger] cfg.refine@[r])@ != (
            #[trigger] cfg.refine@[q])@,
    ensures
        all_leaves(cfg.forest()).len() == coarse_count(cfg.forest()) + 7 * cfg.refine@.len(),
        coarse_count(cfg.forest()) == (cfg.ncx + 2) * (cfg.ncy + 2) * (cfg.ncz + 2),
        ForestMesh::<S>::fine_count(all_leaves(cfg.forest())) == 8 * cfg.refine@.len(),
        cfg.ncy >= 1 && cfg.ncz >= 1 ==> count_set(local_mask(all_leaves(cfg.forest())))
            == cfg.ncx * cfg.ncy * cfg.ncz + 7 * cfg.refine@.len(),
{
    let f: Forest<S> = cfg.forest();
    fine_leaves_are_counted(f);
    configured_ghosts_are_whole(cfg);
    if cfg.ncy >= 1 && cfg.ncz >= 1 {
        local_leaves_are_counted(f);
    }
    let (t0, t1, t2): (int, int, int) = (cfg.ncx + 2, cfg.ncy + 2, cfg.ncz + 2);
    assert(0 <= t0 * t1 * t2) by (nonlinear_arith)
        requires
            0 <= t0,
            0 <= t1,
            0 <= t2,
    ;
    leaves_are_counted(f);
    assert(f.refined =~= marks(cfg.refine@, t0, t1, t2));
    assert forall|r: int| 0 <= r < cfg.refine@.len() implies (#[trigger] cfg.refine@[r])[0] + 2
        < t0 && cfg.refine@[r][1] + 2 < t1 && cfg.refine@[r][2] + 2 < t2 by {}
    marks_are_counted(cfg.refine@, t0, t1, t2);
}

// ---------------------------------------------------------------------------
// Faces join leaves.
// ---------------------------------------------------------------------------

/// What a face of the forest joins: its owner is a local leaf, and the other leaf
/// is local too exactly where the face lies in the interior.
pub open spec fn is_forest_face<S>(leaves: Seq<Leaf<S>>, face: Face<S>) -> bool {
    &&& face.owner < leaves.len()
    &&& face.other < leaves.len()
    &&& face.owner != face.other
    &&& !leaves[face.owner as int].is_ghost
    &&& face.patch is None <==> !leaves[face.other as int].is_ghost
}

/// Every face joins two leaves: a local owner, and another local leaf or, on the
/// physical boundary, a ghost.
pub proof fn faces_join_leaves<S: Scalar>(f: Forest<S>, p: int)
    requires
        is_forest(f),
        0 <= p < forest_faces(f).len(),
    ensures
        is_forest_face(all_leaves(f), forest_faces(f)[p]),
{
    leaves_fit(f);
    faces_upto_join(f, slot_count(f), p);
}

/// The faces of the first `s` slots join leaves.
proof fn faces_upto_join<S: Scalar>(f: Forest<S>, s: int, p: int)
    requires
        is_forest(f),
        0 <= s <= slot_count(f),
        0 <= p < slot_faces_upto(f, s).len(),
    ensures
        is_forest_face(all_leaves(f), slot_faces_upto(f, s)[p]),
    decreases s,
{
    let before: Seq<Face<S>> = slot_faces_upto(f, s - 1);
    if p < before.len() {
        faces_upto_join(f, s - 1, p);
    } else {
        let (fi, fj, fk): (int, int, int) = slot_at(f, s - 1);
        let x: Seq<Face<S>> = slot_axis_faces(f, fi, fj, fk, 0);
        let y: Seq<Face<S>> = slot_axis_faces(f, fi, fj, fk, 1);
        let z: Seq<Face<S>> = slot_axis_faces(f, fi, fj, fk, 2);
        slot_is_inside(f, s - 1);
        let q: int = p - before.len();
        assert(slot_faces_upto(f, s)[p] == (x + y + z)[q]);
        if q < x.len() {
            slot_face_joins(f, fi, fj, fk, 0);
            assert(slot_faces_upto(f, s)[p] == x[0]);
        } else if q < x.len() + y.len() {
            slot_face_joins(f, fi, fj, fk, 1);
            assert(slot_faces_upto(f, s)[p] == y[0]);
        } else {
            slot_face_joins(f, fi, fj, fk, 2);
            assert(slot_faces_upto(f, s)[p] == z[0]);
        }
    }
}

/// The face is normal to `axis`, with the area of a sub-interface, and points out of
/// its owner; on the physical boundary its patch names the axis and the direction.
pub open spec fn points_outwards<S: Scalar>(f: Forest<S>, face: Face<S>, axis: int) -> bool {
    let area: S = sub_area(f, axis);
    ||| {
        &&& face.area_normal == axis_vector(axis, area)
        &&& face.patch is None || face.patch == Some((2 * axis + 1) as u32)
    }
    ||| {
        &&& face.area_normal == axis_vector(axis, area.negated_spec())
        &&& face.patch == Some((2 * axis) as u32)
    }
}

/// Every face is normal to one axis. Where it lies on the physical boundary, its
/// patch is twice the axis, and one more where the normal points up the axis.
pub proof fn patches_follow_the_normal<S: Scalar>(f: Forest<S>, p: int) -> (axis: int)
    requires
        is_forest(f),
        0 <= p < forest_faces(f).len(),
    ensures
        0 <= axis < 3,
        points_outwards(f, forest_faces(f)[p], axis),
        S::zero_spec().less_spec(sub_area(f, axis)) && !S::zero_spec().less_spec(
            sub_area(f, axis).negated_spec(),
        ) ==> (forest_faces(f)[p].patch matches Some(side) ==> side == 2 * axis + (
        if S::zero_spec().less_spec(forest_faces(f)[p].area_normal[axis]) {
            1int
        } else {
            0int
        })),
{
    leaves_fit(f);
    normals_upto(f, slot_count(f), p)
}

/// The faces of the first `s` slots point outwards.
proof fn normals_upto<S: Scalar>(f: Forest<S>, s: int, p: int) -> (axis: int)
    requires
        0 <= p < slot_faces_upto(f, s).len(),
    ensures
        0 <= axis < 3,
        points_outwards(f, slot_faces_upto(f, s)[p], axis),
    decreases s,
{
    let before: Seq<Face<S>> = slot_faces_upto(f, s - 1);
    if p < before.len() {
        normals_upto(f, s - 1, p)
    } else {
        let (fi, fj, fk): (int, int, int) = slot_at(f, s - 1);
        let x: Seq<Face<S>> = slot_axis_faces(f, fi, fj, fk, 0);
        let y: Seq<Face<S>> = slot_axis_faces(f, fi, fj, fk, 1);
        let z: Seq<Face<S>> = slot_axis_faces(f, fi, fj, fk, 2);
        let q: int = p - before.len();
        assert(slot_faces_upto(f, s)[p] == (x + y + z)[q]);
        if q < x.len() {
            0
        } else if q < x.len() + y.len() {
            1
        } else {
            2
        }
    }
}

/// The indices of slot number `s`.
pub open spec fn slot_at<S>(f: Forest<S>, s: int) -> (int, int, int) {
    (
        first_of(s, slot_total(f, 1), slot_total(f, 2)),
        second_of(s, slot_total(f, 1), slot_total(f, 2)),
        third_of(s, slot_total(f, 2)),
    )
}

/// The indices of a slot lie within the slot grid.
pub proof fn slot_is_inside<S>(f: Forest<S>, s: int)
    requires
        is_forest(f),
        0 <= s < slot_count(f),
    ensures
        0 <= slot_at(f, s).0 < slot_total(f, 0),
        0 <= slot_at(f, s).1 < slot_total(f, 1),
        0 <= slot_at(f, s).2 < slot_total(f, 2),
        flat(
            slot_at(f, s).0,
            slot_at(f, s).1,
            slot_at(f, s).2,
            slot_total(f, 1),
            slot_total(f, 2),
        ) == s,
{
    assert(f.nc[0] >= 0 && f.nc[1] >= 0 && f.nc[2] >= 0);
    flat_joins(s, slot_total(f, 0), slot_total(f, 1), slot_total(f, 2));
}

/// The face across the high side of a slot joins leaves.
proof fn slot_face_joins<S: Scalar>(f: Forest<S>, fi: int, fj: int, fk: int, axis: int)
    requires
        is_forest(f),
        0 <= fi < slot_total(f, 0),
        0 <= fj < slot_total(f, 1),
        0 <= fk < slot_total(f, 2),
        0 <= axis < 3,
        slot_axis_faces(f, fi, fj, fk, axis).len() > 0,
    ensures
        is_forest_face(all_leaves(f), slot_axis_faces(f, fi, fj, fk, axis)[0]),
{
    let (ni, nj, nk): (int, int, int) = next_slot(fi, fj, fk, axis);
    slot_has_leaf(f, fi, fj, fk);
    slot_has_leaf(f, ni, nj, nk);
}

/// The faces of the forest join different ones of its leaves, so that a scatter of
/// face fluxes over them conserves.
pub proof fn forest_faces_join_cells<S: Scalar>(f: Forest<S>)
    requires
        is_forest(f),
    ensures
        joins_cells(forest_faces(f), all_leaves(f).len()),
{
    assert forall|p: int| 0 <= p < forest_faces(f).len() implies {
        &&& (#[trigger] forest_faces(f)[p]).owner < all_leaves(f).len()
        &&& forest_faces(f)[p].other < all_leaves(f).len()
        &&& forest_faces(f)[p].owner != forest_faces(f)[p].other
    } by {
        faces_join_leaves(f, p);
    }
}

/// Whatever flux crosses each face, a two-sided scatter over the faces of the
/// forest conserves: the gains of all leaves and the outflow through the physical
/// boundary add up to zero.
pub proof fn forest_scatter_conserves<S: Scalar>(f: Forest<S>, flux: Seq<S>)
    requires
        is_ring::<S>(),
        is_forest(f),
        flux.len() == forest_faces(f).len(),
    ensures
        sum_of(
            Seq::new(all_leaves(f).len(), |c: int| net_flux(forest_faces(f), flux, c)),
        ).plus_spec(outflow(forest_faces(f), flux)) == S::zero_spec(),
{
    forest_faces_join_cells(f);
    scatter_telescopes(forest_faces(f), flux, all_leaves(f).len());
}

/// Every leaf is coarse or fine.
pub proof fn leaves_have_two_levels<S: Scalar>(f: Forest<S>, m: int, c: int)
    requires
        0 <= m,
        0 <= c < leaves_upto(f, m).len(),
    ensures
        leaves_upto(f, m)[c].level == 0 || leaves_upto(f, m)[c].level == 1,
    decreases m,
{
    let before: Seq<Leaf<S>> = leaves_upto(f, m - 1);
    if c < before.len() {
        leaves_have_two_levels(f, m - 1, c);
    }
}

/// A coarse/fine pair joins a coarse leaf to a fine one.
pub proof fn pairs_join_coarse_to_fine<S: Scalar>(f: Forest<S>, faces: Seq<Face<S>>, p: int)
    requires
        is_forest(f),
        forall|q: int|
            0 <= q < faces.len() ==> is_forest_face(all_leaves(f), #[trigger] faces[q]),
        0 <= p < pairs_of(all_leaves(f), faces).len(),
    ensures
        ({
            let pair: CoarseFineFace<S> = pairs_of(all_leaves(f), faces)[p];
            &&& pair.coarse < all_leaves(f).len()
            &&& pair.fine < all_leaves(f).len()
            &&& all_leaves(f)[pair.coarse as int].level == 0
            &&& all_leaves(f)[pair.fine as int].level == 1
        }),
    decreases faces.len(),
{
    let leaves: Seq<Leaf<S>> = all_leaves(f);
    let rest: Seq<Face<S>> = faces.drop_last();
    assert forall|q: int| 0 <= q < rest.len() implies is_forest_face(
        leaves,
        #[trigger] rest[q],
    ) by {
        assert(rest[q] == faces[q]);
    }
    let sub: Seq<CoarseFineFace<S>> = pairs_of(leaves, rest);
    if p < sub.len() {
        pairs_join_coarse_to_fine(f, rest, p);
    } else {
        let face: Face<S> = faces.last();
        assert(face == faces[faces.len() - 1]);
        leaves_fit(f);
        leaves_have_two_levels(f, coarse_count(f), face.owner as int);
        leaves_have_two_levels(f, coarse_count(f), face.other as int);
    }
}

// ---------------------------------------------------------------------------
// Closed control volumes.
// ---------------------------------------------------------------------------

/// Slot number `t` exists and is covered by leaf `c`.
spec fn covers<S>(f: Forest<S>, c: int, t: int) -> bool {
    let (fi, fj, fk): (int, int, int) = slot_at(f, t);
    0 <= t < slot_count(f) && slot_leaf(f, fi, fj, fk) == c
}

/// How many of the slots numbered below `n` leaf `c` covers.
spec fn covered_below<S>(f: Forest<S>, c: int, n: int) -> int
    decreases n,
{
    if n <= 0 {
        0
    } else {
        covered_below(f, c, n - 1) + (if covers(f, c, n - 1) {
            1int
        } else {
            0int
        })
    }
}

/// How far apart, in slot numbers, two slots beside each other along `axis` are.
spec fn stride<S>(f: Forest<S>, axis: int) -> int {
    if axis == 0 {
        slot_total(f, 1) * slot_total(f, 2)
    } else if axis == 1 {
        slot_total(f, 2)
    } else {
        1
    }
}

/// Strides are positive.
proof fn stride_is_positive<S>(f: Forest<S>, axis: int)
    requires
        is_forest(f),
        0 <= axis < 3,
    ensures
        1 <= stride(f, axis) <= slot_total(f, 1) * slot_total(f, 2),
{
    let (t1, t2): (int, int) = (slot_total(f, 1), slot_total(f, 2));
    assert(f.nc[1] >= 0 && f.nc[2] >= 0);
    assert(1 <= t2 && t2 <= t1 * t2) by (nonlinear_arith)
        requires
            1 <= t1,
            1 <= t2,
    ;
}

/// A slot in the outermost layer of some axis belongs to a ghost leaf.
proof fn outer_slots_are_ghosts<S: Scalar>(f: Forest<S>, t: int)
    requires
        is_forest(f),
        0 <= t < slot_count(f),
        ({
            let (fi, fj, fk): (int, int, int) = slot_at(f, t);
            ||| fi == 0 || fi == slot_total(f, 0) - 1
            ||| fj == 0 || fj == slot_total(f, 1) - 1
            ||| fk == 0 || fk == slot_total(f, 2) - 1
        }),
    ensures
        ({
            let (fi, fj, fk): (int, int, int) = slot_at(f, t);
            all_leaves(f)[slot_leaf(f, fi, fj, fk)].is_ghost
        }),
{
    let (fi, fj, fk): (int, int, int) = slot_at(f, t);
    slot_is_inside(f, t);
    slot_has_leaf(f, fi, fj, fk);
}

/// A local leaf covers none of the slots below the first stride, and none beyond
/// the last slot.
proof fn none_covered_at_ends<S: Scalar>(f: Forest<S>, c: int, axis: int, n: int)
    requires
        is_forest(f),
        0 <= axis < 3,
        0 <= c < all_leaves(f).len(),
        !all_leaves(f)[c].is_ghost,
        0 <= n,
    ensures
        n <= stride(f, axis) ==> covered_below(f, c, n) == 0,
        n >= slot_count(f) ==> covered_below(f, c, n) == covered_below(f, c, slot_count(f)),
    decreases n,
{
    let t1: int = slot_total(f, 1);
    let t2: int = slot_total(f, 2);
    assert(f.nc[0] >= 0 && f.nc[1] >= 0 && f.nc[2] >= 0);
    if n > 0 {
        none_covered_at_ends(f, c, axis, n - 1);
        if n <= stride(f, axis) && 0 <= n - 1 < slot_count(f) {
            let t: int = n - 1;
            stride_is_positive(f, axis);
            lemma_mul_is_commutative(t1, t2);
            vstd::arithmetic::div_mod::lemma_multiply_divide_lt(t, t2, t1);
            vstd::arithmetic::div_mod::lemma_div_pos_is_pos(t, t2);
            vstd::arithmetic::div_mod::lemma_basic_div(t / t2, t1);
            assert(slot_at(f, t).0 == 0);
            outer_slots_are_ghosts(f, t);
        }
    }
}

/// The slot one stride further is the next slot along `axis`; where there is none,
/// the slot with that number, if it exists, belongs to a ghost leaf.
proof fn stride_leads_on<S: Scalar>(f: Forest<S>, c: int, s: int, axis: int)
    requires
        is_forest(f),
        0 <= axis < 3,
        0 <= s < slot_count(f),
        0 <= c < all_leaves(f).len(),
        !all_leaves(f)[c].is_ghost,
    ensures
        ({
            let (fi, fj, fk): (int, int, int) = slot_at(f, s);
            let (ni, nj, nk): (int, int, int) = next_slot(fi, fj, fk, axis);
            if has_next(f, fi, fj, fk, axis) {
                covers(f, c, s + stride(f, axis)) <==> slot_leaf(f, ni, nj, nk) == c
            } else {
                !covers(f, c, s + stride(f, axis)) && !covers(f, c, s)
            }
        }),
{
    let (t0, t1, t2): (int, int, int) = (slot_total(f, 0), slot_total(f, 1), slot_total(f, 2));
    let (fi, fj, fk): (int, int, int) = slot_at(f, s);
    let (ni, nj, nk): (int, int, int) = next_slot(fi, fj, fk, axis);
    slot_is_inside(f, s);
    flat_steps(fi, fj, fk, t1, t2);
    assert(flat(ni, nj, nk, t1, t2) == s + stride(f, axis)) by {
        if axis == 0 {
            assert(((fi + 1) * t1 + fj) * t2 + fk == (fi * t1 + fj) * t2 + fk + t1 * t2)
                by (nonlinear_arith);
        } else if axis == 1 {
            assert((fi * t1 + (fj + 1)) * t2 + fk == (fi * t1 + fj) * t2 + fk + t2)
                by (nonlinear_arith);
        }
    }
    let next: int = s + stride(f, axis);
    if has_next(f, fi, fj, fk, axis) {
        flat_splits(ni, nj, nk, t1, t2);
        flat_is_inside(ni, nj, nk, t0, t1, t2);
    } else {
        outer_slots_are_ghosts(f, s);
        if 0 <= next < slot_count(f) {
            slot_is_inside(f, next);
            if axis == 0 {
                flat_splits(ni, nj, nk, t1, t2);
                assert(false);
            } else if axis == 1 {
                assert(nj == t1);
                assert(flat(fi, t1, fk, t1, t2) == flat(fi + 1, 0, fk, t1, t2)) by (nonlinear_arith)
                    requires
                        flat(fi, t1, fk, t1, t2) == (fi * t1 + t1) * t2 + fk,
                        flat(fi + 1, 0, fk, t1, t2) == ((fi + 1) * t1 + 0) * t2 + fk,
                ;
                flat_splits(fi + 1, 0, fk, t1, t2);
                outer_slots_are_ghosts(f, next);
            } else {
                assert(nk == t2);
                if fj + 1 < t1 {
                    flat_splits(fi, fj + 1, 0, t1, t2);
                } else {
                    flat_steps(fi, fj, 0, t1, t2);
                    flat_splits(fi + 1, 0, 0, t1, t2);
                }
                outer_slots_are_ghosts(f, next);
            }
        }
    }
}

/// Across the high side of slot number `s` along `axis`, a local leaf gains the
/// area of a sub-interface where it covers the next slot and loses it where it
/// covers slot `s`; along any other component nothing changes.
proof fn slot_area_counts<S: Scalar>(f: Forest<S>, c: int, s: int, axis: int, d: int, x: S)
    requires
        is_ring::<S>(),
        is_forest(f),
        0 <= axis < 3,
        0 <= d < 3,
        0 <= s < slot_count(f),
        0 <= c < all_leaves(f).len(),
        !all_leaves(f)[c].is_ghost,
    ensures
        ({
            let (fi, fj, fk): (int, int, int) = slot_at(f, s);
            let list: Seq<Face<S>> = slot_axis_faces(f, fi, fj, fk, axis);
            let after: S = if list.len() == 0 {
                x
            } else {
                after_face(x, list[0], list[0].area_normal[d], c)
            };
            let here: bool = covers(f, c, s);
            let there: bool = covers(f, c, s + stride(f, axis));
            &&& list.len() <= 1
            &&& after == (if axis != d || here == there {
                x
            } else if there {
                x.plus_spec(sub_area(f, axis))
            } else {
                x.minus_spec(sub_area(f, axis))
            })
        }),
{
    let (fi, fj, fk): (int, int, int) = slot_at(f, s);
    let (ni, nj, nk): (int, int, int) = next_slot(fi, fj, fk, axis);
    let a: S = sub_area(f, axis);
    let z: S = S::zero_spec();
    slot_is_inside(f, s);
    stride_leads_on(f, c, s, axis);
    slot_has_leaf(f, fi, fj, fk);
    minus_zero(x);
    plus_zero(x);
    minus_negated(x, a);
    if has_next(f, fi, fj, fk, axis) {
        slot_has_leaf(f, ni, nj, nk);
        let low: int = slot_leaf(f, fi, fj, fk);
        let high: int = slot_leaf(f, ni, nj, nk);
        leaves_fit(f);
        assert(covers(f, c, s) <==> low == c);
        assert(axis_vector(axis, a)[d] == (if axis == d { a } else { z }));
        assert(axis_vector(axis, a.negated_spec())[d] == (if axis == d {
            a.negated_spec()
        } else {
            z
        }));
    }
}

/// Over the faces of the first `s` slots, a local leaf has gained the area of as
/// many sub-interfaces as it covers slots one stride ahead, less those it covers
/// itself.
proof fn net_area_counts<S: Scalar>(f: Forest<S>, c: int, d: int, s: int)
    requires
        is_ring::<S>(),
        is_forest(f),
        0 <= d < 3,
        0 <= s <= slot_count(f),
        0 <= c < all_leaves(f).len(),
        !all_leaves(f)[c].is_ghost,
    ensures
        net_flux(slot_faces_upto(f, s), areas(slot_faces_upto(f, s), d), c) == multiple(
            covered_below(f, c, s + stride(f, d)) - covered_below(f, c, s),
            sub_area(f, d),
        ),
    decreases s,
{
    let a: S = sub_area(f, d);
    if s == 0 {
        stride_is_positive(f, d);
        none_covered_at_ends(f, c, d, stride(f, d));
    } else {
        let t: int = s - 1;
        net_area_counts(f, c, d, t);
        let (fi, fj, fk): (int, int, int) = slot_at(f, t);
        let before: Seq<Face<S>> = slot_faces_upto(f, t);
        let x: Seq<Face<S>> = slot_axis_faces(f, fi, fj, fk, 0);
        let y: Seq<Face<S>> = slot_axis_faces(f, fi, fj, fk, 1);
        let z: Seq<Face<S>> = slot_axis_faces(f, fi, fj, fk, 2);
        let v0: S = net_flux(before, areas(before, d), c);
        let v1: S = net_flux(before + x, areas(before + x, d), c);
        let v2: S = net_flux(before + x + y, areas(before + x + y, d), c);
        slot_area_counts(f, c, t, 0, d, v0);
        net_area_appends(before, x, d, c);
        slot_area_counts(f, c, t, 1, d, v1);
        net_area_appends(before + x, y, d, c);
        slot_area_counts(f, c, t, 2, d, v2);
        net_area_appends(before + x + y, z, d, c);
        assert(slot_faces_upto(f, s) =~= before + x + y + z);
        let k: int = covered_below(f, c, t + stride(f, d)) - covered_below(f, c, t);
        multiple_steps(k, a);
        assert(covered_below(f, c, s + stride(f, d)) == covered_below(f, c, t + stride(f, d)) + (
        if covers(f, c, t + stride(f, d)) {
            1int
        } else {
            0int
        })) by {
            stride_is_positive(f, d);
        }
    }
}

/// Every local leaf is a closed control volume: along each axis, the areas of its
/// faces cancel, across refinement boundaries too.
pub proof fn leaves_are_closed<S: Scalar>(f: Forest<S>, c: int, d: int)
    requires
        is_ring::<S>(),
        is_forest(f),
        0 <= d < 3,
        0 <= c < all_leaves(f).len(),
        !all_leaves(f)[c].is_ghost,
    ensures
        net_flux(forest_faces(f), areas(forest_faces(f), d), c) == S::zero_spec(),
{
    let n: int = slot_count(f);
    leaves_fit(f);
    net_area_counts(f, c, d, n);
    stride_is_positive(f, d);
    none_covered_at_ends(f, c, d, n + stride(f, d));
}

// ---------------------------------------------------------------------------
// Volumes.
// ---------------------------------------------------------------------------

/// The volume of a leaf.
pub open spec fn leaf_volume<S: Scalar>(leaf: Leaf<S>) -> S {
    leaf.size[0].times_spec(leaf.size[1]).times_spec(leaf.size[2])
}

/// The volume of a coarse cell.
pub open spec fn coarse_volume<S: Scalar>(f: Forest<S>) -> S {
    f.dc[0].times_spec(f.dc[1]).times_spec(f.dc[2])
}

/// The volumes of the local leaves of a list, added up in order.
pub open spec fn local_volume<S: Scalar>(leaves: Seq<Leaf<S>>) -> S
    decreases leaves.len(),
{
    if leaves.len() == 0 {
        S::zero_spec()
    } else {
        let rest: S = local_volume(leaves.drop_last());
        if leaves.last().is_ghost {
            rest
        } else {
            rest.plus_spec(leaf_volume(leaves.last()))
        }
    }
}

/// The two halves of every extent of a coarse cell make it up.
pub open spec fn halves_exactly<S: Scalar>(f: Forest<S>) -> bool {
    forall|a: int|
        0 <= a < 3 ==> (#[trigger] f.dc[a]).halved_spec().plus_spec(f.dc[a].halved_spec())
            == f.dc[a]
}

/// Coarse cells among the first `m` that are not ghosts.
pub open spec fn local_coarse<S>(f: Forest<S>, m: int) -> int
    decreases m,
{
    if m <= 0 {
        0
    } else {
        local_coarse(f, m - 1) + (if is_ghost_coarse(f, m - 1) {
            0int
        } else {
            1int
        })
    }
}

/// Adding the same number again doubles, in either grouping.
proof fn plus_doubles<S: Scalar>(x: S, v: S)
    requires
        is_ring::<S>(),
    ensures
        x.plus_spec(v).plus_spec(v) == x.plus_spec(v.plus_spec(v)),
{
    plus_associates(x, v, v);
}

/// Adding the volume of a child eight times adds the volume of the coarse cell.
proof fn eight_children_fill<S: Scalar>(f: Forest<S>, x: S)
    requires
        is_ring::<S>(),
        halves_exactly(f),
    ensures
        ({
            let v: S = f.dc[0].halved_spec().times_spec(f.dc[1].halved_spec()).times_spec(
                f.dc[2].halved_spec(),
            );
            x.plus_spec(v).plus_spec(v).plus_spec(v).plus_spec(v).plus_spec(v).plus_spec(
                v,
            ).plus_spec(v).plus_spec(v) == x.plus_spec(coarse_volume(f))
        }),
{
    let (h0, h1, h2): (S, S, S) = (
        f.dc[0].halved_spec(),
        f.dc[1].halved_spec(),
        f.dc[2].halved_spec(),
    );
    let p: S = h0.times_spec(h1);
    let v: S = p.times_spec(h2);
    assert(f.dc[0] == h0.plus_spec(h0));
    assert(f.dc[1] == h1.plus_spec(h1));
    assert(f.dc[2] == h2.plus_spec(h2));
    // The footprint is four quarters, the volume eight eighths.
    times_distributes(h0, h1, h1);
    let p2: S = p.plus_spec(p);
    assert(h0.times_spec(f.dc[1]) == p2);
    times_distributes(f.dc[1], h0, h0);
    let p4: S = p2.plus_spec(p2);
    assert(f.dc[0].times_spec(f.dc[1]) == p4);
    times_distributes(h2, p, p);
    let v2: S = v.plus_spec(v);
    assert(p2.times_spec(h2) == v2);
    times_distributes(h2, p2, p2);
    let v4: S = v2.plus_spec(v2);
    assert(p4.times_spec(h2) == v4);
    times_distributes(p4, h2, h2);
    let v8: S = v4.plus_spec(v4);
    assert(coarse_volume(f) == v8);
    let x2: S = x.plus_spec(v2);
    let x4: S = x.plus_spec(v4);
    plus_doubles(x, v);
    plus_doubles(x2, v);
    plus_doubles(x, v2);
    plus_doubles(x4, v);
    plus_doubles(x4.plus_spec(v2), v);
    plus_doubles(x4, v2);
    plus_doubles(x, v4);
}

/// The local volumes of the children of a coarse cell, one after the other.
proof fn children_volume<S: Scalar>(f: Forest<S>, before: Seq<Leaf<S>>, m: int, q: int)
    requires
        0 <= q <= 8,
    ensures
        ({
            let list: Seq<Leaf<S>> = before + Seq::new(q as nat, |i: int| child_leaf(f, m, i));
            let v: S = f.dc[0].halved_spec().times_spec(f.dc[1].halved_spec()).times_spec(
                f.dc[2].halved_spec(),
            );
            &&& is_ghost_coarse(f, m) ==> local_volume(list) == local_volume(before)
            &&& !is_ghost_coarse(f, m) && q == 0 ==> local_volume(list) == local_volume(before)
            &&& !is_ghost_coarse(f, m) && q > 0 ==> local_volume(list) == local_volume(
                before + Seq::new((q - 1) as nat, |i: int| child_leaf(f, m, i)),
            ).plus_spec(v)
        }),
    decreases q,
{
    let list: Seq<Leaf<S>> = before + Seq::new(q as nat, |i: int| child_leaf(f, m, i));
    if q == 0 {
        assert(list =~= before);
    } else {
        children_volume(f, before, m, q - 1);
        assert(list.drop_last() =~= before + Seq::new(
            (q - 1) as nat,
            |i: int| child_leaf(f, m, i),
        ));
        assert(list.last() == child_leaf(f, m, q - 1));
    }
}

/// The leaves of a coarse cell that is not a ghost have its volume.
proof fn coarse_leaves_volume<S: Scalar>(f: Forest<S>, before: Seq<Leaf<S>>, m: int)
    requires
        is_ring::<S>(),
        halves_exactly(f),
    ensures
        local_volume(before + coarse_leaves(f, m)) == (if is_ghost_coarse(f, m) {
            local_volume(before)
        } else {
            local_volume(before).plus_spec(coarse_volume(f))
        }),
{
    if f.refined[m] {
        children_volume(f, before, m, 0);
        children_volume(f, before, m, 1);
        children_volume(f, before, m, 2);
        children_volume(f, before, m, 3);
        children_volume(f, before, m, 4);
        children_volume(f, before, m, 5);
        children_volume(f, before, m, 6);
        children_volume(f, before, m, 7);
        children_volume(f, before, m, 8);
        eight_children_fill(f, local_volume(before));
    } else {
        let list: Seq<Leaf<S>> = before + coarse_leaves(f, m);
        assert(list.drop_last() =~= before);
        assert(list.last() == whole_leaf(f, m));
    }
}

/// The volumes of the local leaves add up to one coarse cell volume for each
/// coarse cell of the domain, whichever cells are refined.
pub proof fn volumes_tile_the_domain<S: Scalar>(f: Forest<S>, m: int)
    requires
        is_ring::<S>(),
        halves_exactly(f),
        0 <= m,
    ensures
        local_volume(leaves_upto(f, m)) == multiple(local_coarse(f, m), coarse_volume(f)),
    decreases m,
{
    if m > 0 {
        volumes_tile_the_domain(f, m - 1);
        coarse_leaves_volume(f, leaves_upto(f, m - 1), m - 1);
        multiple_steps(local_coarse(f, m - 1), coarse_volume(f));
    }
}

/// The coarse cells of the domain are as many as the product of the coarse counts.
pub proof fn coarse_cells_are_counted<S: Scalar>(f: Forest<S>)
    requires
        is_forest(f),
        f.nc[1] >= 1,
        f.nc[2] >= 1,
    ensures
        local_coarse(f, coarse_count(f)) == f.nc[0] * f.nc[1] * f.nc[2],
{
    let (t0, t1, t2): (int, int, int) = (
        coarse_total(f, 0),
        coarse_total(f, 1),
        coarse_total(f, 2),
    );
    assert(f.nc[0] >= 0);
    leaves_fit(f);
    let fill: spec_fn(int) -> S = |i: int| f.lo[0];
    let g: Grid<S> = Grid {
        ni: f.nc[0],
        nj: f.nc[1],
        nk: f.nc[2],
        ng: 1,
        dx: f.lo[0],
        dy: Seq::new(t1 as nat, fill),
        dz: Seq::new(t2 as nat, fill),
        y: Seq::new(t1 as nat, fill),
        z: Seq::new(t2 as nat, fill),
        origin: f.lo@,
        offset: seq![0int, 0int, 0int],
        neighbor: Seq::new(6, |s: int| -1int),
        beyond: Seq::new(6, |s: int| 0int),
    };
    assert(cell_count(g) == coarse_count(f));
    grid_fits(f);
    interior_is_counted(g);
    masks_agree(f, g, coarse_count(f));
    assert(interior_mask(g).take(coarse_count(f)) =~= interior_mask(g));
}

/// The counts of a forest are within the range of signed indices.
proof fn grid_fits<S: Scalar>(f: Forest<S>)
    requires
        is_forest(f),
    ensures
        coarse_total(f, 0) <= i64::MAX,
{
    let (t0, t1, t2): (int, int, int) = (
        coarse_total(f, 0),
        coarse_total(f, 1),
        coarse_total(f, 2),
    );
    assert(2 * t0 <= usize::MAX);
}

/// Counting the coarse cells that are not ghosts is counting interior cells.
proof fn masks_agree<S: Scalar>(f: Forest<S>, g: Grid<S>, m: int)
    requires
        is_forest(f),
        g.ni == f.nc[0],
        g.nj == f.nc[1],
        g.nk == f.nc[2],
        g.ng == 1,
        cell_count(g) == coarse_count(f),
        0 <= m <= coarse_count(f),
    ensures
        local_coarse(f, m) == count_set(interior_mask(g).take(m)),
    decreases m,
{
    let mask: Seq<bool> = interior_mask(g);
    if m > 0 {
        masks_agree(f, g, m - 1);
        assert(mask.take(m).drop_last() =~= mask.take(m - 1));
        assert(mask.take(m).last() == is_interior(g, m - 1));
        assert(is_interior(g, m - 1) == !is_ghost_coarse(f, m - 1));
    } else {
        assert(mask.take(0).len() == 0);
    }
}

} // verus!
