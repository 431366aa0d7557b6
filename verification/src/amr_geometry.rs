//! Where the leaves and the faces of a refined grid lie in space, in exact
//! arithmetic. Space is measured in slots, which are half a coarse cell wide along
//! each axis.

use crate::amr::Forest;
use crate::amr::ForestConfig;
use crate::amr::Leaf;
use crate::amr::all_leaves;
use crate::amr::child_center;
use crate::amr::coarse_corner;
use crate::amr::coarse_count;
use crate::amr::coarse_leaves;
use crate::amr::coarse_number;
use crate::amr::coarse_total;
use crate::amr::forest_faces;
use crate::amr::has_next;
use crate::amr::is_forest;
use crate::amr::is_listed;
use crate::amr::leaves_fit;
use crate::amr::leaves_stay;
use crate::amr::next_slot;
use crate::amr::pairs_of;
use crate::amr::slot_axis_faces;
use crate::amr::slot_center;
use crate::amr::slot_coarse;
use crate::amr::slot_corner;
use crate::amr::slot_count;
use crate::amr::slot_faces;
use crate::amr::slot_faces_upto;
use crate::amr::slot_has_leaf;
use crate::amr::slot_leaf;
use crate::amr::slot_total;
use crate::amr::sub_area;
use crate::amr::whole_center;
use crate::amr_laws::slot_at;
use crate::amr_laws::slot_is_inside;
use crate::extent_laws::halving_is_exact;
use crate::halves::difference_is;
use crate::halves::half_is_product;
use crate::halves::half_step_back;
use crate::halves::halves_make_a_whole;
use crate::halves::negated_product_cancels;
use crate::index::flat;
use crate::index::flat_is_inside;
use crate::index::flat_splits;
use crate::mesh::CoarseFineFace;
use crate::mesh::Face;
use crate::placement_laws::counts_add;
use crate::placement_laws::counts_exactly;
use crate::scalar::Scalar;
use crate::scalar::is_ring;
use crate::scalar::minus_restores;
use crate::scalar::plus_associates;
use crate::scalar::plus_commutes;
use crate::scalar::plus_zero;
use crate::scalar::times_associates;
use crate::scalar::times_commutes;
use crate::scalar::times_distributes;
use crate::scalar::times_one;
use crate::scalar::times_zero;
use vstd::prelude::*;

verus! {

/// Where slot `n` starts along `axis`: two slots lie below the lower bound of the
/// domain, and every slot is half a coarse cell wide.
pub open spec fn slot_edge<S: Scalar>(f: Forest<S>, axis: int, n: int) -> S {
    f.lo[axis].plus_spec(S::count_spec(n - 2).times_spec(f.dc[axis].halved_spec()))
}

/// The index of a slot along `axis`.
pub open spec fn slot_index(s: (int, int, int), axis: int) -> int {
    if axis == 0 {
        s.0
    } else if axis == 1 {
        s.1
    } else {
        s.2
    }
}

/// The slot lies within the slot grid.
pub open spec fn is_slot<S>(f: Forest<S>, s: (int, int, int)) -> bool {
    forall|a: int| 0 <= a < 3 ==> 0 <= #[trigger] slot_index(s, a) < slot_total(f, a)
}

/// The slot lies in the domain, not in the coarse cells around it.
pub open spec fn is_in_domain<S>(f: Forest<S>, s: (int, int, int)) -> bool {
    forall|a: int| 0 <= a < 3 ==> 2 <= #[trigger] slot_index(s, a) < slot_total(f, a) - 2
}

/// The coarse cell of the slot, halo included, is refined.
pub open spec fn is_fine_slot<S>(f: Forest<S>, s: (int, int, int)) -> bool {
    f.refined[coarse_number(f, s.0 / 2, s.1 / 2, s.2 / 2)]
}

/// The leaf fills the slots from `from` to `to` along `axis`.
pub open spec fn fills<S: Scalar>(
    f: Forest<S>,
    leaf: Leaf<S>,
    axis: int,
    from: int,
    to: int,
) -> bool {
    let half: S = leaf.size[axis].halved_spec();
    &&& leaf.center[axis].minus_spec(half) == slot_edge(f, axis, from)
    &&& leaf.center[axis].plus_spec(half) == slot_edge(f, axis, to)
}

/// The leaf lies over the slot: a fine leaf fills the slot, a coarse one the two
/// slots, along each axis, of the coarse cell that the slot is part of.
pub open spec fn lies_over<S: Scalar>(f: Forest<S>, leaf: Leaf<S>, s: (int, int, int)) -> bool {
    forall|a: int|
        0 <= a < 3 ==> {
            let i: int = #[trigger] slot_index(s, a);
            if leaf.level == 1 {
                fills(f, leaf, a, i, i + 1)
            } else {
                fills(f, leaf, a, i - i % 2, i - i % 2 + 2)
            }
        }
}

/// The corner of coarse cell `i` is where its first slot starts.
proof fn corner_is_edge<S: Scalar>(f: Forest<S>, axis: int, i: int)
    requires
        is_ring::<S>(),
        halving_is_exact::<S>(),
        counts_exactly::<S>(),
        0 <= axis < 3,
    ensures
        coarse_corner(f.lo[axis], f.dc[axis], i) == slot_edge(f, axis, 2 * i),
{
    let (lo, d): (S, S) = (f.lo[axis], f.dc[axis]);
    let h: S = d.halved_spec();
    let c: S = S::count_spec(i - 1);
    counts_add::<S>(i - 1, 1);
    assert((i - 1) + 1 == i);
    difference_is(S::count_spec(i), S::count_spec(1), c);
    halves_make_a_whole(d);
    times_distributes(c, h, h);
    times_distributes(h, c, c);
    counts_add::<S>(i - 1, i - 1);
    assert((i - 1) + (i - 1) == 2 * i - 2);
}

/// `s` slots further on.
proof fn edge_steps<S: Scalar>(f: Forest<S>, axis: int, n: int, s: int)
    requires
        is_ring::<S>(),
        counts_exactly::<S>(),
        0 <= axis < 3,
    ensures
        slot_edge(f, axis, n).plus_spec(
            S::count_spec(s).times_spec(f.dc[axis].halved_spec()),
        ) == slot_edge(f, axis, n + s),
{
    let h: S = f.dc[axis].halved_spec();
    let (a, b): (S, S) = (S::count_spec(n - 2), S::count_spec(s));
    counts_add::<S>(n - 2, s);
    assert((n - 2) + s == n + s - 2);
    times_distributes(h, a, b);
    plus_associates(f.lo[axis], a.times_spec(h), b.times_spec(h));
}

/// The next edge is one slot further on.
proof fn edge_steps_once<S: Scalar>(f: Forest<S>, axis: int, n: int)
    requires
        is_ring::<S>(),
        counts_exactly::<S>(),
        0 <= axis < 3,
    ensures
        slot_edge(f, axis, n).plus_spec(f.dc[axis].halved_spec()) == slot_edge(f, axis, n + 1),
{
    edge_steps(f, axis, n, 1);
    assert(S::count_spec(1) == S::one_spec()) by {
        reveal(counts_exactly);
    }
    times_one(f.dc[axis].halved_spec());
}

/// The center of slot `s` of coarse cell `i` is half a slot from either end of it.
proof fn child_center_is<S: Scalar>(f: Forest<S>, axis: int, i: int, s: int)
    requires
        is_ring::<S>(),
        halving_is_exact::<S>(),
        counts_exactly::<S>(),
        0 <= axis < 3,
    ensures
        ({
            let h: S = f.dc[axis].halved_spec();
            let c: S = child_center(f.lo[axis], f.dc[axis], i, s);
            &&& c == slot_edge(f, axis, 2 * i + s).plus_spec(h.halved_spec())
            &&& c.minus_spec(h.halved_spec()) == slot_edge(f, axis, 2 * i + s)
            &&& c.plus_spec(h.halved_spec()) == slot_edge(f, axis, 2 * i + s + 1)
        }),
{
    let h: S = f.dc[axis].halved_spec();
    let half: S = S::one_spec().halved_spec();
    let b: S = S::count_spec(s);
    corner_is_edge(f, axis, i);
    times_distributes(h, b, half);
    half_is_product(h);
    plus_associates(slot_edge(f, axis, 2 * i), b.times_spec(h), h.halved_spec());
    edge_steps(f, axis, 2 * i, s);
    half_step_back(slot_edge(f, axis, 2 * i + s), h);
    edge_steps_once(f, axis, 2 * i + s);
}

/// The center of coarse cell `i` is half a cell from either end of it.
proof fn whole_center_is<S: Scalar>(f: Forest<S>, axis: int, i: int)
    requires
        is_ring::<S>(),
        halving_is_exact::<S>(),
        counts_exactly::<S>(),
        0 <= axis < 3,
    ensures
        ({
            let h: S = f.dc[axis].halved_spec();
            let c: S = whole_center(f.lo[axis], f.dc[axis], i);
            &&& c.minus_spec(h) == slot_edge(f, axis, 2 * i)
            &&& c.plus_spec(h) == slot_edge(f, axis, 2 * i + 2)
        }),
{
    let h: S = f.dc[axis].halved_spec();
    corner_is_edge(f, axis, i);
    half_step_back(slot_edge(f, axis, 2 * i), f.dc[axis]);
    edge_steps_once(f, axis, 2 * i);
    edge_steps_once(f, axis, 2 * i + 1);
    plus_associates(slot_edge(f, axis, 2 * i), h, h);
}

/// Every slot has its leaf, and the leaf lies over the slot along x, y and z: fine
/// where the coarse cell of the slot is refined, coarse elsewhere. It is a ghost
/// where the slot is outside of the domain.
pub proof fn leaves_lie_over_their_slots<S: Scalar>(f: Forest<S>, s: (int, int, int))
    requires
        is_ring::<S>(),
        halving_is_exact::<S>(),
        counts_exactly::<S>(),
        is_forest(f),
        is_slot(f, s),
    ensures
        ({
            let c: int = slot_leaf(f, s.0, s.1, s.2);
            let leaf: Leaf<S> = all_leaves(f)[c];
            &&& 0 <= c < all_leaves(f).len()
            &&& leaf.level == (if is_fine_slot(f, s) {
                1u8
            } else {
                0u8
            })
            &&& leaf.is_ghost == !is_in_domain(f, s)
            &&& lies_over(f, leaf, s)
        }),
{
    let (i, j, k): (int, int, int) = s;
    assert(0 <= slot_index(s, 0) && 0 <= slot_index(s, 1) && 0 <= slot_index(s, 2));
    slot_has_leaf(f, i, j, k);
    let m: int = slot_coarse(f, i, j, k);
    let (x, y, z): (int, int, int) = (i % 2, j % 2, k % 2);
    flat_is_inside(x, y, z, 2, 2, 2);
    flat_splits(x, y, z, 2, 2);
    let q: int = if f.refined[m] {
        flat(x, y, z, 2, 2)
    } else {
        0
    };
    leaves_stay(f, m, coarse_count(f), q);
    let leaf: Leaf<S> = all_leaves(f)[slot_leaf(f, i, j, k)];
    assert(leaf == coarse_leaves(f, m)[q]);
    if is_in_domain(f, s) {
        assert(2 <= slot_index(s, 0) && 2 <= slot_index(s, 1) && 2 <= slot_index(s, 2));
    }
    if f.refined[m] {
        child_center_is(f, 0, i / 2, x);
        child_center_is(f, 1, j / 2, y);
        child_center_is(f, 2, k / 2, z);
        assert(fills(f, leaf, 0, i, i + 1));
        assert(fills(f, leaf, 1, j, j + 1));
        assert(fills(f, leaf, 2, k, k + 1));
    } else {
        whole_center_is(f, 0, i / 2);
        whole_center_is(f, 1, j / 2);
        whole_center_is(f, 2, k / 2);
        assert(fills(f, leaf, 0, i - i % 2, i - i % 2 + 2));
        assert(fills(f, leaf, 1, j - j % 2, j - j % 2 + 2));
        assert(fills(f, leaf, 2, k - k % 2, k - k % 2 + 2));
    }
}

/// The slots of the domain start at its lower bound and end at its upper bound, where
/// the extent of the domain divides evenly into the coarse cells.
pub proof fn slots_span_the_domain<S: Scalar>(cfg: ForestConfig<S>, axis: int)
    requires
        is_ring::<S>(),
        halving_is_exact::<S>(),
        counts_exactly::<S>(),
        0 <= axis < 3,
        ({
            let (lo, hi): (S, S) = (cfg.bounds_lo[axis], cfg.bounds_hi[axis]);
            let n: S = S::count_spec(
                if axis == 0 {
                    cfg.ncx as int
                } else if axis == 1 {
                    cfg.ncy as int
                } else {
                    cfg.ncz as int
                },
            );
            n.times_spec(hi.minus_spec(lo).over_spec(n)) == hi.minus_spec(lo)
        }),
    ensures
        slot_edge(cfg.forest(), axis, 2) == cfg.bounds_lo[axis],
        slot_edge(cfg.forest(), axis, slot_total(cfg.forest(), axis) - 2) == cfg.bounds_hi[axis],
{
    let f: Forest<S> = cfg.forest();
    let (lo, hi): (S, S) = (cfg.bounds_lo[axis], cfg.bounds_hi[axis]);
    let (d, n): (S, int) = (f.dc[axis], f.nc[axis]);
    let h: S = d.halved_spec();
    assert(S::count_spec(0) == S::zero_spec()) by {
        reveal(counts_exactly);
    }
    times_zero(h);
    plus_zero(lo);
    let c: S = S::count_spec(n);
    halves_make_a_whole(d);
    times_distributes(c, h, h);
    times_distributes(h, c, c);
    counts_add::<S>(n, n);
    assert(n + n == slot_total(f, axis) - 2 - 2);
    minus_restores(hi, lo);
    plus_commutes(hi.minus_spec(lo), lo);
}

/// The coarse cells that are refined are those that the configuration lists, counted
/// from the first cell of the domain.
pub proof fn listed_cells_are_refined<S: Scalar>(cfg: ForestConfig<S>, i: int, j: int, k: int)
    requires
        cfg.can_build(),
        -1 <= i <= cfg.ncx,
        -1 <= j <= cfg.ncy,
        -1 <= k <= cfg.ncz,
    ensures
        cfg.forest().refined[coarse_number(cfg.forest(), i + 1, j + 1, k + 1)] <==> exists|
            r: int,
        |
            0 <= r < cfg.refine@.len() && (#[trigger] cfg.refine@[r])[0] == i && cfg.refine@[r][1]
                == j && cfg.refine@[r][2] == k,
{
    let f: Forest<S> = cfg.forest();
    let (t0, t1, t2): (int, int, int) = (
        coarse_total(f, 0),
        coarse_total(f, 1),
        coarse_total(f, 2),
    );
    flat_is_inside(i + 1, j + 1, k + 1, t0, t1, t2);
    flat_splits(i + 1, j + 1, k + 1, t1, t2);
    let m: int = coarse_number(f, i + 1, j + 1, k + 1);
    assert(f.refined[m] == is_listed(cfg.refine@, i + 1, j + 1, k + 1));
    if is_listed(cfg.refine@, i + 1, j + 1, k + 1) {
        let r: int = choose|r: int|
            0 <= r < cfg.refine@.len() && (#[trigger] cfg.refine@[r])[0] + 1 == i + 1
                && cfg.refine@[r][1] + 1 == j + 1 && cfg.refine@[r][2] + 1 == k + 1;
        assert(cfg.refine@[r][0] == i);
    }
}

/// The slot after `s` along `axis`.
pub open spec fn slot_after(s: (int, int, int), axis: int) -> (int, int, int) {
    (
        s.0 + (if axis == 0 {
            1int
        } else {
            0
        }),
        s.1 + (if axis == 1 {
            1int
        } else {
            0
        }),
        s.2 + (if axis == 2 {
            1int
        } else {
            0
        }),
    )
}

/// The face is the interface of slot `s` and the slot after it along `axis`: it lies
/// where the one ends, in the middle of the slot along the other axes. Its normal is
/// along `axis` alone, and spans with the width of the slot the volume of the slot.
/// It leads up where the owner lies over the lower slot and down where it lies over
/// the upper one, and it is a boundary face where the other cell is outside of the
/// domain.
pub open spec fn is_interface<S: Scalar>(
    f: Forest<S>,
    face: Face<S>,
    s: (int, int, int),
    axis: int,
) -> bool {
    let leaves: Seq<Leaf<S>> = all_leaves(f);
    let next: (int, int, int) = slot_after(s, axis);
    let (h0, h1, h2): (S, S, S) = (
        f.dc[0].halved_spec(),
        f.dc[1].halved_spec(),
        f.dc[2].halved_spec(),
    );
    let volume: S = h0.times_spec(h1).times_spec(h2);
    let swept: S = face.area_normal[axis].times_spec(f.dc[axis].halved_spec());
    let n: int = slot_index(s, axis);
    &&& face.centroid[axis] == slot_edge(f, axis, n + 1)
    &&& forall|a: int|
        0 <= a < 3 && a != axis ==> {
            let quarter: S = f.dc[a].halved_spec().halved_spec();
            &&& (#[trigger] face.centroid[a]).minus_spec(quarter) == slot_edge(
                f,
                a,
                slot_index(s, a),
            )
            &&& face.centroid[a].plus_spec(quarter) == slot_edge(f, a, slot_index(s, a) + 1)
            &&& face.area_normal[a] == S::zero_spec()
        }
    &&& {
        ||| {
            &&& lies_over(f, leaves[face.owner as int], s)
            &&& lies_over(f, leaves[face.other as int], next)
            &&& swept == volume
            &&& face.patch == (if n + 1 >= slot_total(f, axis) - 2 {
                Some((2 * axis + 1) as u32)
            } else {
                None
            })
        }
        ||| {
            &&& lies_over(f, leaves[face.owner as int], next)
            &&& lies_over(f, leaves[face.other as int], s)
            &&& volume.plus_spec(swept) == S::zero_spec()
            &&& n < 2
            &&& face.patch == Some((2 * axis) as u32)
        }
    }
}

/// Every face of the forest is the interface of two slots next to each other, between
/// the leaves that lie over them.
pub proof fn faces_are_interfaces<S: Scalar>(f: Forest<S>, p: int) -> (r: (
    (int, int, int),
    int,
))
    requires
        is_ring::<S>(),
        halving_is_exact::<S>(),
        counts_exactly::<S>(),
        is_forest(f),
        0 <= p < forest_faces(f).len(),
    ensures
        0 <= r.1 < 3,
        is_slot(f, r.0),
        is_slot(f, slot_after(r.0, r.1)),
        is_interface(f, forest_faces(f)[p], r.0, r.1),
{
    leaves_fit(f);
    let (s, axis): (int, int) = face_slot(f, slot_count(f), p);
    slot_is_inside(f, s);
    let at: (int, int, int) = slot_at(f, s);
    slot_faces_are_interfaces(f, at, axis);
    (at, axis)
}

/// The slot and the axis that face `p` comes from.
proof fn face_slot<S: Scalar>(f: Forest<S>, n: int, p: int) -> (r: (int, int))
    requires
        0 <= p < slot_faces_upto(f, n).len(),
    ensures
        0 <= r.0 < n,
        0 <= r.1 < 3,
        ({
            let (fi, fj, fk): (int, int, int) = slot_at(f, r.0);
            slot_axis_faces(f, fi, fj, fk, r.1) == seq![slot_faces_upto(f, n)[p]]
        }),
    decreases n,
{
    let before: Seq<Face<S>> = slot_faces_upto(f, n - 1);
    if p < before.len() {
        face_slot(f, n - 1, p)
    } else {
        let (fi, fj, fk): (int, int, int) = slot_at(f, n - 1);
        let x: Seq<Face<S>> = slot_axis_faces(f, fi, fj, fk, 0);
        let y: Seq<Face<S>> = slot_axis_faces(f, fi, fj, fk, 1);
        let z: Seq<Face<S>> = slot_axis_faces(f, fi, fj, fk, 2);
        let q: int = p - before.len();
        assert(slot_faces_upto(f, n)[p] == (x + y + z)[q]);
        if q < x.len() {
            assert(x[0] == slot_faces_upto(f, n)[p]);
            (n - 1, 0)
        } else if q < x.len() + y.len() {
            assert(y[0] == slot_faces_upto(f, n)[p]);
            (n - 1, 1)
        } else {
            assert(z[0] == slot_faces_upto(f, n)[p]);
            (n - 1, 2)
        }
    }
}

/// Along an axis, the corner and the center of a slot.
proof fn slot_places<S: Scalar>(f: Forest<S>, axis: int, n: int)
    requires
        is_ring::<S>(),
        halving_is_exact::<S>(),
        counts_exactly::<S>(),
        0 <= axis < 3,
    ensures
        slot_corner(f.lo[axis], f.dc[axis], n) == slot_edge(f, axis, n),
        ({
            let quarter: S = f.dc[axis].halved_spec().halved_spec();
            let c: S = slot_center(f.lo[axis], f.dc[axis], n);
            &&& c.minus_spec(quarter) == slot_edge(f, axis, n)
            &&& c.plus_spec(quarter) == slot_edge(f, axis, n + 1)
        }),
{
    corner_is_edge(f, axis, n / 2);
    edge_steps(f, axis, 2 * (n / 2), n % 2);
    child_center_is(f, axis, n / 2, n % 2);
    assert(2 * (n / 2) + n % 2 == n);
}

/// The area of a sub-interface times the width of a slot across it is the volume of
/// a slot.
proof fn sub_area_sweeps<S: Scalar>(f: Forest<S>, axis: int)
    requires
        is_ring::<S>(),
        0 <= axis < 3,
    ensures
        ({
            let volume: S = f.dc[0].halved_spec().times_spec(f.dc[1].halved_spec()).times_spec(
                f.dc[2].halved_spec(),
            );
            let (area, h): (S, S) = (sub_area(f, axis), f.dc[axis].halved_spec());
            &&& area.times_spec(h) == volume
            &&& volume.plus_spec(area.negated_spec().times_spec(h)) == S::zero_spec()
        }),
{
    let (x, y, z): (S, S, S) = (
        f.dc[0].halved_spec(),
        f.dc[1].halved_spec(),
        f.dc[2].halved_spec(),
    );
    let area: S = sub_area(f, axis);
    negated_product_cancels(area, f.dc[axis].halved_spec());
    times_associates(x, y, z);
    if axis == 0 {
        assert(area == y.times_spec(z));
        times_commutes(y.times_spec(z), x);
    } else if axis == 1 {
        assert(area == z.times_spec(x));
        times_commutes(z, x);
        times_associates(x, z, y);
        times_commutes(z, y);
    } else {
        assert(area == x.times_spec(y));
    }
}

/// The face of a slot towards the next one along `axis`, where there is one.
proof fn slot_faces_are_interfaces<S: Scalar>(f: Forest<S>, s: (int, int, int), axis: int)
    requires
        is_ring::<S>(),
        halving_is_exact::<S>(),
        counts_exactly::<S>(),
        is_forest(f),
        0 <= s.0 < slot_total(f, 0),
        0 <= s.1 < slot_total(f, 1),
        0 <= s.2 < slot_total(f, 2),
        0 <= axis < 3,
        slot_axis_faces(f, s.0, s.1, s.2, axis).len() > 0,
    ensures
        is_slot(f, s),
        is_slot(f, slot_after(s, axis)),
        is_interface(f, slot_axis_faces(f, s.0, s.1, s.2, axis)[0], s, axis),
{
    let next: (int, int, int) = slot_after(s, axis);
    assert(next == next_slot(s.0, s.1, s.2, axis));
    assert(has_next(f, s.0, s.1, s.2, axis));
    leaves_lie_over_their_slots(f, s);
    leaves_lie_over_their_slots(f, next);
    slot_has_leaf(f, s.0, s.1, s.2);
    slot_has_leaf(f, next.0, next.1, next.2);
    slot_places(f, 0, s.0);
    slot_places(f, 1, s.1);
    slot_places(f, 2, s.2);
    slot_places(f, axis, slot_index(s, axis) + 1);
    sub_area_sweeps(f, axis);
    let face: Face<S> = slot_axis_faces(f, s.0, s.1, s.2, axis)[0];
    assert forall|a: int| 0 <= a < 3 && a != axis implies {
        let quarter: S = f.dc[a].halved_spec().halved_spec();
        &&& (#[trigger] face.centroid[a]).minus_spec(quarter) == slot_edge(f, a, slot_index(s, a))
        &&& face.centroid[a].plus_spec(quarter) == slot_edge(f, a, slot_index(s, a) + 1)
        &&& face.area_normal[a] == S::zero_spec()
    } by {}
}

/// The interfaces of two slots next to each other are all there: where different
/// leaves lie over them, and one of the two slots at least is in the domain, some
/// face is their interface.
pub proof fn every_interface_has_a_face<S: Scalar>(
    f: Forest<S>,
    s: (int, int, int),
    axis: int,
) -> (p: int)
    requires
        is_ring::<S>(),
        halving_is_exact::<S>(),
        counts_exactly::<S>(),
        is_forest(f),
        0 <= axis < 3,
        is_slot(f, s),
        is_slot(f, slot_after(s, axis)),
        is_in_domain(f, s) || is_in_domain(f, slot_after(s, axis)),
        ({
            let next: (int, int, int) = slot_after(s, axis);
            slot_leaf(f, s.0, s.1, s.2) != slot_leaf(f, next.0, next.1, next.2)
        }),
    ensures
        0 <= p < forest_faces(f).len(),
        is_interface(f, forest_faces(f)[p], s, axis),
{
    let next: (int, int, int) = slot_after(s, axis);
    assert(next == next_slot(s.0, s.1, s.2, axis));
    leaves_lie_over_their_slots(f, s);
    leaves_lie_over_their_slots(f, next);
    assert(0 <= slot_index(s, 0) && 0 <= slot_index(s, 1) && 0 <= slot_index(s, 2));
    assert(slot_index(next, 0) < slot_total(f, 0) && slot_index(next, 1) < slot_total(f, 1)
        && slot_index(next, 2) < slot_total(f, 2));
    flat_is_inside(s.0, s.1, s.2, slot_total(f, 0), slot_total(f, 1), slot_total(f, 2));
    flat_splits(s.0, s.1, s.2, slot_total(f, 1), slot_total(f, 2));
    let t: int = flat(s.0, s.1, s.2, slot_total(f, 1), slot_total(f, 2));
    assert(slot_at(f, t) == s);
    slot_faces_are_interfaces(f, s, axis);
    slot_face_is_listed(f, slot_count(f), t, axis)
}

/// A face of slot `t` stands among the faces of the first `n` slots.
proof fn slot_face_is_listed<S: Scalar>(f: Forest<S>, n: int, t: int, axis: int) -> (p: int)
    requires
        0 <= t < n,
        0 <= axis < 3,
        slot_axis_faces(f, slot_at(f, t).0, slot_at(f, t).1, slot_at(f, t).2, axis).len() > 0,
    ensures
        0 <= p < slot_faces_upto(f, n).len(),
        slot_faces_upto(f, n)[p] == slot_axis_faces(
            f,
            slot_at(f, t).0,
            slot_at(f, t).1,
            slot_at(f, t).2,
            axis,
        )[0],
    decreases n,
{
    let before: Seq<Face<S>> = slot_faces_upto(f, n - 1);
    if t < n - 1 {
        slot_face_is_listed(f, n - 1, t, axis)
    } else {
        let (fi, fj, fk): (int, int, int) = slot_at(f, t);
        let x: Seq<Face<S>> = slot_axis_faces(f, fi, fj, fk, 0);
        let y: Seq<Face<S>> = slot_axis_faces(f, fi, fj, fk, 1);
        let z: Seq<Face<S>> = slot_axis_faces(f, fi, fj, fk, 2);
        let q: int = if axis == 0 {
            0
        } else if axis == 1 {
            x.len() as int
        } else {
            (x.len() + y.len()) as int
        };
        assert(slot_faces(f, t) == x + y + z);
        assert((x + y + z)[q] == slot_axis_faces(f, fi, fj, fk, axis)[0]);
        before.len() + q
    }
}

/// The two cells of the face have different levels.
pub open spec fn is_uneven<S>(leaves: Seq<Leaf<S>>, face: Face<S>) -> bool {
    leaves[face.owner as int].level != leaves[face.other as int].level
}

/// The pair is that of the face: it names its two cells, the one at the lower level as
/// the coarse one, and has its place and area.
pub open spec fn is_pair_of_face<S>(
    leaves: Seq<Leaf<S>>,
    pair: CoarseFineFace<S>,
    face: Face<S>,
) -> bool {
    &&& leaves[pair.coarse as int].level < leaves[pair.fine as int].level
    &&& (pair.coarse == face.owner && pair.fine == face.other) || (pair.coarse == face.other
        && pair.fine == face.owner)
    &&& pair.area_normal == face.area_normal
    &&& pair.centroid == face.centroid
}

/// The coarse/fine pairs are the faces between leaves of different levels, all of
/// them, once and in order.
pub proof fn pairs_are_the_uneven_faces<S: Scalar>(leaves: Seq<Leaf<S>>, faces: Seq<Face<S>>)
    requires
        forall|c: int| 0 <= c < leaves.len() ==> (#[trigger] leaves[c]).level <= 1,
        forall|q: int|
            0 <= q < faces.len() ==> (#[trigger] faces[q]).owner < leaves.len() && faces[q].other
                < leaves.len(),
    ensures
        ({
            let uneven: Seq<Face<S>> = faces.filter(|f: Face<S>| is_uneven(leaves, f));
            let pairs: Seq<CoarseFineFace<S>> = pairs_of(leaves, faces);
            &&& pairs.len() == uneven.len()
            &&& forall|p: int|
                0 <= p < pairs.len() ==> is_pair_of_face(leaves, #[trigger] pairs[p], uneven[p])
        }),
    decreases faces.len(),
{
    reveal(Seq::filter);
    if faces.len() > 0 {
        let rest: Seq<Face<S>> = faces.drop_last();
        assert forall|q: int| 0 <= q < rest.len() implies (#[trigger] rest[q]).owner < leaves.len()
            && rest[q].other < leaves.len() by {
            assert(rest[q] == faces[q]);
        }
        pairs_are_the_uneven_faces(leaves, rest);
        assert(faces[faces.len() - 1] == faces.last());
        let face: Face<S> = faces.last();
        assert(leaves[face.owner as int].level <= 1 && leaves[face.other as int].level <= 1);
    }
}

} // verus!
