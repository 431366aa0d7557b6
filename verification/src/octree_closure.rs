//! Every leaf of a forest of octrees is a closed control volume: whatever stands on
//! the other side of its six sides, the areas of its faces cancel.

use crate::flux::after_face;
use crate::flux::areas;
use crate::flux::minus_is_plus_negated;
use crate::flux::minus_zero;
use crate::flux::net_area_appends;
use crate::flux::net_flux;
use crate::forest::FinerSet;
use crate::forest::NeighborSet;
use crate::mesh::Face;
use crate::mesh::Vec3;
use crate::octree::Cell;
use crate::octree::Octants;
use crate::octree::all_cells;
use crate::octree::all_faces;
use crate::octree::base_cells;
use crate::octree::faces_of_side;
use crate::octree::faces_upto;
use crate::octree::ghost_cell;
use crate::octree::has_all_sides;
use crate::octree::leaf_face;
use crate::octree::side_axis;
use crate::octree::side_face;
use crate::octree::side_sign;
use crate::octree::slot_face;
use crate::octree::slot_faces;
use crate::octree_laws::boundary_faces_lead_to_mirrored_cells;
use crate::octree_laws::four_fine_faces_cover_a_coarse_face;
use crate::octree_laws::side_area;
use crate::scalar::Scalar;
use crate::scalar::is_ring;
use crate::scalar::minus_restores;
use crate::scalar::negated_cancels;
use crate::scalar::plus_associates;
use crate::scalar::plus_cancels;
use crate::scalar::plus_commutes;
use crate::scalar::plus_zero;
use crate::scalar::times_distributes;
use crate::scalar::times_zero;
use crate::sums::one_term_remains;
use crate::sums::sum_over;
use crate::sums::sums_agree;
use crate::sums::sums_swap;
use crate::sums::zeros_vanish;
use vstd::prelude::*;

verus! {

// ---------------------------------------------------------------------------
// What a consistent forest reports.
// ---------------------------------------------------------------------------

/// The side that faces side number `dir` of a leaf.
pub open spec fn opposite(dir: int) -> int {
    if dir % 2 == 0 {
        dir + 1
    } else {
        dir - 1
    }
}

/// `fine` has half the extent of `coarse` along every axis.
pub open spec fn is_half<S: Scalar>(fine: Vec3<S>, coarse: Vec3<S>) -> bool {
    forall|a: int| 0 <= a < 3 ==> fine[a] == #[trigger] coarse[a].halved_spec()
}

/// Slot `h` of the finer neighbors across side `t` holds a leaf of half the extent:
/// one of the ghost layer, or one of this rank that names the leaf of side `t` as
/// its coarser neighbor.
pub open spec fn slot_matches<S: Scalar>(o: Octants<S>, t: int, fs: FinerSet, h: int) -> bool {
    let i: int = fs.idx[h] as int;
    if fs.ghost_at(h as nat) {
        i < o.ghosts.len() && is_half(o.ghosts[i].size, o.leaves[t / 6].size)
    } else {
        &&& i < o.leaves.len()
        &&& i != t / 6
        &&& is_half(o.leaves[i].size, o.leaves[t / 6].size)
        &&& o.sides[6 * i + opposite(t % 6)] == NeighborSet::Coarser((t / 6) as usize)
    }
}

/// Two slots do not hold the same leaf of this rank.
pub open spec fn slots_differ(fs: FinerSet) -> bool {
    forall|h: int, k: int|
        0 <= h < k < 4 && !#[trigger] fs.ghost_at(h as nat) && !#[trigger] fs.ghost_at(k as nat)
            ==> fs.idx[h] != fs.idx[k]
}

/// Some slot holds leaf `i` of this rank.
pub open spec fn holds_leaf(fs: FinerSet, i: int) -> bool {
    exists|h: int| 0 <= h < 4 && !#[trigger] fs.ghost_at(h as nat) && fs.idx[h] == i
}

/// What lies across side `t` reports the leaf of side `t` across the facing side.
pub open spec fn side_matches<S: Scalar>(o: Octants<S>, t: int) -> bool {
    match o.sides[t] {
        NeighborSet::Boundary => true,
        NeighborSet::Same(n) => {
            &&& n < o.leaves.len()
            &&& n != t / 6
            &&& o.leaves[n as int].size == o.leaves[t / 6].size
            &&& o.sides[6 * n + opposite(t % 6)] == NeighborSet::Same((t / 6) as usize)
        },
        NeighborSet::Coarser(n) => {
            &&& n < o.leaves.len()
            &&& n != t / 6
            &&& o.sides[6 * n + opposite(t % 6)] matches NeighborSet::Finer(fs) && holds_leaf(
                fs,
                t / 6,
            )
        },
        NeighborSet::Finer(fs) => {
            &&& slots_differ(fs)
            &&& forall|h: int| 0 <= h < 4 ==> #[trigger] slot_matches(o, t, fs, h)
        },
        NeighborSet::Remote(g) => g < o.ghosts.len(),
    }
}

/// All sides agree with the sides that face them.
pub open spec fn sides_match<S: Scalar>(o: Octants<S>) -> bool {
    forall|t: int| 0 <= t < o.sides.len() ==> #[trigger] side_matches(o, t)
}

/// Two halves of a leaf's extent make up the extent.
pub open spec fn extents_halve<S: Scalar>(size: Vec3<S>) -> bool {
    forall|a: int|
        0 <= a < 3 ==> (#[trigger] size[a].halved_spec()).plus_spec(size[a].halved_spec())
            == size[a]
}

// ---------------------------------------------------------------------------
// Net areas as sums.
// ---------------------------------------------------------------------------

/// The net area along `d` that a list of faces gives cell `c`.
spec fn net_area<S: Scalar>(faces: Seq<Face<S>>, d: int, c: int) -> S {
    net_flux(faces, areas(faces, d), c)
}

/// What one face adds to the gain of a cell does not depend on the gain.
proof fn gains_add<S: Scalar>(x: S, f: Face<S>, phi: S, c: int)
    requires
        is_ring::<S>(),
    ensures
        after_face(x, f, phi, c) == x.plus_spec(after_face(S::zero_spec(), f, phi, c)),
{
    let z: S = S::zero_spec();
    plus_zero(x);
    plus_zero(phi);
    minus_is_plus_negated(x, phi);
    minus_is_plus_negated(z, phi);
    plus_zero(phi.negated_spec());
    minus_restores(x, phi);
    minus_restores(z, phi);
}

/// The net areas of two lists add up.
proof fn net_areas_add<S: Scalar>(a: Seq<Face<S>>, b: Seq<Face<S>>, d: int, c: int)
    requires
        is_ring::<S>(),
    ensures
        net_area(a + b, d, c) == net_area(a, d, c).plus_spec(net_area(b, d, c)),
    decreases b.len(),
{
    if b.len() == 0 {
        assert(a + b =~= a);
        plus_zero(net_area(a, d, c));
    } else {
        let rest: Seq<Face<S>> = b.drop_last();
        let one: Seq<Face<S>> = seq![b.last()];
        let f: Face<S> = b.last();
        let phi: S = f.area_normal[d];
        net_areas_add(a, rest, d, c);
        assert(a + b =~= (a + rest) + one);
        assert(b =~= rest + one);
        net_area_appends(a + rest, one, d, c);
        net_area_appends(rest, one, d, c);
        let (x, y): (S, S) = (net_area(a, d, c), net_area(rest, d, c));
        gains_add(x.plus_spec(y), f, phi, c);
        gains_add(y, f, phi, c);
        plus_associates(x, y, after_face(S::zero_spec(), f, phi, c));
    }
}

/// The net area of a single face.
proof fn net_area_of_one<S: Scalar>(f: Face<S>, d: int, c: int)
    ensures
        net_area(seq![f], d, c) == after_face(S::zero_spec(), f, f.area_normal[d], c),
{
    let none: Seq<Face<S>> = Seq::empty();
    net_area_appends(none, seq![f], d, c);
    assert(none + seq![f] =~= seq![f]);
}

/// The net area of all faces is that of the sides, added up.
proof fn net_area_of_sides<S: Scalar>(o: Octants<S>, d: int, c: int, t: int)
    requires
        is_ring::<S>(),
        0 <= t,
    ensures
        net_area(faces_upto(o, t), d, c) == sum_over(
            t,
            |s: int| net_area(faces_of_side(o, s), d, c),
        ),
    decreases t,
{
    if t > 0 {
        net_area_of_sides(o, d, c, t - 1);
        net_areas_add(faces_upto(o, t - 1), faces_of_side(o, t - 1), d, c);
    }
}

/// The net area of a side's sub-faces is that of its slots, added up.
proof fn net_area_of_slots<S: Scalar>(o: Octants<S>, t: int, fs: FinerSet, d: int, c: int, h: int)
    requires
        is_ring::<S>(),
        0 <= h,
    ensures
        net_area(slot_faces(o, t, fs, h), d, c) == sum_over(
            h,
            |k: int| net_area(slot_face(o, t, fs, k), d, c),
        ),
    decreases h,
{
    if h > 0 {
        net_area_of_slots(o, t, fs, d, c, h - 1);
        net_areas_add(slot_faces(o, t, fs, h - 1), slot_face(o, t, fs, h - 1), d, c);
    }
}

// ---------------------------------------------------------------------------
// Areas of sides.
// ---------------------------------------------------------------------------

/// Component `d` of the face normal on side `t` of a cell of the given size.
spec fn normal_of<S: Scalar>(t: int, size: Vec3<S>, d: int) -> S {
    side_face(0, 0, t, size, size, None).area_normal[d]
}

/// What a leaf loses across side `t`, all of it.
spec fn lost_across<S: Scalar>(t: int, size: Vec3<S>, d: int) -> S {
    S::zero_spec().minus_spec(normal_of(t, size, d))
}

/// In a ring, a negated factor negates the product.
proof fn negated_factor<S: Scalar>(a: S, b: S)
    requires
        is_ring::<S>(),
    ensures
        a.negated_spec().times_spec(b) == a.times_spec(b).negated_spec(),
{
    let (p, q): (S, S) = (a.times_spec(b), a.negated_spec().times_spec(b));
    negated_cancels(a);
    times_distributes(b, a.negated_spec(), a);
    times_zero(b);
    negated_cancels(p);
    plus_cancels(q, p.negated_spec(), p);
}

/// The normals of facing sides cancel.
proof fn facing_normals_cancel<S: Scalar>(t: int, u: int, size: Vec3<S>, d: int)
    requires
        is_ring::<S>(),
        0 <= t,
        0 <= u,
        0 <= d < 3,
        u % 6 == opposite(t % 6),
    ensures
        normal_of(t, size, d).plus_spec(normal_of(u, size, d)) == S::zero_spec(),
{
    let axis: int = side_axis(t);
    assert(side_axis(u) == axis);
    let (one, z): (S, S) = (S::one_spec(), S::zero_spec());
    let area: S = size[(axis + 1) % 3].times_spec(size[(axis + 2) % 3]);
    negated_factor(one, area);
    let p: S = one.times_spec(area);
    negated_cancels(p);
    plus_commutes(p, p.negated_spec());
    plus_zero(z);
    assert(t % 2 == t % 6 % 2 && u % 2 == u % 6 % 2);
    if d == axis {
        assert(side_sign::<S>(t) == one || side_sign::<S>(t) == one.negated_spec());
    }
}

/// What a cell gains from the facing side of its neighbor is what it loses across
/// its own.
proof fn gained_is_lost<S: Scalar>(t: int, u: int, size: Vec3<S>, d: int)
    requires
        is_ring::<S>(),
        0 <= t,
        0 <= u,
        0 <= d < 3,
        u % 6 == opposite(t % 6),
    ensures
        S::zero_spec().plus_spec(normal_of(u, size, d)) == lost_across(t, size, d),
{
    let z: S = S::zero_spec();
    let (a, b): (S, S) = (normal_of(t, size, d), normal_of(u, size, d));
    facing_normals_cancel(t, u, size, d);
    plus_zero(b);
    minus_restores(z, a);
    plus_commutes(a, b);
    plus_cancels(b, z.minus_spec(a), a);
}

/// What is lost across four sub-faces of half the extent is what is lost across the
/// whole.
proof fn quarters_are_lost<S: Scalar>(t: int, fine: Vec3<S>, coarse: Vec3<S>, d: int)
    requires
        is_ring::<S>(),
        0 <= t,
        0 <= d < 3,
        is_half(fine, coarse),
        extents_halve(coarse),
    ensures
        sum_over(4, |h: int| lost_across(t, fine, d)) == lost_across(t, coarse, d),
{
    let z: S = S::zero_spec();
    let axis: int = side_axis(t);
    let q: S = lost_across(t, fine, d);
    let f = |h: int| lost_across(t, fine, d);
    reveal_with_fuel(sum_over, 5);
    assert(sum_over(4, f) == z.plus_spec(q).plus_spec(q).plus_spec(q).plus_spec(q));
    plus_zero(q);
    if d == axis {
        let a: S = side_area(t, fine);
        let (i, j): (int, int) = ((axis + 1) % 3, (axis + 2) % 3);
        assert(fine[i] == coarse[i].halved_spec());
        assert(fine[j] == coarse[j].halved_spec());
        four_fine_faces_cover_a_coarse_face(t, fine, coarse, d);
        let aa: S = a.plus_spec(a);
        losses_add(a, a);
        losses_add(aa, aa);
        plus_associates(q.plus_spec(q), q, q);
    } else {
        minus_zero(z);
        plus_zero(z);
    }
}

/// What is lost in two parts is lost together.
proof fn losses_add<S: Scalar>(a: S, b: S)
    requires
        is_ring::<S>(),
    ensures
        S::zero_spec().minus_spec(a).plus_spec(S::zero_spec().minus_spec(b))
            == S::zero_spec().minus_spec(a.plus_spec(b)),
{
    let z: S = S::zero_spec();
    let (p, q): (S, S) = (z.minus_spec(a), z.minus_spec(b));
    let c: S = a.plus_spec(b);
    minus_restores(z, a);
    minus_restores(z, b);
    minus_restores(z, c);
    plus_associates(p, q, c);
    plus_commutes(a, b);
    plus_associates(q, b, a);
    plus_zero(a);
    plus_cancels(p.plus_spec(q), z.minus_spec(c), c);
}

// ---------------------------------------------------------------------------
// Which side lists what lies across a slot.
// ---------------------------------------------------------------------------

/// The side that lists the face to slot `h` across side `t`. A side without finer
/// neighbors has one slot that counts, the first.
spec fn source_of<S>(o: Octants<S>, t: int, h: int) -> int {
    match o.sides[t] {
        NeighborSet::Same(n) => if t / 6 < n {
            t
        } else {
            6 * n + opposite(t % 6)
        },
        NeighborSet::Finer(fs) => if fs.ghost_at(h as nat) {
            t
        } else {
            6 * fs.idx[h] + opposite(t % 6)
        },
        _ => t,
    }
}

/// The extent of what slot `h` holds.
spec fn slot_size<S>(o: Octants<S>, fs: FinerSet, h: int) -> Vec3<S> {
    if fs.ghost_at(h as nat) {
        o.ghosts[fs.idx[h] as int].size
    } else {
        o.leaves[fs.idx[h] as int].size
    }
}

/// What the leaf of side `t` loses to slot `h` across it.
spec fn share_of<S: Scalar>(o: Octants<S>, t: int, d: int, h: int) -> S {
    match o.sides[t] {
        NeighborSet::Finer(fs) => lost_across(t, slot_size(o, fs, h), d),
        _ => if h == 0 {
            lost_across(t, o.leaves[t / 6].size, d)
        } else {
            S::zero_spec()
        },
    }
}

/// What the leaf `a` loses to slot `h` across its side number `dir`, where side `s`
/// lists the face.
spec fn listed_share<S: Scalar>(o: Octants<S>, a: int, d: int, s: int, dir: int, h: int) -> S {
    if source_of(o, 6 * a + dir, h) == s {
        share_of(o, 6 * a + dir, d, h)
    } else {
        S::zero_spec()
    }
}

/// A forest whose sides agree, with cells that can be numbered.
pub open spec fn is_consistent<S: Scalar>(o: Octants<S>) -> bool {
    &&& has_all_sides(o)
    &&& sides_match(o)
    &&& all_cells(o).len() <= usize::MAX
}

/// The side that lists the face to a slot is a side of the mesh. It belongs to the
/// leaf itself, with the same number, or to a neighbor, with the facing number;
/// then the neighbor reports the leaf across that side.
proof fn sources_are_facing<S: Scalar>(o: Octants<S>, a: int, dir: int, h: int)
    requires
        is_consistent(o),
        0 <= a < o.leaves.len(),
        0 <= dir < 6,
        0 <= h < 4,
    ensures
        ({
            let t: int = 6 * a + dir;
            let s: int = source_of(o, t, h);
            &&& 0 <= s < o.sides.len()
            &&& s == t || {
                &&& s / 6 != a
                &&& s % 6 == opposite(dir)
                &&& o.sides[s] == NeighborSet::Same(a as usize) || o.sides[s]
                    == NeighborSet::Coarser(a as usize)
            }
        }),
{
    let t: int = 6 * a + dir;
    assert(t / 6 == a && t % 6 == dir);
    assert(side_matches(o, t));
    match o.sides[t] {
        NeighborSet::Finer(fs) => {
            assert(slot_matches(o, t, fs, h));
        },
        _ => {},
    }
}

/// The net area that side `s` gives leaf `a`, where `s` is a side of `a`.
proof fn own_side_splits<S: Scalar>(o: Octants<S>, a: int, d: int, s: int)
    requires
        is_ring::<S>(),
        is_consistent(o),
        0 <= a < o.leaves.len(),
        0 <= d < 3,
        0 <= s < o.sides.len(),
        s / 6 == a,
    ensures
        net_area(faces_of_side(o, s), d, a) == sum_over(
            4,
            |h: int| listed_share(o, a, d, s, s % 6, h),
        ),
{
    let z: S = S::zero_spec();
    let f = |h: int| listed_share(o, a, d, s, s % 6, h);
    assert(6 * a + s % 6 == s);
    assert(side_matches(o, s));
    assert(base_cells(o).len() <= all_cells(o).len());
    assert(base_cells(o)[a].size == o.leaves[a].size);
    match o.sides[s] {
        NeighborSet::Boundary => {
            boundary_faces_lead_to_mirrored_cells(o, s, 0);
            net_area_of_one(faces_of_side(o, s)[0], d, a);
            assert(faces_of_side(o, s) =~= seq![faces_of_side(o, s)[0]]);
            one_term_remains(4, f, 0);
        },
        NeighborSet::Same(n) => {
            if a < n {
                net_area_of_one(leaf_face(o, s, n as int, None), d, a);
                one_term_remains(4, f, 0);
            } else {
                zeros_vanish(4, f);
            }
        },
        NeighborSet::Coarser(n) => {
            net_area_of_one(leaf_face(o, s, n as int, None), d, a);
            one_term_remains(4, f, 0);
        },
        NeighborSet::Remote(g) => {
            net_area_of_one(leaf_face(o, s, ghost_cell(o, g), None), d, a);
            one_term_remains(4, f, 0);
        },
        NeighborSet::Finer(fs) => {
            net_area_of_slots(o, s, fs, d, a, 4);
            let g = |h: int| net_area(slot_face(o, s, fs, h), d, a);
            assert forall|h: int| 0 <= h < 4 implies #[trigger] g(h) == f(h) by {
                assert(slot_matches(o, s, fs, h));
                if fs.ghost_at(h as nat) {
                    let c: int = ghost_cell(o, fs.idx[h]);
                    let fine: Cell<S> = base_cells(o)[c];
                    net_area_of_one(side_face(a, c, s, fine.size, fine.center, None), d, a);
                }
            }
            sums_agree(4, g, f);
        },
    }
}

/// The net area that side `s` gives leaf `a`, where `s` is a side of another leaf.
proof fn other_side_splits<S: Scalar>(o: Octants<S>, a: int, d: int, s: int)
    requires
        is_ring::<S>(),
        is_consistent(o),
        0 <= a < o.leaves.len(),
        0 <= d < 3,
        0 <= s < o.sides.len(),
        s / 6 != a,
    ensures
        net_area(faces_of_side(o, s), d, a) == sum_over(
            4,
            |h: int| listed_share(o, a, d, s, opposite(s % 6), h),
        ),
{
    let z: S = S::zero_spec();
    let b: int = s / 6;
    let dir: int = opposite(s % 6);
    let t: int = 6 * a + dir;
    let f = |h: int| listed_share(o, a, d, s, dir, h);
    assert(0 <= dir < 6 && opposite(dir) == s % 6);
    assert(t / 6 == a && t % 6 == dir);
    assert(side_matches(o, s));
    assert(side_matches(o, t));
    assert(base_cells(o).len() <= all_cells(o).len());
    assert(base_cells(o)[b].size == o.leaves[b].size);
    assert forall|h: int| 0 <= h < 4 && #[trigger] f(h) != z implies o.sides[s]
        == NeighborSet::Same(a as usize) || o.sides[s] == NeighborSet::Coarser(a as usize) by {
        sources_are_facing(o, a, dir, h);
    }
    match o.sides[s] {
        NeighborSet::Boundary => {
            boundary_faces_lead_to_mirrored_cells(o, s, 0);
            net_area_of_one(faces_of_side(o, s)[0], d, a);
            assert(faces_of_side(o, s) =~= seq![faces_of_side(o, s)[0]]);
            zeros_vanish(4, f);
        },
        NeighborSet::Same(n) => {
            if b < n {
                net_area_of_one(leaf_face(o, s, n as int, None), d, a);
            }
            if n == a && b < a {
                gained_is_lost(t, s, o.leaves[a].size, d);
                one_term_remains(4, f, 0);
            } else {
                zeros_vanish(4, f);
            }
        },
        NeighborSet::Coarser(n) => {
            net_area_of_one(leaf_face(o, s, n as int, None), d, a);
            if n == a {
                let fs: FinerSet = o.sides[t]->Finer_0;
                let h0: int = choose|h: int|
                    0 <= h < 4 && !#[trigger] fs.ghost_at(h as nat) && fs.idx[h] == b;
                gained_is_lost(t, s, o.leaves[b].size, d);
                assert(f(h0) == lost_across(t, o.leaves[b].size, d));
                assert forall|h: int| 0 <= h < 4 && h != h0 implies #[trigger] f(h) == z by {
                    assert(fs.ghost_at(h as nat) || !fs.ghost_at(h as nat));
                }
                one_term_remains(4, f, h0);
            } else {
                zeros_vanish(4, f);
            }
        },
        NeighborSet::Remote(g) => {
            net_area_of_one(leaf_face(o, s, ghost_cell(o, g), None), d, a);
            zeros_vanish(4, f);
        },
        NeighborSet::Finer(fs) => {
            net_area_of_slots(o, s, fs, d, a, 4);
            let g = |h: int| net_area(slot_face(o, s, fs, h), d, a);
            assert forall|h: int| 0 <= h < 4 implies #[trigger] g(h) == z by {
                assert(slot_matches(o, s, fs, h));
                if fs.ghost_at(h as nat) {
                    let c: int = ghost_cell(o, fs.idx[h]);
                    let fine: Cell<S> = base_cells(o)[c];
                    net_area_of_one(side_face(b, c, s, fine.size, fine.center, None), d, a);
                }
            }
            zeros_vanish(4, g);
            zeros_vanish(4, f);
        },
    }
}

/// The net area that any side gives leaf `a`, over all slots of `a`.
proof fn side_splits<S: Scalar>(o: Octants<S>, a: int, d: int, s: int)
    requires
        is_ring::<S>(),
        is_consistent(o),
        0 <= a < o.leaves.len(),
        0 <= d < 3,
        0 <= s < o.sides.len(),
    ensures
        net_area(faces_of_side(o, s), d, a) == sum_over(
            6,
            |dir: int| sum_over(4, |h: int| listed_share(o, a, d, s, dir, h)),
        ),
{
    let z: S = S::zero_spec();
    let row = |dir: int| sum_over(4, |h: int| listed_share(o, a, d, s, dir, h));
    let at: int = if s / 6 == a {
        s % 6
    } else {
        opposite(s % 6)
    };
    if s / 6 == a {
        own_side_splits(o, a, d, s);
    } else {
        other_side_splits(o, a, d, s);
    }
    assert forall|dir: int| 0 <= dir < 6 && dir != at implies #[trigger] row(dir) == z by {
        let f = |h: int| listed_share(o, a, d, s, dir, h);
        assert forall|h: int| 0 <= h < 4 implies #[trigger] f(h) == z by {
            sources_are_facing(o, a, dir, h);
            assert((6 * a + dir) / 6 == a && (6 * a + dir) % 6 == dir);
        }
        zeros_vanish(4, f);
    }
    one_term_remains(6, row, at);
}

/// What a leaf loses to all slots across one side is what it loses across the side.
proof fn slots_cover_the_side<S: Scalar>(o: Octants<S>, t: int, d: int)
    requires
        is_ring::<S>(),
        is_consistent(o),
        0 <= t < o.sides.len(),
        0 <= d < 3,
        extents_halve(o.leaves[t / 6].size),
    ensures
        sum_over(4, |h: int| share_of(o, t, d, h)) == lost_across(t, o.leaves[t / 6].size, d),
{
    let f = |h: int| share_of(o, t, d, h);
    let size: Vec3<S> = o.leaves[t / 6].size;
    assert(side_matches(o, t));
    match o.sides[t] {
        NeighborSet::Finer(fs) => {
            let fine: Vec3<S> = slot_size(o, fs, 0);
            let g = |h: int| lost_across(t, fine, d);
            assert forall|h: int| 0 <= h < 4 implies #[trigger] f(h) == g(h) by {
                assert(slot_matches(o, t, fs, h));
                assert(slot_matches(o, t, fs, 0));
                let other: Vec3<S> = slot_size(o, fs, h);
                assert(is_half(other, size) && is_half(fine, size));
                let (i, j): (int, int) = ((side_axis(t) + 1) % 3, (side_axis(t) + 2) % 3);
                assert(other[i] == size[i].halved_spec() && fine[i] == size[i].halved_spec());
                assert(other[j] == size[j].halved_spec() && fine[j] == size[j].halved_spec());
            }
            sums_agree(4, f, g);
            assert(slot_matches(o, t, fs, 0));
            quarters_are_lost(t, fine, size, d);
        },
        _ => {
            one_term_remains(4, f, 0);
        },
    }
}

/// What a leaf loses across its six sides cancels.
proof fn sides_cancel<S: Scalar>(a: int, size: Vec3<S>, d: int)
    requires
        is_ring::<S>(),
        0 <= a,
        0 <= d < 3,
    ensures
        sum_over(6, |dir: int| lost_across(6 * a + dir, size, d)) == S::zero_spec(),
{
    let z: S = S::zero_spec();
    let f = |dir: int| lost_across(6 * a + dir, size, d);
    let (lo, hi): (int, int) = (6 * a + 2 * d, 6 * a + 2 * d + 1);
    facing_normals_cancel(lo, hi, size, d);
    losses_add(normal_of(lo, size, d), normal_of(hi, size, d));
    minus_zero(z);
    plus_zero(z);
    plus_zero(f(2 * d));
    plus_zero(f(2 * d + 1));
    assert forall|dir: int| 0 <= dir < 6 && dir / 2 != d implies #[trigger] f(dir) == z by {
        assert(side_axis(6 * a + dir) == dir / 2);
    }
    assert(f(2 * d).plus_spec(f(2 * d + 1)) == z);
    reveal_with_fuel(sum_over, 7);
    assert(sum_over(6, f) == z.plus_spec(f(0)).plus_spec(f(1)).plus_spec(f(2)).plus_spec(
        f(3),
    ).plus_spec(f(4)).plus_spec(f(5)));
}

/// Every leaf of a consistent forest is a closed control volume: along each axis,
/// the areas of its faces cancel, whether its neighbors are of its own level,
/// coarser, finer, on another rank or missing.
pub proof fn octree_leaves_are_closed<S: Scalar>(o: Octants<S>, a: int, d: int)
    requires
        is_ring::<S>(),
        is_consistent(o),
        0 <= a < o.leaves.len(),
        0 <= d < 3,
        extents_halve(o.leaves[a].size),
    ensures
        net_flux(all_faces(o), areas(all_faces(o), d), a) == S::zero_spec(),
{
    let n: int = o.sides.len() as int;
    net_area_of_sides(o, d, a, n);
    let whole = |s: int| net_area(faces_of_side(o, s), d, a);
    let row = |s: int, dir: int| sum_over(4, |h: int| listed_share(o, a, d, s, dir, h));
    let split = |s: int| sum_over(6, |dir: int| row(s, dir));
    assert forall|s: int| 0 <= s < n implies #[trigger] whole(s) == split(s) by {
        side_splits(o, a, d, s);
        sums_agree(
            6,
            |dir: int| sum_over(4, |h: int| listed_share(o, a, d, s, dir, h)),
            |dir: int| row(s, dir),
        );
    }
    sums_agree(n, whole, split);
    sums_swap(n, 6, row);
    let column = |dir: int| sum_over(n, |s: int| row(s, dir));
    let lost = |dir: int| lost_across(6 * a + dir, o.leaves[a].size, d);
    assert forall|dir: int| 0 <= dir < 6 implies #[trigger] column(dir) == lost(dir) by {
        let t: int = 6 * a + dir;
        assert(t / 6 == a);
        let cell = |s: int, h: int| listed_share(o, a, d, s, dir, h);
        let p = |s: int| row(s, dir);
        let q = |s: int| sum_over(4, |h: int| cell(s, h));
        assert forall|s: int| 0 <= s < n implies #[trigger] p(s) == q(s) by {
            sums_agree(4, |h: int| listed_share(o, a, d, s, dir, h), |h: int| cell(s, h));
        }
        sums_agree(n, p, q);
        sums_swap(n, 4, cell);
        let u = |h: int| sum_over(n, |s: int| cell(s, h));
        let v = |h: int| share_of(o, t, d, h);
        assert forall|h: int| 0 <= h < 4 implies #[trigger] u(h) == v(h) by {
            sources_are_facing(o, a, dir, h);
            one_term_remains(n, |s: int| cell(s, h), source_of(o, t, h));
        }
        sums_agree(4, u, v);
        slots_cover_the_side(o, t, d);
    }
    sums_agree(6, column, lost);
    sides_cancel(a, o.leaves[a].size, d);
}

} // verus!
