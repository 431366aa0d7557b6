//! What the ownership directory says of space: which boxes meet, which ranks a
//! support touches, and which rank owns a point on the border of two parts.

use crate::decomposition::span_is_inside;
use crate::decomposition::span_start;
use crate::decomposition::spans_are_balanced;
use crate::decomposition::volume;
use crate::extent_laws::is_strictly_inside;
use crate::extent_laws::midpoint;
use crate::extent_laws::midpoints_lie_between;
use crate::index::first_of;
use crate::index::flat_joins;
use crate::index::second_of;
use crate::index::third_of;
use crate::mesh::Vec3;
use crate::partition::Bounds3;
use crate::partition::PartitionExtent;
use crate::partition::all_extents;
use crate::partition::domain_edges;
use crate::partition::every_point_has_one_owner;
use crate::partition::extent_at;
use crate::partition::first_holder;
use crate::partition::has_no_volume;
use crate::partition::holds;
use crate::partition::in_domain;
use crate::partition::overlap;
use crate::partition::overlaps_upto;
use crate::partition::owner_of;
use crate::partition::part_hi;
use crate::partition::part_lo;
use crate::partition::spans_domain;
use crate::partition::splits;
use crate::scalar::Scalar;
use crate::scalar::is_ordered;
use crate::uniform::Domain;
use vstd::prelude::*;

verus! {

/// The lower corner is strictly below the upper one along every axis.
pub open spec fn has_volume<S: Scalar>(b: Bounds3<S>) -> bool {
    forall|a: int| 0 <= a < 3 ==> (#[trigger] b.lo[a]).less_spec(b.hi[a])
}

/// A point lies strictly inside both boxes.
pub open spec fn shared_inside<S: Scalar>(a: Bounds3<S>, b: Bounds3<S>, point: Vec3<S>) -> bool {
    is_strictly_inside(a, point) && is_strictly_inside(b, point)
}

/// Below what is below, strictly.
proof fn less_chains<S: Scalar>(a: S, b: S, c: S)
    requires
        is_ordered::<S>(),
        a.less_spec(b),
        b.less_spec(c),
    ensures
        a.less_spec(c),
{
    reveal(is_ordered);
    if c.at_most_spec(a) {
        assert(a.at_most_spec(b) || b.at_most_spec(a));
        assert(c.at_most_spec(b));
    }
}

/// A number strictly between the greater of the two lower ends and the smaller of
/// the two upper ends.
proof fn common_number<S: Scalar>(alo: S, ahi: S, blo: S, bhi: S) -> (x: S)
    requires
        is_ordered::<S>(),
        midpoints_lie_between::<S>(),
        alo.less_spec(ahi),
        blo.less_spec(bhi),
        alo.less_spec(bhi),
        blo.less_spec(ahi),
    ensures
        alo.less_spec(x) && x.less_spec(ahi),
        blo.less_spec(x) && x.less_spec(bhi),
{
    reveal(is_ordered);
    let lo: S = if alo.at_most_spec(blo) {
        blo
    } else {
        alo
    };
    let hi: S = if ahi.at_most_spec(bhi) {
        ahi
    } else {
        bhi
    };
    assert(alo.at_most_spec(lo) && blo.at_most_spec(lo)) by {
        assert(alo.at_most_spec(alo) || alo.at_most_spec(alo));
        assert(blo.at_most_spec(blo) || blo.at_most_spec(blo));
        assert(alo.at_most_spec(blo) || blo.at_most_spec(alo));
    }
    assert(hi.at_most_spec(ahi) && hi.at_most_spec(bhi)) by {
        assert(ahi.at_most_spec(ahi) || ahi.at_most_spec(ahi));
        assert(bhi.at_most_spec(bhi) || bhi.at_most_spec(bhi));
        assert(ahi.at_most_spec(bhi) || bhi.at_most_spec(ahi));
    }
    let x: S = midpoint(lo, hi);
    assert(lo.less_spec(hi));
    assert(lo.less_spec(x) && x.less_spec(hi));
    assert(alo.less_spec(x)) by {
        if x.at_most_spec(alo) {
            assert(x.at_most_spec(lo));
        }
    }
    assert(blo.less_spec(x)) by {
        if x.at_most_spec(blo) {
            assert(x.at_most_spec(lo));
        }
    }
    assert(x.less_spec(ahi)) by {
        if ahi.at_most_spec(x) {
            assert(hi.at_most_spec(x));
        }
    }
    assert(x.less_spec(bhi)) by {
        if bhi.at_most_spec(x) {
            assert(hi.at_most_spec(x));
        }
    }
    x
}

/// Two boxes with a volume overlap exactly where some point lies strictly inside
/// both, along every axis.
pub proof fn overlap_is_a_shared_inside<S: Scalar>(a: Bounds3<S>, b: Bounds3<S>)
    requires
        is_ordered::<S>(),
        midpoints_lie_between::<S>(),
        has_volume(a),
        has_volume(b),
    ensures
        overlap(a, b) <==> exists|point: Vec3<S>| shared_inside(a, b, point),
{
    if overlap(a, b) {
        assert(a.lo[0].less_spec(a.hi[0]) && a.lo[1].less_spec(a.hi[1]) && a.lo[2].less_spec(
            a.hi[2],
        ));
        assert(b.lo[0].less_spec(b.hi[0]) && b.lo[1].less_spec(b.hi[1]) && b.lo[2].less_spec(
            b.hi[2],
        ));
        let x: S = common_number(a.lo[0], a.hi[0], b.lo[0], b.hi[0]);
        let y: S = common_number(a.lo[1], a.hi[1], b.lo[1], b.hi[1]);
        let z: S = common_number(a.lo[2], a.hi[2], b.lo[2], b.hi[2]);
        assert(shared_inside(a, b, [x, y, z]));
    }
    if exists|point: Vec3<S>| shared_inside(a, b, point) {
        let p: Vec3<S> = choose|point: Vec3<S>| shared_inside(a, b, point);
        less_chains(a.lo[0], p[0], b.hi[0]);
        less_chains(b.lo[0], p[0], a.hi[0]);
        less_chains(a.lo[1], p[1], b.hi[1]);
        less_chains(b.lo[1], p[1], a.hi[1]);
        less_chains(a.lo[2], p[2], b.hi[2]);
        less_chains(b.lo[2], p[2], a.hi[2]);
    }
}

/// Boxes that lie apart along one axis, or only touch there, do not overlap,
/// whatever they do along the others.
pub proof fn boxes_apart_do_not_overlap<S: Scalar>(a: Bounds3<S>, b: Bounds3<S>, axis: int)
    requires
        is_ordered::<S>(),
        0 <= axis < 3,
        a.hi[axis].at_most_spec(b.lo[axis]),
    ensures
        !overlap(a, b),
        !overlap(b, a),
{
    reveal(is_ordered);
    assert(b.lo[axis].less_spec(a.hi[axis]) == !a.hi[axis].at_most_spec(b.lo[axis]));
}

/// One box overlaps another where the other overlaps it.
pub proof fn overlap_commutes<S: Scalar>(a: Bounds3<S>, b: Bounds3<S>)
    ensures
        overlap(a, b) == overlap(b, a),
{
}

/// A support is flat, and asks for the owner of its lower corner, exactly where its
/// corners coincide along one of the axes at least.
pub proof fn flat_supports_have_no_volume<S: Scalar>(support: Bounds3<S>)
    ensures
        has_no_volume(support) <==> exists|a: int|
            0 <= a < 3 && (#[trigger] support.lo[a]).equals_spec(support.hi[a]),
        is_ordered::<S>() && has_volume(support) ==> !has_no_volume(support),
{
    if has_no_volume(support) {
        let a: int = if support.lo[0].equals_spec(support.hi[0]) {
            0
        } else if support.lo[1].equals_spec(support.hi[1]) {
            1
        } else {
            2
        };
        assert(support.lo[a].equals_spec(support.hi[a]));
        if is_ordered::<S>() && has_volume(support) {
            reveal(is_ordered);
            assert(support.lo[a].less_spec(support.hi[a]));
        }
    }
}

/// Extent number `i` belongs to `rank`, and a point lies strictly inside it and the
/// support.
pub open spec fn touches<S: Scalar>(
    extents: Seq<PartitionExtent<S>>,
    support: Bounds3<S>,
    rank: i32,
    i: int,
    point: Vec3<S>,
) -> bool {
    &&& 0 <= i < extents.len()
    &&& extents[i].role_rank == rank
    &&& shared_inside(extents[i].bounds, support, point)
}

/// A rank counts as overlapping a support exactly where some point strictly inside
/// the support lies strictly inside an extent of that rank.
pub proof fn overlapping_ranks_share_a_point<S: Scalar>(
    extents: Seq<PartitionExtent<S>>,
    support: Bounds3<S>,
    rank: i32,
)
    requires
        is_ordered::<S>(),
        midpoints_lie_between::<S>(),
        has_volume(support),
        forall|i: int| 0 <= i < extents.len() ==> has_volume((#[trigger] extents[i]).bounds),
    ensures
        overlaps_upto(extents, support, rank, extents.len() as int) <==> exists|
            i: int,
            point: Vec3<S>,
        | touches(extents, support, rank, i, point),
{
    if overlaps_upto(extents, support, rank, extents.len() as int) {
        let i: int = choose|i: int|
            0 <= i < extents.len() && (#[trigger] extents[i]).role_rank == rank && overlap(
                extents[i].bounds,
                support,
            );
        overlap_is_a_shared_inside(extents[i].bounds, support);
        let p: Vec3<S> = choose|point: Vec3<S>| shared_inside(extents[i].bounds, support, point);
        assert(touches(extents, support, rank, i, p));
    }
    if exists|i: int, point: Vec3<S>| touches(extents, support, rank, i, point) {
        let (i, p): (int, Vec3<S>) = choose|i: int, point: Vec3<S>|
            touches(extents, support, rank, i, point);
        assert(shared_inside(extents[i].bounds, support, p));
        overlap_is_a_shared_inside(extents[i].bounds, support);
        assert(extents[i].role_rank == rank);
    }
}

/// Along every axis the point lies at or above the lower end of the extent, and below
/// the upper end, or at it where that is the end of the domain.
pub open spec fn is_held<S: Scalar>(
    global: Bounds3<S>,
    extent: PartitionExtent<S>,
    point: Vec3<S>,
) -> bool {
    forall|a: int|
        0 <= a < 3 ==> {
            &&& extent.bounds.lo[a].at_most_spec(#[trigger] point[a])
            &&& point[a].less_spec(extent.bounds.hi[a]) || (extent.bounds.hi[a].equals_spec(
                global.hi[a],
            ) && point[a].at_most_spec(extent.bounds.hi[a]))
        }
}

/// Every axis of the point lies within the bounds.
pub open spec fn is_in<S: Scalar>(bounds: Bounds3<S>, point: Vec3<S>) -> bool {
    forall|a: int|
        0 <= a < 3 ==> bounds.lo[a].at_most_spec(#[trigger] point[a]) && point[a].at_most_spec(
            bounds.hi[a],
        )
}

/// The three axes one by one.
proof fn held_by_axes<S: Scalar>(
    global: Bounds3<S>,
    extent: PartitionExtent<S>,
    point: Vec3<S>,
)
    ensures
        holds(global, extent, point) == is_held(global, extent, point),
        in_domain(global, point) == is_in(global, point),
{
    let (x, y, z): (S, S, S) = (point[0], point[1], point[2]);
    if is_held(global, extent, point) {
        assert(extent.bounds.lo[0].at_most_spec(x));
        assert(extent.bounds.lo[1].at_most_spec(y));
        assert(extent.bounds.lo[2].at_most_spec(z));
    }
    if is_in(global, point) {
        assert(global.lo[0].at_most_spec(x));
        assert(global.lo[1].at_most_spec(y));
        assert(global.lo[2].at_most_spec(z));
    }
}

/// The first holder from number `from` on.
proof fn first_holder_holds<S: Scalar>(
    global: Bounds3<S>,
    extents: Seq<PartitionExtent<S>>,
    point: Vec3<S>,
    from: int,
)
    requires
        0 <= from <= extents.len(),
    ensures
        match first_holder(global, extents, point, from) {
            Some(rank) => exists|i: int| #[trigger]
                is_first_holder(global, extents, point, from, i) && extents[i].role_rank == rank,
            None => forall|i: int|
                from <= i < extents.len() ==> !is_held(global, #[trigger] extents[i], point),
        },
    decreases extents.len() - from,
{
    if from < extents.len() {
        held_by_axes(global, extents[from], point);
        if holds(global, extents[from], point) {
            assert(is_first_holder(global, extents, point, from, from));
        } else {
            first_holder_holds(global, extents, point, from + 1);
            if let Some(rank) = first_holder(global, extents, point, from + 1) {
                let i: int = choose|i: int| #[trigger]
                    is_first_holder(global, extents, point, from + 1, i) && extents[i].role_rank
                        == rank;
                assert(is_first_holder(global, extents, point, from, i));
            }
        }
    }
}

/// Extent number `i` holds the point, and none from number `from` to it does.
pub open spec fn is_first_holder<S: Scalar>(
    global: Bounds3<S>,
    extents: Seq<PartitionExtent<S>>,
    point: Vec3<S>,
    from: int,
    i: int,
) -> bool {
    &&& from <= i < extents.len()
    &&& is_held(global, extents[i], point)
    &&& forall|j: int| from <= j < i ==> !is_held(global, #[trigger] extents[j], point)
}

/// The owner of a point of the domain is the rank of the first extent that holds it
/// along all three axes; outside the domain, and where no extent holds it, a point
/// has no owner.
pub proof fn owners_hold_their_points<S: Scalar>(
    global: Bounds3<S>,
    extents: Seq<PartitionExtent<S>>,
    point: Vec3<S>,
)
    ensures
        match owner_of(global, extents, point) {
            Some(rank) => is_in(global, point) && exists|i: int| #[trigger]
                is_first_holder(global, extents, point, 0, i) && extents[i].role_rank == rank,
            None => is_in(global, point) ==> forall|i: int|
                0 <= i < extents.len() ==> !is_held(global, #[trigger] extents[i], point),
        },
{
    first_holder_holds(global, extents, point, 0);
    held_by_axes(global, PartitionExtent { role_rank: 0, bounds: global }, point);
}

/// A point on the border between parts belongs to the upper one: the lower corner of
/// every extent of a split grid is owned by the rank of that extent.
pub proof fn lower_corners_belong_to_their_rank<S: Scalar>(
    d: Domain<S>,
    decomp: Seq<int>,
    q: int,
)
    requires
        is_ordered::<S>(),
        splits(d, decomp),
        d.edges_match(),
        spans_domain(d, 0),
        spans_domain(d, 1),
        spans_domain(d, 2),
        forall|axis: int|
            0 <= axis < 3 ==> d.lo[axis].at_most_spec(#[trigger] domain_edges(d, axis)[0]),
        0 <= q < volume(decomp),
    ensures
        owner_of(
            Bounds3 { lo: d.lo, hi: d.hi },
            all_extents(d, decomp),
            all_extents(d, decomp)[q].bounds.lo,
        ) == Some(q as i32),
{
    let global: Bounds3<S> = Bounds3 { lo: d.lo, hi: d.hi };
    flat_joins(q, decomp[0], decomp[1], decomp[2]);
    let (px, py, pz): (int, int, int) = (
        first_of(q, decomp[1], decomp[2]),
        second_of(q, decomp[1], decomp[2]),
        third_of(q, decomp[2]),
    );
    let extent: PartitionExtent<S> = all_extents(d, decomp)[q];
    assert(extent == extent_at(d, decomp, px, py, pz));
    lower_edge_is_within(d, decomp, 0, px);
    lower_edge_is_within(d, decomp, 1, py);
    lower_edge_is_within(d, decomp, 2, pz);
    assert(holds(global, extent, extent.bounds.lo));
    let owner: int = every_point_has_one_owner(d, decomp, extent.bounds.lo);
    assert(owner == q);
}

/// The lower edge of a part lies in the domain, below the upper edge of the part.
proof fn lower_edge_is_within<S: Scalar>(d: Domain<S>, decomp: Seq<int>, axis: int, p: int)
    requires
        is_ordered::<S>(),
        splits(d, decomp),
        d.edges_match(),
        0 <= axis < 3,
        spans_domain(d, axis),
        d.lo[axis].at_most_spec(domain_edges(d, axis)[0]),
        0 <= p < decomp[axis],
    ensures
        part_lo(d, decomp, axis, p).at_most_spec(part_lo(d, decomp, axis, p)),
        part_lo(d, decomp, axis, p).less_spec(part_hi(d, decomp, axis, p)),
        d.lo[axis].at_most_spec(part_lo(d, decomp, axis, p)),
        part_lo(d, decomp, axis, p).at_most_spec(d.hi[axis]),
{
    let e: Seq<S> = domain_edges(d, axis);
    span_is_inside(d.counts()[axis], decomp[axis], p);
    spans_are_balanced(d.counts()[axis], decomp[axis], p, p);
    assert(e.len() == d.counts()[axis] + 1);
    let first: int = span_start(d.counts()[axis], decomp[axis], p);
    reveal(is_ordered);
    assert(e[first].at_most_spec(e[first]) || e[first].at_most_spec(e[first]));
    let last: int = e.len() - 1;
    assert(e[first].less_spec(e[last]));
    assert(e[first].at_most_spec(e[last]) || e[last].at_most_spec(e[first]));
    assert(e.last() == e[last]);
    assert(e[last].at_most_spec(d.hi[axis]));
    if first > 0 {
        assert(e[0].less_spec(e[first]));
        assert(e[0].at_most_spec(e[first]) || e[first].at_most_spec(e[0]));
    }
}

} // verus!
