//! What carrying a field over to an adapted mesh means in space: which old cell lies
//! at a point, and how the octants of a box fill it.

use crate::extent_laws::halving_is_exact;
use crate::halves::difference_is;
use crate::halves::half_is_product;
use crate::halves::half_step_back;
use crate::halves::halves_make_a_whole;
use crate::halves::plus_negated;
use crate::halves::times_minus_one;
use crate::mesh::Vec3;
use crate::placement_laws::orders_exactly;
use crate::regrid::box_holds;
use crate::regrid::is_near;
use crate::regrid::located;
use crate::regrid::located_is_first;
use crate::regrid::octant;
use crate::regrid::octant_center;
use crate::regrid::octant_size;
use crate::regrid::transfers;
use crate::scalar::Scalar;
use crate::scalar::is_ordered;
use crate::scalar::is_ring;
use crate::scalar::minus_restores;
use crate::scalar::negated_cancels;
use crate::scalar::plus_associates;
use crate::scalar::plus_commutes;
use crate::scalar::plus_zero;
use crate::scalar::times_associates;
use crate::scalar::times_one;
use vstd::prelude::*;

verus! {

/// `x` is no farther from `center`, up or down, than half of `size` and the slack.
pub open spec fn is_within_reach<S: Scalar>(center: S, size: S, x: S) -> bool {
    let reach: S = size.halved_spec().times_spec(S::one_spec().plus_spec(S::slop_spec()));
    x.minus_spec(center).at_most_spec(reach) && center.minus_spec(x).at_most_spec(reach)
}

/// The point is within reach of the box along every axis.
pub open spec fn reaches<S: Scalar>(cell: (Vec3<S>, Vec3<S>), point: Vec3<S>) -> bool {
    forall|a: int| 0 <= a < 3 ==> is_within_reach(cell.0[a], cell.1[a], #[trigger] point[a])
}

/// A magnitude is bounded where the number and its opposite are.
proof fn near_is_within_reach<S: Scalar>(center: S, size: S, x: S)
    requires
        is_ring::<S>(),
        is_ordered::<S>(),
        orders_exactly::<S>(),
    ensures
        is_near(center, size, x) == is_within_reach(center, size, x),
{
    let z: S = S::zero_spec();
    let d: S = x.minus_spec(center);
    let n: S = d.negated_spec();
    let reach: S = size.halved_spec().times_spec(S::one_spec().plus_spec(S::slop_spec()));
    // The opposite of `x - center` is `center - x`.
    minus_restores(x, center);
    negated_cancels(d);
    plus_commutes(d, center);
    plus_commutes(n, d);
    plus_associates(center, d, n);
    plus_zero(center);
    plus_commutes(x, n);
    assert(n.plus_spec(x) == center);
    difference_is(center, x, n);
    // What is above zero has an opposite below it.
    plus_zero(d);
    plus_zero(n);
    negated_cancels(d);
    difference_is(d, d, z);
    difference_is(z, d, n);
    reveal(is_ordered);
    reveal(orders_exactly);
    assert(d.minus_spec(d) == z && z.minus_spec(d) == n);
    if d.less_spec(z) {
        assert(d.at_most_spec(z) || z.at_most_spec(d));
        assert(d.at_most_spec(z));
        assert(d.minus_spec(d).at_most_spec(z.minus_spec(d)));
        assert(z.at_most_spec(n));
        if n.at_most_spec(reach) {
            assert(d.at_most_spec(n));
            assert(d.at_most_spec(reach));
        }
    } else {
        assert(z.at_most_spec(d));
        assert(z.minus_spec(d).at_most_spec(d.minus_spec(d)));
        assert(n.at_most_spec(z));
        if d.at_most_spec(reach) {
            assert(n.at_most_spec(d));
            assert(n.at_most_spec(reach));
        }
    }
}

/// The old cell found at a point is within reach of it along all three axes, up and
/// down, and none before it is; where none is found, none is within reach.
pub proof fn located_cells_reach_the_point<S: Scalar>(
    geom: Seq<(Vec3<S>, Vec3<S>)>,
    point: Vec3<S>,
)
    requires
        is_ring::<S>(),
        is_ordered::<S>(),
        orders_exactly::<S>(),
    ensures
        match located(geom, point) {
            Some(i) => {
                &&& 0 <= i < geom.len()
                &&& reaches(geom[i], point)
                &&& forall|j: int| 0 <= j < i ==> !reaches(#[trigger] geom[j], point)
            },
            None => forall|j: int| 0 <= j < geom.len() ==> !reaches(#[trigger] geom[j], point),
        },
{
    located_is_first(geom, point, 0);
    assert forall|j: int| 0 <= j < geom.len() implies box_holds(geom[j], point) == reaches(
        #[trigger] geom[j],
        point,
    ) by {
        let cell: (Vec3<S>, Vec3<S>) = geom[j];
        near_is_within_reach(cell.0[0], cell.1[0], point[0]);
        near_is_within_reach(cell.0[1], cell.1[1], point[1]);
        near_is_within_reach(cell.0[2], cell.1[2], point[2]);
        if reaches(cell, point) {
            assert(is_within_reach(cell.0[0], cell.1[0], point[0]));
            assert(is_within_reach(cell.0[1], cell.1[1], point[1]));
            assert(is_within_reach(cell.0[2], cell.1[2], point[2]));
        }
    }
}

/// The interval around `center` of width `size` runs from `lo` to `hi`.
pub open spec fn runs<S: Scalar>(center: S, size: S, lo: S, hi: S) -> bool {
    &&& center.minus_spec(size.halved_spec()) == lo
    &&& center.plus_spec(size.halved_spec()) == hi
}

/// A box inside another fills its upper or its lower half along one axis.
pub open spec fn fills_half<S: Scalar>(
    center: S,
    size: S,
    inner_center: S,
    inner_size: S,
    high: bool,
) -> bool {
    if high {
        runs(inner_center, inner_size, center, center.plus_spec(size.halved_spec()))
    } else {
        runs(inner_center, inner_size, center.minus_spec(size.halved_spec()), center)
    }
}

/// The center of the upper or the lower half of an interval.
pub open spec fn half_center<S: Scalar>(center: S, size: S, high: bool) -> S {
    if high {
        center.plus_spec(size.halved_spec().halved_spec())
    } else {
        center.minus_spec(size.halved_spec().halved_spec())
    }
}

/// The center of an octant along one axis is that of the half that it fills.
proof fn octant_center_is<S: Scalar>(center: S, size: S, high: bool)
    requires
        is_ring::<S>(),
        halving_is_exact::<S>(),
    ensures
        octant_center(center, size, high) == half_center(center, size, high),
        size.times_spec(S::one_spec().halved_spec()) == size.halved_spec(),
{
    let h: S = S::one_spec().halved_spec();
    let quarter: S = size.times_spec(h.halved_spec());
    half_is_product(h);
    half_is_product(size);
    half_is_product(size.halved_spec());
    times_associates(size, h, h);
    assert(quarter == size.halved_spec().halved_spec());
    if high {
        times_one(quarter);
    } else {
        times_minus_one(quarter);
        plus_negated(center, quarter);
    }
}

/// The half of an interval around its own center fills it.
proof fn half_center_fills<S: Scalar>(center: S, size: S, high: bool)
    requires
        is_ring::<S>(),
        halving_is_exact::<S>(),
    ensures
        fills_half(center, size, half_center(center, size, high), size.halved_spec(), high),
{
    let half: S = size.halved_spec();
    let q: S = half.halved_spec();
    if high {
        half_step_back(center, half);
    } else {
        let low: S = center.minus_spec(half);
        // One quarter under the center lies one quarter above the lower end.
        minus_restores(center, half);
        halves_make_a_whole(half);
        plus_associates(low, q, q);
        difference_is(center, q, low.plus_spec(q));
        half_step_back(low, half);
    }
}

/// The octants of a box tile it: of the eight corners of the box, upper or lower
/// along each axis, every one is filled by an octant, from the middle of the box to
/// its end. The number of the octant tells the corner, x first.
pub proof fn octants_tile_the_box<S: Scalar>(
    center: Vec3<S>,
    size: Vec3<S>,
    x_high: bool,
    y_high: bool,
    z_high: bool,
)
    requires
        is_ring::<S>(),
        halving_is_exact::<S>(),
    ensures
        ({
            let k: int = corner_number(x_high, y_high, z_high);
            let (c, s): (Vec3<S>, Vec3<S>) = (octant(center, size, k), octant_size(size));
            &&& 0 <= k < 8
            &&& fills_half(center[0], size[0], c[0], s[0], x_high)
            &&& fills_half(center[1], size[1], c[1], s[1], y_high)
            &&& fills_half(center[2], size[2], c[2], s[2], z_high)
        }),
{
    octant_center_is(center[0], size[0], x_high);
    octant_center_is(center[1], size[1], y_high);
    octant_center_is(center[2], size[2], z_high);
    half_center_fills(center[0], size[0], x_high);
    half_center_fills(center[1], size[1], y_high);
    half_center_fills(center[2], size[2], z_high);
}

/// The number of a corner of a box: one for the upper side along x, two along y, four
/// along z.
pub open spec fn corner_number(x_high: bool, y_high: bool, z_high: bool) -> int {
    (if x_high {
        1int
    } else {
        0
    }) + (if y_high {
        2int
    } else {
        0
    }) + (if z_high {
        4int
    } else {
        0
    })
}

/// The center of the octant in a corner of a box.
pub open spec fn corner_center<S: Scalar>(
    center: Vec3<S>,
    size: Vec3<S>,
    x_high: bool,
    y_high: bool,
    z_high: bool,
) -> Vec3<S> {
    [
        half_center(center[0], size[0], x_high),
        half_center(center[1], size[1], y_high),
        half_center(center[2], size[2], z_high),
    ]
}

/// A new cell that is larger than the old cell at its center, along one axis at
/// least, is given the average of eight values, one for each of its corners: what
/// the transfer gives the box of half the size in that corner.
pub proof fn larger_cells_average_their_corners<S: Scalar, T, F: Fn(&[T]) -> T>(
    geom: Seq<(Vec3<S>, Vec3<S>)>,
    vals: Seq<T>,
    default: T,
    avg: F,
    center: Vec3<S>,
    size: Vec3<S>,
    depth: nat,
    r: T,
    axis: int,
) -> (parts: &'static [T])
    requires
        is_ring::<S>(),
        halving_is_exact::<S>(),
        located(geom, center) is Some,
        0 <= axis < 3,
        !size[axis].times_spec(S::one_spec().minus_spec(S::slop_spec())).at_most_spec(
            geom[located(geom, center)->0].1[axis],
        ),
        transfers(geom, vals, default, avg, center, size, depth, r),
    ensures
        avg.ensures((parts,), r),
        parts@.len() == 8,
        forall|x_high: bool, y_high: bool, z_high: bool|
            transfers(
                geom,
                vals,
                default,
                avg,
                #[trigger] corner_center(center, size, x_high, y_high, z_high),
                [size[0].halved_spec(), size[1].halved_spec(), size[2].halved_spec()],
                (depth - 1) as nat,
                parts@[corner_number(x_high, y_high, z_high)],
            ),
{
    let parts: &'static [T] = choose|parts: &[T]| #[trigger]
        avg.ensures((parts,), r) && parts@.len() == 8 && forall|k: int|
            0 <= k < 8 ==> transfers(
                geom,
                vals,
                default,
                avg,
                octant(center, size, k),
                octant_size(size),
                (depth - 1) as nat,
                #[trigger] parts@[k],
            );
    assert forall|x_high: bool, y_high: bool, z_high: bool| transfers(
        geom,
        vals,
        default,
        avg,
        #[trigger] corner_center(center, size, x_high, y_high, z_high),
        [size[0].halved_spec(), size[1].halved_spec(), size[2].halved_spec()],
        (depth - 1) as nat,
        parts@[corner_number(x_high, y_high, z_high)],
    ) by {
        let k: int = corner_number(x_high, y_high, z_high);
        octant_center_is(center[0], size[0], x_high);
        octant_center_is(center[1], size[1], y_high);
        octant_center_is(center[2], size[2], z_high);
        let half: Vec3<S> = [size[0].halved_spec(), size[1].halved_spec(), size[2].halved_spec()];
        assert(octant_size(size) =~= half);
        assert(octant(center, size, k) =~= corner_center(center, size, x_high, y_high, z_high));
        assert(transfers(
            geom,
            vals,
            default,
            avg,
            octant(center, size, k),
            octant_size(size),
            (depth - 1) as nat,
            parts@[k],
        ));
    }
    parts
}

/// A new cell at whose center there is no old cell takes the default; one that is no
/// larger along any axis than the old cell at its center takes its value.
pub proof fn smaller_cells_inherit<S: Scalar, T, F: Fn(&[T]) -> T>(
    geom: Seq<(Vec3<S>, Vec3<S>)>,
    vals: Seq<T>,
    default: T,
    avg: F,
    center: Vec3<S>,
    size: Vec3<S>,
    depth: nat,
    r: T,
)
    requires
        transfers(geom, vals, default, avg, center, size, depth, r),
    ensures
        match located(geom, center) {
            None => r == default,
            Some(i) => (forall|a: int|
                0 <= a < 3 ==> (#[trigger] size[a]).times_spec(
                    S::one_spec().minus_spec(S::slop_spec()),
                ).at_most_spec(geom[i].1[a])) ==> r == vals[i],
        },
{
    if let Some(i) = located(geom, center) {
        let k: S = S::one_spec().minus_spec(S::slop_spec());
        if forall|a: int|
            0 <= a < 3 ==> (#[trigger] size[a]).times_spec(k).at_most_spec(geom[i].1[a]) {
            assert(size[0].times_spec(k).at_most_spec(geom[i].1[0]));
            assert(size[1].times_spec(k).at_most_spec(geom[i].1[1]));
            assert(size[2].times_spec(k).at_most_spec(geom[i].1[2]));
        }
    }
}

} // verus!
