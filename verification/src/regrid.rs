//! Carrying a per-cell field over to an adapted mesh.

use crate::mesh::Vec3;
use crate::scalar::Scalar;
use crate::scalar::is_ring;
use crate::scalar::sum_of;
use crate::scalar::times_distributes;
use crate::scalar::times_zero;
use vstd::prelude::*;

verus! {

// ---------------------------------------------------------------------------
// Finding the old cell at a point.
// ---------------------------------------------------------------------------

/// The distance of `x` from zero.
pub open spec fn magnitude<S: Scalar>(x: S) -> S {
    if x.less_spec(S::zero_spec()) {
        x.negated_spec()
    } else {
        x
    }
}

/// `x` lies within half of `size` from `center`, with a slack relative to `size`.
pub open spec fn is_near<S: Scalar>(center: S, size: S, x: S) -> bool {
    magnitude(x.minus_spec(center)).at_most_spec(
        size.halved_spec().times_spec(S::one_spec().plus_spec(S::slop_spec())),
    )
}

/// The box holds the point.
pub open spec fn box_holds<S: Scalar>(cell: (Vec3<S>, Vec3<S>), point: Vec3<S>) -> bool {
    &&& is_near(cell.0[0], cell.1[0], point[0])
    &&& is_near(cell.0[1], cell.1[1], point[1])
    &&& is_near(cell.0[2], cell.1[2], point[2])
}

/// The first of the boxes from number `from` on that holds the point.
pub open spec fn first_box<S: Scalar>(
    geom: Seq<(Vec3<S>, Vec3<S>)>,
    point: Vec3<S>,
    from: int,
) -> Option<int>
    decreases geom.len() - from,
{
    if from >= geom.len() {
        None
    } else if box_holds(geom[from], point) {
        Some(from)
    } else {
        first_box(geom, point, from + 1)
    }
}

/// The first of the boxes that holds the point.
pub open spec fn located<S: Scalar>(geom: Seq<(Vec3<S>, Vec3<S>)>, point: Vec3<S>) -> Option<
    int,
> {
    first_box(geom, point, 0)
}

/// The box found holds the point, and no box before it does.
pub proof fn located_is_first<S: Scalar>(
    geom: Seq<(Vec3<S>, Vec3<S>)>,
    point: Vec3<S>,
    from: int,
)
    requires
        0 <= from,
    ensures
        match first_box(geom, point, from) {
            Some(i) => {
                &&& from <= i < geom.len()
                &&& box_holds(geom[i], point)
                &&& forall|j: int| from <= j < i ==> !box_holds(#[trigger] geom[j], point)
            },
            None => forall|j: int|
                from <= j < geom.len() ==> !box_holds(#[trigger] geom[j], point),
        },
    decreases geom.len() - from,
{
    if from < geom.len() && !box_holds(geom[from], point) {
        located_is_first(geom, point, from + 1);
    }
}

/// Whether `x` lies within half of `size` from `center`.
fn near<S: Scalar>(center: S, size: S, x: S) -> (r: bool)
    ensures
        r == is_near(center, size, x),
{
    let d: S = x.minus(center);
    let distance: S = if d.less(S::zero()) {
        d.negated()
    } else {
        d
    };
    distance.at_most(size.halved().times(S::one().plus(S::slop())))
}

/// Index of the old cell whose axis-aligned box contains `point`, from a
/// `(center, size)` geometry list taken before the mesh was adapted. A refined
/// child inherits its parent's value; a coarsened cell takes one child's value.
pub fn locate_in<S: Scalar>(old_geom: &[(Vec3<S>, Vec3<S>)], point: Vec3<S>) -> (r: Option<
    usize,
>)
    ensures
        match r {
            Some(i) => i < old_geom@.len() && located(old_geom@, point) == Some(i as int),
            None => located(old_geom@, point) is None,
        },
{
    let mut i: usize = 0;
    while i < old_geom.len()
        invariant
            i <= old_geom@.len(),
            first_box(old_geom@, point, i as int) == located(old_geom@, point),
        decreases old_geom@.len() - i,
    {
        let (c, s): (Vec3<S>, Vec3<S>) = old_geom[i];
        if near(c[0], s[0], point[0]) && near(c[1], s[1], point[1]) && near(
            c[2],
            s[2],
            point[2],
        ) {
            return Some(i);
        }
        i = i + 1;
    }
    None
}

// ---------------------------------------------------------------------------
// Conservative transfer.
// ---------------------------------------------------------------------------

/// An old cell of size `old` covers a box of size `size`, up to the slack.
pub open spec fn covers<S: Scalar>(old: Vec3<S>, size: Vec3<S>) -> bool {
    let k: S = S::one_spec().minus_spec(S::slop_spec());
    &&& size[0].times_spec(k).at_most_spec(old[0])
    &&& size[1].times_spec(k).at_most_spec(old[1])
    &&& size[2].times_spec(k).at_most_spec(old[2])
}

/// A quarter of `x`.
pub open spec fn quarter<S: Scalar>(x: S) -> S {
    x.times_spec(S::one_spec().halved_spec().halved_spec())
}

/// Half of `x`.
pub open spec fn half<S: Scalar>(x: S) -> S {
    x.times_spec(S::one_spec().halved_spec())
}

/// The center of an octant along one axis.
pub open spec fn octant_center<S: Scalar>(center: S, size: S, high: bool) -> S {
    let sign: S = if high {
        S::one_spec()
    } else {
        S::one_spec().negated_spec()
    };
    center.plus_spec(sign.times_spec(quarter(size)))
}

/// The center of octant `k` of a box, x fastest.
pub open spec fn octant<S: Scalar>(center: Vec3<S>, size: Vec3<S>, k: int) -> Vec3<S> {
    [
        octant_center(center[0], size[0], k % 2 == 1),
        octant_center(center[1], size[1], k / 2 % 2 == 1),
        octant_center(center[2], size[2], k / 4 % 2 == 1),
    ]
}

/// The size of the octants of a box.
pub open spec fn octant_size<S: Scalar>(size: Vec3<S>) -> Vec3<S> {
    [half(size[0]), half(size[1]), half(size[2])]
}

/// Splitting the box into octants comes to an end within `depth` rounds: at the
/// center of every box reached there is no old cell, or one that covers it.
pub open spec fn settles<S: Scalar>(
    geom: Seq<(Vec3<S>, Vec3<S>)>,
    center: Vec3<S>,
    size: Vec3<S>,
    depth: nat,
) -> bool
    decreases depth,
{
    match located(geom, center) {
        None => true,
        Some(i) => covers(geom[i].1, size) || (depth > 0 && forall|k: int|
            0 <= k < 8 ==> settles(
                geom,
                #[trigger] octant(center, size, k),
                octant_size(size),
                (depth - 1) as nat,
            )),
    }
}

/// `r` is a value that the transfer can give the box: the default where there is no
/// old cell at its center, the value of that cell where it covers the box, and
/// otherwise the average of values that the transfer can give its eight octants.
pub open spec fn transfers<S: Scalar, T, F: Fn(&[T]) -> T>(
    geom: Seq<(Vec3<S>, Vec3<S>)>,
    vals: Seq<T>,
    default: T,
    avg: F,
    center: Vec3<S>,
    size: Vec3<S>,
    depth: nat,
    r: T,
) -> bool
    decreases depth,
{
    match located(geom, center) {
        None => r == default,
        Some(i) => if covers(geom[i].1, size) {
            r == vals[i]
        } else {
            &&& depth > 0
            &&& exists|parts: &[T]| #[trigger]
                avg.ensures((parts,), r) && parts@.len() == 8 && forall|k: int|
                    0 <= k < 8 ==> transfers(
                        geom,
                        vals,
                        default,
                        avg,
                        octant(center, size, k),
                        octant_size(size),
                        (depth - 1) as nat,
                        #[trigger] parts@[k],
                    )
        },
    }
}

/// Conservative solution transfer of a single new cell's value by recursive
/// sub-octant sampling. For a new cell `(center, size)` over the old
/// `(old_geom, old_val)`:
/// - if the old cell at `center` is at least as large, its value is copied;
/// - if it is smaller, the box is split into eight equal octants whose values are
///   averaged by `avg`. Octants nest in a balanced forest, so that the result is
///   the volume-weighted mean.
///
/// `default` stands in for points outside the old domain.
pub fn transfer_recursive<S: Scalar, T: Copy, F: Fn(&[T]) -> T>(
    old_geom: &[(Vec3<S>, Vec3<S>)],
    old_val: &[T],
    default: T,
    center: Vec3<S>,
    size: Vec3<S>,
    avg: &F,
) -> (r: T)
    requires
        old_val@.len() >= old_geom@.len(),
        forall|parts: &[T]| parts@.len() == 8 ==> #[trigger] avg.requires((parts,)),
        exists|depth: nat| settles(old_geom@, center, size, depth),
    ensures
        forall|depth: nat|
            settles(old_geom@, center, size, depth) ==> #[trigger] transfers(
                old_geom@,
                old_val@,
                default,
                *avg,
                center,
                size,
                depth,
                r,
            ),
{
    let ghost depth: nat = choose|depth: nat| settles(old_geom@, center, size, depth);
    let r: T = transfer_within(old_geom, old_val, default, center, size, avg, Ghost(depth));
    assert forall|d: nat| settles(old_geom@, center, size, d) implies #[trigger] transfers(
        old_geom@,
        old_val@,
        default,
        *avg,
        center,
        size,
        d,
        r,
    ) by {
        depth_does_not_matter(old_geom@, old_val@, default, *avg, center, size, depth, d, r);
    }
    r
}

/// The transfer, where splitting comes to an end within `depth` rounds.
fn transfer_within<S: Scalar, T: Copy, F: Fn(&[T]) -> T>(
    old_geom: &[(Vec3<S>, Vec3<S>)],
    old_val: &[T],
    default: T,
    center: Vec3<S>,
    size: Vec3<S>,
    avg: &F,
    Ghost(depth): Ghost<nat>,
) -> (r: T)
    requires
        old_val@.len() >= old_geom@.len(),
        forall|parts: &[T]| parts@.len() == 8 ==> #[trigger] avg.requires((parts,)),
        settles(old_geom@, center, size, depth),
    ensures
        transfers(old_geom@, old_val@, default, *avg, center, size, depth, r),
    decreases depth,
{
    let found: Option<usize> = locate_in(old_geom, center);
    let i: usize = match found {
        None => {
            return default;
        },
        Some(i) => i,
    };
    let old: Vec3<S> = old_geom[i].1;
    let k: S = S::one().minus(S::slop());
    if size[0].times(k).at_most(old[0]) && size[1].times(k).at_most(old[1]) && size[2].times(
        k,
    ).at_most(old[2]) {
        return old_val[i];
    }
    let one_half: S = S::one().halved();
    let one_quarter: S = one_half.halved();
    let sub_size: Vec3<S> = [
        size[0].times(one_half),
        size[1].times(one_half),
        size[2].times(one_half),
    ];
    let q: Vec3<S> = [
        size[0].times(one_quarter),
        size[1].times(one_quarter),
        size[2].times(one_quarter),
    ];
    let up: S = S::one();
    let down: S = S::one().negated();
    let mut vals: Vec<T> = Vec::new();
    let mut n: usize = 0;
    while n < 8
        invariant
            old_val@.len() >= old_geom@.len(),
            forall|parts: &[T]| parts@.len() == 8 ==> #[trigger] avg.requires((parts,)),
            n <= 8,
            depth > 0,
            forall|k: int|
                0 <= k < 8 ==> settles(
                    old_geom@,
                    #[trigger] octant(center, size, k),
                    octant_size(size),
                    (depth - 1) as nat,
                ),
            sub_size == octant_size(size),
            q == [quarter(size[0]), quarter(size[1]), quarter(size[2])],
            up == S::one_spec(),
            down == S::one_spec().negated_spec(),
            vals@.len() == n,
            forall|k: int|
                0 <= k < n ==> transfers(
                    old_geom@,
                    old_val@,
                    default,
                    *avg,
                    octant(center, size, k),
                    octant_size(size),
                    (depth - 1) as nat,
                    #[trigger] vals@[k],
                ),
        decreases 8 - n,
    {
        let sx: S = if n % 2 == 1 {
            up
        } else {
            down
        };
        let sy: S = if n / 2 % 2 == 1 {
            up
        } else {
            down
        };
        let sz: S = if n / 4 % 2 == 1 {
            up
        } else {
            down
        };
        let sub: Vec3<S> = [
            center[0].plus(sx.times(q[0])),
            center[1].plus(sy.times(q[1])),
            center[2].plus(sz.times(q[2])),
        ];
        assert(sub == octant(center, size, n as int));
        let v: T = transfer_within(
            old_geom,
            old_val,
            default,
            sub,
            sub_size,
            avg,
            Ghost((depth - 1) as nat),
        );
        vals.push(v);
        n = n + 1;
    }
    let parts: &[T] = vals.as_slice();
    let r: T = avg(parts);
    assert(avg.ensures((parts,), r));
    r
}

/// A value that the transfer can give within one number of rounds, it can give
/// within any other that suffices.
proof fn depth_does_not_matter<S: Scalar, T, F: Fn(&[T]) -> T>(
    geom: Seq<(Vec3<S>, Vec3<S>)>,
    vals: Seq<T>,
    default: T,
    avg: F,
    center: Vec3<S>,
    size: Vec3<S>,
    a: nat,
    b: nat,
    r: T,
)
    requires
        settles(geom, center, size, b),
        transfers(geom, vals, default, avg, center, size, a, r),
    ensures
        transfers(geom, vals, default, avg, center, size, b, r),
    decreases a,
{
    if let Some(i) = located(geom, center) {
        if !covers(geom[i].1, size) {
            let parts: &[T] = choose|parts: &[T]| #[trigger]
                avg.ensures((parts,), r) && parts@.len() == 8 && forall|k: int|
                    0 <= k < 8 ==> transfers(
                        geom,
                        vals,
                        default,
                        avg,
                        octant(center, size, k),
                        octant_size(size),
                        (a - 1) as nat,
                        #[trigger] parts@[k],
                    );
            assert forall|k: int| 0 <= k < 8 implies transfers(
                geom,
                vals,
                default,
                avg,
                octant(center, size, k),
                octant_size(size),
                (b - 1) as nat,
                #[trigger] parts@[k],
            ) by {
                assert(settles(
                    geom,
                    octant(center, size, k),
                    octant_size(size),
                    (b - 1) as nat,
                ));
                depth_does_not_matter(
                    geom,
                    vals,
                    default,
                    avg,
                    octant(center, size, k),
                    octant_size(size),
                    (a - 1) as nat,
                    (b - 1) as nat,
                    parts@[k],
                );
            }
            assert(avg.ensures((parts,), r));
        }
    }
}

// ---------------------------------------------------------------------------
// Laws.
// ---------------------------------------------------------------------------

/// A new cell that an old cell covers takes over its value: refining, and leaving a
/// cell as it is, is exact.
pub proof fn covered_cells_inherit<S: Scalar, T, F: Fn(&[T]) -> T>(
    geom: Seq<(Vec3<S>, Vec3<S>)>,
    vals: Seq<T>,
    default: T,
    avg: F,
    center: Vec3<S>,
    size: Vec3<S>,
    depth: nat,
    r: T,
)
    requires
        located(geom, center) is Some,
        covers(geom[located(geom, center)->0].1, size),
        transfers(geom, vals, default, avg, center, size, depth, r),
    ensures
        r == vals[located(geom, center)->0],
{
}

/// The volume of a box.
pub open spec fn box_volume<S: Scalar>(size: Vec3<S>) -> S {
    size[0].times_spec(size[1]).times_spec(size[2])
}

/// The content of a box in the old field: where splitting stops, volume times the
/// old value at the center; where it goes on, the contents of the octants added up.
pub open spec fn content<S: Scalar>(
    geom: Seq<(Vec3<S>, Vec3<S>)>,
    vals: Seq<S>,
    default: S,
    center: Vec3<S>,
    size: Vec3<S>,
    depth: nat,
) -> S
    decreases depth,
{
    match located(geom, center) {
        None => box_volume(size).times_spec(default),
        Some(i) => if covers(geom[i].1, size) || depth == 0 {
            box_volume(size).times_spec(vals[i])
        } else {
            let s: Vec3<S> = octant_size(size);
            let d: nat = (depth - 1) as nat;
            sum_of(
                seq![
                    content(geom, vals, default, octant(center, size, 0), s, d),
                    content(geom, vals, default, octant(center, size, 1), s, d),
                    content(geom, vals, default, octant(center, size, 2), s, d),
                    content(geom, vals, default, octant(center, size, 3), s, d),
                    content(geom, vals, default, octant(center, size, 4), s, d),
                    content(geom, vals, default, octant(center, size, 5), s, d),
                    content(geom, vals, default, octant(center, size, 6), s, d),
                    content(geom, vals, default, octant(center, size, 7), s, d),
                ],
            )
        },
    }
}

/// `avg` is the arithmetic mean: the volume of a box times the average of eight
/// values is the octant volume times their sum.
pub open spec fn is_mean<S: Scalar, F: Fn(&[S]) -> S>(avg: F) -> bool {
    forall|parts: &[S], r: S, size: Vec3<S>|
        parts@.len() == 8 && #[trigger] avg.ensures((parts,), r) ==> (#[trigger] box_volume(
            size,
        )).times_spec(r) == box_volume(octant_size(size)).times_spec(sum_of(parts@))
}

/// In a ring, transferring by the arithmetic mean conserves: the volume of the new
/// cell times its value is the content of its box in the old field.
pub proof fn transfer_conserves<S: Scalar, F: Fn(&[S]) -> S>(
    geom: Seq<(Vec3<S>, Vec3<S>)>,
    vals: Seq<S>,
    default: S,
    avg: F,
    center: Vec3<S>,
    size: Vec3<S>,
    depth: nat,
    r: S,
)
    requires
        is_ring::<S>(),
        is_mean(avg),
        transfers(geom, vals, default, avg, center, size, depth, r),
    ensures
        box_volume(size).times_spec(r) == content(geom, vals, default, center, size, depth),
    decreases depth,
{
    if let Some(i) = located(geom, center) {
        if !covers(geom[i].1, size) {
            let parts: &[S] = choose|parts: &[S]| #[trigger]
                avg.ensures((parts,), r) && parts@.len() == 8 && forall|k: int|
                    0 <= k < 8 ==> transfers(
                        geom,
                        vals,
                        default,
                        avg,
                        octant(center, size, k),
                        octant_size(size),
                        (depth - 1) as nat,
                        #[trigger] parts@[k],
                    );
            let v: S = box_volume(octant_size(size));
            let s: Vec3<S> = octant_size(size);
            let d: nat = (depth - 1) as nat;
            let contents: Seq<S> = seq![
                content(geom, vals, default, octant(center, size, 0), s, d),
                content(geom, vals, default, octant(center, size, 1), s, d),
                content(geom, vals, default, octant(center, size, 2), s, d),
                content(geom, vals, default, octant(center, size, 3), s, d),
                content(geom, vals, default, octant(center, size, 4), s, d),
                content(geom, vals, default, octant(center, size, 5), s, d),
                content(geom, vals, default, octant(center, size, 6), s, d),
                content(geom, vals, default, octant(center, size, 7), s, d),
            ];
            assert forall|k: int| 0 <= k < 8 implies #[trigger] contents[k] == v.times_spec(
                parts@[k],
            ) by {
                transfer_conserves(
                    geom,
                    vals,
                    default,
                    avg,
                    octant(center, size, k),
                    octant_size(size),
                    (depth - 1) as nat,
                    parts@[k],
                );
            }
            sum_scales(v, parts@, contents);
            assert(avg.ensures((parts,), r));
            assert(box_volume(size).times_spec(r) == v.times_spec(sum_of(parts@)));
        }
    }
}

/// In a ring, a common factor may be taken out of a sum.
proof fn sum_scales<S: Scalar>(v: S, parts: Seq<S>, scaled: Seq<S>)
    requires
        is_ring::<S>(),
        parts.len() == scaled.len(),
        forall|k: int| 0 <= k < parts.len() ==> #[trigger] scaled[k] == v.times_spec(parts[k]),
    ensures
        sum_of(scaled) == v.times_spec(sum_of(parts)),
    decreases parts.len(),
{
    if parts.len() == 0 {
        times_zero(v);
    } else {
        sum_scales(v, parts.drop_last(), scaled.drop_last());
        times_distributes(v, sum_of(parts.drop_last()), parts.last());
    }
}

/// A constant field stays constant, where the average of equal values is that
/// value.
pub proof fn transfer_preserves_constants<S: Scalar, T, F: Fn(&[T]) -> T>(
    geom: Seq<(Vec3<S>, Vec3<S>)>,
    vals: Seq<T>,
    v: T,
    avg: F,
    center: Vec3<S>,
    size: Vec3<S>,
    depth: nat,
    r: T,
)
    requires
        vals.len() >= geom.len(),
        forall|i: int| 0 <= i < vals.len() ==> #[trigger] vals[i] == v,
        forall|parts: &[T], x: T| #[trigger]
            avg.ensures((parts,), x) && parts@ == Seq::new(8, |k: int| v) ==> x == v,
        transfers(geom, vals, v, avg, center, size, depth, r),
    ensures
        r == v,
    decreases depth,
{
    located_is_first(geom, center, 0);
    if let Some(i) = located(geom, center) {
        if !covers(geom[i].1, size) {
            let parts: &[T] = choose|parts: &[T]| #[trigger]
                avg.ensures((parts,), r) && parts@.len() == 8 && forall|k: int|
                    0 <= k < 8 ==> transfers(
                        geom,
                        vals,
                        v,
                        avg,
                        octant(center, size, k),
                        octant_size(size),
                        (depth - 1) as nat,
                        #[trigger] parts@[k],
                    );
            assert forall|k: int| 0 <= k < 8 implies #[trigger] parts@[k] == v by {
                transfer_preserves_constants(
                    geom,
                    vals,
                    v,
                    avg,
                    octant(center, size, k),
                    octant_size(size),
                    (depth - 1) as nat,
                    parts@[k],
                );
            }
            assert(parts@ =~= Seq::new(8, |k: int| v));
        }
    }
}

} // verus!
