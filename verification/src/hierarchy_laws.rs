//! How restriction and prolongation between two levels of a ladder belong together.

use crate::grid::Grid;
use crate::grid::cell_count;
use crate::grid::inner;
use crate::grid::interior_count;
use crate::grid::is_sound;
use crate::grid_laws::is_cell;
use crate::hierarchy::all_same;
use crate::hierarchy::averages;
use crate::hierarchy::child_cell;
use crate::hierarchy::child_values;
use crate::hierarchy::child_volumes;
use crate::hierarchy::children_have_their_parent;
use crate::hierarchy::entry_products;
use crate::hierarchy::inner_splits;
use crate::hierarchy::interior_index;
use crate::hierarchy::is_nested;
use crate::hierarchy::mean_of;
use crate::hierarchy::prolonged;
use crate::hierarchy::ratio_of;
use crate::hierarchy::restricted;
use crate::hierarchy::volume_mean;
use crate::hierarchy::volumes;
use crate::index::first_of;
use crate::index::flat;
use crate::index::flat_is_inside;
use crate::index::flat_splits;
use crate::index::second_of;
use crate::index::third_of;
use crate::scalar::Scalar;
use crate::scalar::counts_up;
use crate::scalar::is_ring;
use crate::scalar::sum_of;
use crate::scalar::times_associates;
use crate::scalar::times_commutes;
use crate::sums::boxes_agree;
use crate::sums::boxes_split;
use crate::sums::copies_add_up;
use crate::sums::numbers_fill_the_box;
use crate::sums::sum_of_entries;
use crate::sums::sum_over_box;
use crate::sums::sums_distribute;
use vstd::prelude::*;

verus! {

/// Flat index of interior cell number `m`, in lexicographic order.
pub open spec fn numbered_cell<S>(g: Grid<S>, m: int) -> int {
    inner(g, first_of(m, g.nj, g.nk), second_of(m, g.nj, g.nk), third_of(m, g.nk))
}

/// The inner product of two fields over the interior cells of a grid.
pub open spec fn interior_dot<S: Scalar>(g: Grid<S>, a: Seq<S>, b: Seq<S>) -> S {
    sum_of(
        Seq::new(
            (g.ni * g.nj * g.nk) as nat,
            |m: int| a[numbered_cell(g, m)].times_spec(b[numbered_cell(g, m)]),
        ),
    )
}

/// The volume-weighted mean of `values` times their whole volume is the sum of the
/// values times their volumes.
pub open spec fn mean_scales<S: Scalar>(sizes: Seq<S>, values: Seq<S>) -> bool {
    sum_of(sizes).times_spec(volume_mean(sizes, values)) == sum_of(entry_products(sizes, values))
}

/// The volume of the fine cells of each interior coarse cell.
pub open spec fn held_volumes<S: Scalar>(fine: Grid<S>, coarse: Grid<S>) -> Seq<S> {
    Seq::new(
        cell_count(coarse) as nat,
        |c: int|
            sum_of(
                child_volumes(
                    fine,
                    coarse,
                    interior_index(coarse, c, 0),
                    interior_index(coarse, c, 1),
                    interior_index(coarse, c, 2),
                ),
            ),
    )
}

/// An inner product over the interior, index by index.
proof fn dot_is_over_the_box<S: Scalar>(g: Grid<S>, a: Seq<S>, b: Seq<S>)
    requires
        is_ring::<S>(),
        is_sound(g),
    ensures
        interior_dot(g, a, b) == sum_over_box(
            g.ni,
            g.nj,
            g.nk,
            |i: int, j: int, k: int| a[inner(g, i, j, k)].times_spec(b[inner(g, i, j, k)]),
        ),
{
    let f = |m: int| a[numbered_cell(g, m)].times_spec(b[numbered_cell(g, m)]);
    let n: int = g.ni * g.nj * g.nk;
    assert(0 <= n) by (nonlinear_arith)
        requires
            n == g.ni * g.nj * g.nk,
            0 <= g.ni,
            0 <= g.nj,
            0 <= g.nk,
    ;
    sum_of_entries(n as nat, f);
    numbers_fill_the_box(g.ni, g.nj, g.nk, f);
    let p = |i: int, j: int, k: int| f(flat(i, j, k, g.nj, g.nk));
    let q = |i: int, j: int, k: int| a[inner(g, i, j, k)].times_spec(b[inner(g, i, j, k)]);
    assert forall|i: int, j: int, k: int|
        0 <= i < g.ni && 0 <= j < g.nj && 0 <= k < g.nk implies #[trigger] p(i, j, k) == q(
        i,
        j,
        k,
    ) by {
        flat_splits(i, j, k, g.nj, g.nk);
    }
    boxes_agree(g.ni, g.nj, g.nk, p, q);
}

/// What the fine cells of coarse cell `(i, j, k)` add to the inner product of `x`
/// with a prolonged field.
spec fn share_of<S: Scalar>(
    fine: Grid<S>,
    coarse: Grid<S>,
    x: Seq<S>,
    y: S,
    i: int,
    j: int,
    k: int,
) -> spec_fn(int, int, int) -> S {
    let (rx, ry, rz): (int, int, int) = (
        ratio_of(fine, coarse, 0),
        ratio_of(fine, coarse, 1),
        ratio_of(fine, coarse, 2),
    );
    |dx: int, dy: int, dz: int|
        x[inner(fine, i * rx + dx, j * ry + dy, k * rz + dz)].times_spec(y)
}

/// The share of a coarse cell is the sum over its fine cells times the one value
/// they meet.
proof fn shares_collect<S: Scalar>(
    fine: Grid<S>,
    coarse: Grid<S>,
    x: Seq<S>,
    y: S,
    i: int,
    j: int,
    k: int,
)
    requires
        is_ring::<S>(),
        is_nested(fine, coarse),
    ensures
        sum_over_box(
            ratio_of(fine, coarse, 0),
            ratio_of(fine, coarse, 1),
            ratio_of(fine, coarse, 2),
            share_of(fine, coarse, x, y, i, j, k),
        ) == sum_of(child_values(fine, coarse, x, i, j, k)).times_spec(y),
{
    let (rx, ry, rz): (int, int, int) = (
        ratio_of(fine, coarse, 0),
        ratio_of(fine, coarse, 1),
        ratio_of(fine, coarse, 2),
    );
    assert(interior_count(coarse, 0) >= 1 && interior_count(coarse, 1) >= 1 && interior_count(
        coarse,
        2,
    ) >= 1);
    let n: int = rx * ry * rz;
    assert(0 <= n) by (nonlinear_arith)
        requires
            n == rx * ry * rz,
            0 <= rx,
            0 <= ry,
            0 <= rz,
    ;
    let values = |q: int| x[child_cell(fine, coarse, i, j, k, q)];
    let scaled = |q: int| values(q).times_spec(y);
    sum_of_entries(n as nat, values);
    assert(child_values(fine, coarse, x, i, j, k) =~= Seq::new(n as nat, values));
    sums_distribute(n, values, y);
    numbers_fill_the_box(rx, ry, rz, scaled);
    let p = |dx: int, dy: int, dz: int| scaled(flat(dx, dy, dz, ry, rz));
    let share = share_of(fine, coarse, x, y, i, j, k);
    assert forall|dx: int, dy: int, dz: int|
        0 <= dx < rx && 0 <= dy < ry && 0 <= dz < rz implies #[trigger] p(dx, dy, dz) == share(
        dx,
        dy,
        dz,
    ) by {
        flat_splits(dx, dy, dz, ry, rz);
        assert(i * rx == rx * i && j * ry == ry * j && k * rz == rz * k) by (nonlinear_arith);
    }
    boxes_agree(rx, ry, rz, p, share);
}

/// Restriction and prolongation are transposes of each other up to the volumes of
/// the cells: with each cell weighted by its volume, the inner product of a restricted
/// field with a coarse field is that of the fine field with the prolonged one.
pub proof fn transfers_are_transposes<S: Scalar>(
    fine: Grid<S>,
    coarse: Grid<S>,
    x: Seq<S>,
    y: Seq<S>,
    fine_before: Seq<S>,
    coarse_before: Seq<S>,
)
    requires
        is_ring::<S>(),
        is_sound(fine),
        is_sound(coarse),
        is_nested(fine, coarse),
        x.len() == cell_count(fine),
        fine_before.len() == cell_count(fine),
        y.len() == cell_count(coarse),
        coarse_before.len() == cell_count(coarse),
        forall|i: int, j: int, k: int|
            is_cell(coarse, i, j, k) ==> mean_scales(
                child_volumes(fine, coarse, i, j, k),
                #[trigger] child_values(fine, coarse, x, i, j, k),
            ),
    ensures
        interior_dot(
            coarse,
            entry_products(held_volumes(fine, coarse), restricted(fine, coarse, x, coarse_before)),
            y,
        ) == interior_dot(
            fine,
            entry_products(volumes(fine), x),
            prolonged(fine, coarse, y, fine_before),
        ),
{
    let down: Seq<S> = restricted(fine, coarse, x, coarse_before);
    let held: Seq<S> = entry_products(held_volumes(fine, coarse), down);
    let up: Seq<S> = prolonged(fine, coarse, y, fine_before);
    let wx: Seq<S> = entry_products(volumes(fine), x);
    let (rx, ry, rz): (int, int, int) = (
        ratio_of(fine, coarse, 0),
        ratio_of(fine, coarse, 1),
        ratio_of(fine, coarse, 2),
    );
    let (ni, nj, nk): (int, int, int) = (coarse.ni, coarse.nj, coarse.nk);
    assert(interior_count(coarse, 0) >= 1 && interior_count(coarse, 1) >= 1 && interior_count(
        coarse,
        2,
    ) >= 1);
    // The fine side, block by block.
    dot_is_over_the_box(fine, wx, up);
    let g = |a: int, b: int, c: int|
        wx[inner(fine, a, b, c)].times_spec(up[inner(fine, a, b, c)]);
    boxes_split(ni, nj, nk, rx, ry, rz, g);
    let blocks = |i: int, j: int, k: int|
        sum_over_box(
            rx,
            ry,
            rz,
            |dx: int, dy: int, dz: int| g(i * rx + dx, j * ry + dy, k * rz + dz),
        );
    // The coarse side, cell by cell.
    dot_is_over_the_box(coarse, held, y);
    let shares = |i: int, j: int, k: int|
        held[inner(coarse, i, j, k)].times_spec(y[inner(coarse, i, j, k)]);
    assert forall|i: int, j: int, k: int|
        0 <= i < ni && 0 <= j < nj && 0 <= k < nk implies #[trigger] blocks(i, j, k) == shares(
        i,
        j,
        k,
    ) by {
        let at: int = inner(coarse, i, j, k);
        inner_splits(coarse, i, j, k);
        let values: Seq<S> = child_values(fine, coarse, x, i, j, k);
        let sizes: Seq<S> = child_volumes(fine, coarse, i, j, k);
        assert(down[at] == volume_mean(sizes, values));
        let share = share_of(fine, coarse, wx, y[at], i, j, k);
        let block = |dx: int, dy: int, dz: int| g(i * rx + dx, j * ry + dy, k * rz + dz);
        assert forall|dx: int, dy: int, dz: int|
            0 <= dx < rx && 0 <= dy < ry && 0 <= dz < rz implies #[trigger] block(dx, dy, dz)
            == share(dx, dy, dz) by {
            let q: int = flat(dx, dy, dz, ry, rz);
            flat_splits(dx, dy, dz, ry, rz);
            flat_is_inside(dx, dy, dz, rx, ry, rz);
            assert(i * rx == rx * i && j * ry == ry * j && k * rz == rz * k) by (nonlinear_arith);
            children_have_their_parent(fine, coarse, i, j, k, q);
        }
        boxes_agree(rx, ry, rz, block, share);
        shares_collect(fine, coarse, wx, y[at], i, j, k);
        assert(mean_scales(sizes, values));
        children_weigh(fine, coarse, x, i, j, k);
    }
    boxes_agree(ni, nj, nk, blocks, shares);
}

/// The fine cells of a coarse cell, each times its volume.
proof fn children_weigh<S: Scalar>(
    fine: Grid<S>,
    coarse: Grid<S>,
    x: Seq<S>,
    i: int,
    j: int,
    k: int,
)
    requires
        is_sound(fine),
        is_sound(coarse),
        is_nested(fine, coarse),
        x.len() == cell_count(fine),
        is_cell(coarse, i, j, k),
    ensures
        child_values(fine, coarse, entry_products(volumes(fine), x), i, j, k) == entry_products(
            child_volumes(fine, coarse, i, j, k),
            child_values(fine, coarse, x, i, j, k),
        ),
{
    let wx: Seq<S> = entry_products(volumes(fine), x);
    let both: Seq<S> = entry_products(
        child_volumes(fine, coarse, i, j, k),
        child_values(fine, coarse, x, i, j, k),
    );
    let all: Seq<S> = child_values(fine, coarse, wx, i, j, k);
    assert forall|q: int| 0 <= q < all.len() implies #[trigger] all[q] == both[q] by {
        children_have_their_parent(fine, coarse, i, j, k, q);
    }
    assert(all =~= both);
}

/// Dividing by `w` undoes multiplying by it.
pub open spec fn divides_out<S: Scalar>(v: S, w: S) -> bool {
    w.times_spec(v).over_spec(w) == v
}

/// Averaging equal values returns them unchanged, whatever the volumes: in exact
/// arithmetic the mean of copies of one value is that value.
pub proof fn means_keep_one_value<S: Scalar>(v: S, sizes: Seq<S>)
    requires
        is_ring::<S>(),
        counts_up::<S>(),
        divides_out(v, S::count_spec(sizes.len() as int)),
        divides_out(v, sum_of(sizes)),
    ensures
        averages(v, sizes),
{
    let n: nat = sizes.len();
    let values: Seq<S> = Seq::new(n, |q: int| v);
    let one = |q: int| v;
    sum_of_entries(n, one);
    assert(values =~= Seq::new(n, one));
    copies_add_up(n as int, v);
    let size = |q: int| sizes[q];
    let both = |q: int| size(q).times_spec(v);
    sum_of_entries(n, size);
    assert(sizes =~= Seq::new(n, size));
    sum_of_entries(n, both);
    assert(entry_products(sizes, values) =~= Seq::new(n, both));
    sums_distribute(n as int, size, v);
}

/// In exact arithmetic a volume-weighted mean times the whole volume is the sum of
/// the values times their volumes: what restriction leaves in a coarse cell is what
/// its fine cells held.
pub proof fn means_scale_exactly<S: Scalar>(sizes: Seq<S>, values: Seq<S>)
    requires
        is_ring::<S>(),
        counts_up::<S>(),
        sizes.len() == values.len(),
        forall|i: int|
            0 <= i < sizes.len() && (#[trigger] sizes[i]).equals_spec(sizes[0]) ==> sizes[i]
                == sizes[0],
        S::count_spec(values.len() as int).times_spec(mean_of(values)) == sum_of(values),
        sum_of(sizes).times_spec(
            sum_of(entry_products(sizes, values)).over_spec(sum_of(sizes)),
        ) == sum_of(entry_products(sizes, values)),
    ensures
        mean_scales(sizes, values),
{
    if all_same(sizes) {
        let n: nat = sizes.len();
        let (s, mean): (S, S) = (sizes[0], mean_of(values));
        let count: S = S::count_spec(n as int);
        let one = |i: int| s;
        let value = |i: int| values[i];
        let scaled = |i: int| value(i).times_spec(s);
        assert forall|i: int| 0 <= i < n implies #[trigger] sizes[i] == s by {
            assert(sizes[i].equals_spec(sizes[0]));
        }
        sum_of_entries(n, one);
        assert(sizes =~= Seq::new(n, one));
        copies_add_up(n as int, s);
        sum_of_entries(n, value);
        assert(values =~= Seq::new(n, value));
        let both: Seq<S> = entry_products(sizes, values);
        assert forall|i: int| 0 <= i < n implies #[trigger] both[i] == scaled(i) by {
            times_commutes(s, values[i]);
        }
        sum_of_entries(n, scaled);
        assert(both =~= Seq::new(n, scaled));
        sums_distribute(n as int, value, s);
        // (count * s) * mean is (count * mean) * s.
        times_associates(count, s, mean);
        times_commutes(s, mean);
        times_associates(count, mean, s);
    }
}

} // verus!
