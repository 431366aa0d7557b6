//! The leaves of a forest of octrees fill its box.

use crate::forest::ForestLayout;
use crate::forest::tree_edge;
use crate::mesh::Vec3;
use crate::octree::Octants;
use crate::octree::all_cells;
use crate::octree::cell_of;
use crate::regrid::box_volume;
use crate::scalar::Scalar;
use crate::scalar::counts_up;
use crate::scalar::is_ring;
use crate::scalar::plus_associates;
use crate::scalar::plus_zero;
use crate::scalar::sum_of;
use crate::scalar::times_associates;
use crate::scalar::times_commutes;
use crate::scalar::times_distributes;
use crate::scalar::times_one;
use crate::scalar::times_zero;
use crate::sums::copies_add_up;
use crate::sums::sum_of_entries;
use crate::sums::sum_over;
use vstd::prelude::*;

verus! {

/// The volumes of boxes of the given extents.
pub open spec fn box_volumes<S: Scalar>(sizes: Seq<Vec3<S>>) -> Seq<S> {
    Seq::new(sizes.len(), |i: int| box_volume(sizes[i]))
}

/// Two extents `fine` make up the extent `coarse` along every axis.
pub open spec fn doubles<S: Scalar>(fine: Vec3<S>, coarse: Vec3<S>) -> bool {
    forall|a: int| 0 <= a < 3 ==> (#[trigger] fine[a]).plus_spec(fine[a]) == coarse[a]
}

/// `after` is `before` with leaf `p` replaced by its eight children.
pub open spec fn is_refined<S: Scalar>(
    before: Seq<Vec3<S>>,
    after: Seq<Vec3<S>>,
    p: int,
    child: Vec3<S>,
) -> bool {
    &&& 0 <= p < before.len()
    &&& doubles(child, before[p])
    &&& after == before.take(p) + Seq::new(8, |i: int| child) + before.skip(p + 1)
}

/// One of the two lists of extents is the other with leaf `p` refined.
pub open spec fn differ_at<S: Scalar>(
    a: Seq<Vec3<S>>,
    b: Seq<Vec3<S>>,
    p: int,
    child: Vec3<S>,
) -> bool {
    is_refined(a, b, p, child) || is_refined(b, a, p, child)
}

/// One of the two lists of extents is the other with one leaf refined.
pub open spec fn differ_by_a_family<S: Scalar>(a: Seq<Vec3<S>>, b: Seq<Vec3<S>>) -> bool {
    exists|p: int, child: Vec3<S>| differ_at(a, b, p, child)
}

/// A forest on its way from one list of leaf extents to another: at every step one
/// leaf is refined into eight, or eight are coarsened into one.
pub open spec fn is_adaptation<S: Scalar>(history: Seq<Seq<Vec3<S>>>) -> bool {
    &&& history.len() > 0
    &&& forall|i: int|
        0 < i < history.len() ==> differ_by_a_family(#[trigger] history[i], history[i - 1])
}

/// The extent of a root tree.
pub open spec fn tree_size<S: Scalar>(layout: ForestLayout<S>) -> Vec3<S> {
    [
        tree_edge(layout.xmin, layout.xmax, layout.trees_x),
        tree_edge(layout.ymin, layout.ymax, layout.trees_y),
        tree_edge(layout.zmin, layout.zmax, layout.trees_z),
    ]
}

/// The extent of the box.
pub open spec fn domain_size<S: Scalar>(layout: ForestLayout<S>) -> Vec3<S> {
    [
        layout.xmax.minus_spec(layout.xmin),
        layout.ymax.minus_spec(layout.ymin),
        layout.zmax.minus_spec(layout.zmin),
    ]
}

/// The root trees fill the box along every axis: their edge lengths add up to its
/// own.
pub open spec fn trees_fill<S: Scalar>(layout: ForestLayout<S>) -> bool {
    let (tree, domain): (Vec3<S>, Vec3<S>) = (tree_size(layout), domain_size(layout));
    &&& layout.trees_x >= 0 && layout.trees_y >= 0 && layout.trees_z >= 0
    &&& S::count_spec(layout.trees_x as int).times_spec(tree[0]) == domain[0]
    &&& S::count_spec(layout.trees_y as int).times_spec(tree[1]) == domain[1]
    &&& S::count_spec(layout.trees_z as int).times_spec(tree[2]) == domain[2]
}

/// The sum over two lists end to end is that over the one and that over the other.
proof fn sums_concatenate<S: Scalar>(a: Seq<S>, b: Seq<S>)
    requires
        is_ring::<S>(),
    ensures
        sum_of(a + b) == sum_of(a).plus_spec(sum_of(b)),
    decreases b.len(),
{
    if b.len() == 0 {
        assert(a + b =~= a);
        plus_zero(sum_of(a));
    } else {
        sums_concatenate(a, b.drop_last());
        assert((a + b).drop_last() =~= a + b.drop_last());
        plus_associates(sum_of(a), sum_of(b.drop_last()), b.last());
    }
}

/// A box whose extents are doubled has eight times the volume.
proof fn eight_children_fill_a_leaf<S: Scalar>(child: Vec3<S>, leaf: Vec3<S>)
    requires
        is_ring::<S>(),
        doubles(child, leaf),
    ensures
        sum_of(Seq::new(8, |i: int| box_volume(child))) == box_volume(leaf),
{
    let (a, b, c): (S, S, S) = (child[0], child[1], child[2]);
    let v: S = box_volume(child);
    let two: S = v.plus_spec(v);
    let four: S = two.plus_spec(two);
    // The product of the doubled extents.
    let ab: S = a.times_spec(b);
    assert(leaf[0] == a.plus_spec(a) && leaf[1] == b.plus_spec(b) && leaf[2] == c.plus_spec(c));
    times_distributes(b, a, a);
    times_distributes(leaf[0], b, b);
    let flat_four: S = ab.plus_spec(ab).plus_spec(ab.plus_spec(ab));
    assert(leaf[0].times_spec(leaf[1]) == flat_four);
    times_distributes(c, ab, ab);
    times_distributes(c, ab.plus_spec(ab), ab.plus_spec(ab));
    assert(flat_four.times_spec(c) == four);
    times_distributes(flat_four, c, c);
    assert(box_volume(leaf) == four.plus_spec(four));
    // The sum of the eight volumes, pair by pair.
    let pair: Seq<S> = seq![v, v];
    let quad: Seq<S> = pair + pair;
    assert(sum_of(pair) == two) by {
        assert(pair.drop_last() =~= seq![v]);
        assert(pair.drop_last().drop_last() =~= Seq::empty());
        reveal_with_fuel(sum_of, 3);
        plus_zero(v);
    }
    sums_concatenate(pair, pair);
    sums_concatenate(quad, quad);
    assert(Seq::new(8, |i: int| v) =~= quad + quad);
}

/// Refining a leaf keeps the volume of all leaves.
pub proof fn refinement_keeps_the_volume<S: Scalar>(
    before: Seq<Vec3<S>>,
    after: Seq<Vec3<S>>,
    p: int,
    child: Vec3<S>,
)
    requires
        is_ring::<S>(),
        is_refined(before, after, p, child),
    ensures
        sum_of(box_volumes(after)) == sum_of(box_volumes(before)),
{
    let all: Seq<S> = box_volumes(before);
    let (head, tail): (Seq<S>, Seq<S>) = (all.take(p), all.skip(p + 1));
    let leaf: Seq<S> = seq![all[p]];
    let eight: Seq<S> = Seq::new(8, |i: int| box_volume(child));
    assert(box_volumes(after) =~= head + eight + tail);
    assert(all =~= head + leaf + tail);
    eight_children_fill_a_leaf(child, before[p]);
    assert(sum_of(leaf) == all[p]) by {
        assert(leaf.drop_last() =~= Seq::empty());
        reveal_with_fuel(sum_of, 2);
        plus_zero(all[p]);
    }
    sums_concatenate(head, eight);
    sums_concatenate(head + eight, tail);
    sums_concatenate(head, leaf);
    sums_concatenate(head + leaf, tail);
}

/// Adaptation keeps the volume of all leaves.
pub proof fn adaptation_keeps_the_volume<S: Scalar>(history: Seq<Seq<Vec3<S>>>, n: int)
    requires
        is_ring::<S>(),
        is_adaptation(history),
        0 <= n < history.len(),
    ensures
        sum_of(box_volumes(history[n])) == sum_of(box_volumes(history[0])),
    decreases n,
{
    if n > 0 {
        adaptation_keeps_the_volume(history, n - 1);
        let (now, was): (Seq<Vec3<S>>, Seq<Vec3<S>>) = (history[n], history[n - 1]);
        assert(differ_by_a_family(now, was));
        let (p, child): (int, Vec3<S>) = choose|p: int, child: Vec3<S>|
            differ_at(now, was, p, child);
        if is_refined(now, was, p, child) {
            refinement_keeps_the_volume(now, was, p, child);
        } else {
            refinement_keeps_the_volume(was, now, p, child);
        }
    }
}

/// Counts add.
proof fn counts_add<S: Scalar>(m: int, n: int)
    requires
        is_ring::<S>(),
        counts_up::<S>(),
        0 <= m,
        0 <= n,
    ensures
        S::count_spec(m + n) == S::count_spec(m).plus_spec(S::count_spec(n)),
    decreases n,
{
    if n == 0 {
        plus_zero(S::count_spec(m));
    } else {
        counts_add::<S>(m, n - 1);
        assert(S::count_spec(n - 1 + 1) == S::count_spec(n - 1).plus_spec(S::one_spec()));
        assert(S::count_spec(m + (n - 1) + 1) == S::count_spec(m + (n - 1)).plus_spec(
            S::one_spec(),
        ));
        plus_associates(S::count_spec(m), S::count_spec(n - 1), S::one_spec());
    }
}

/// Counts multiply.
proof fn counts_multiply<S: Scalar>(m: int, n: int)
    requires
        is_ring::<S>(),
        counts_up::<S>(),
        0 <= m,
        0 <= n,
    ensures
        S::count_spec(m * n) == S::count_spec(m).times_spec(S::count_spec(n)),
    decreases n,
{
    if n == 0 {
        assert(m * n == 0);
        times_zero(S::count_spec(m));
    } else {
        counts_multiply::<S>(m, n - 1);
        assert(m * n == m * (n - 1) + m) by (nonlinear_arith);
        assert(0 <= m * (n - 1)) by (nonlinear_arith)
            requires
                0 <= m,
                0 <= n - 1,
        ;
        counts_add::<S>(m * (n - 1), m);
        assert(S::count_spec(n - 1 + 1) == S::count_spec(n - 1).plus_spec(S::one_spec()));
        times_distributes(S::count_spec(m), S::count_spec(n - 1), S::one_spec());
        times_one(S::count_spec(m));
    }
}

/// Four factors, paired the other way.
proof fn pairs_of_factors<S: Scalar>(a: S, b: S, x: S, y: S)
    requires
        is_ring::<S>(),
    ensures
        a.times_spec(b).times_spec(x.times_spec(y)) == a.times_spec(x).times_spec(b.times_spec(y)),
{
    times_associates(a, b, x.times_spec(y));
    times_associates(b, x, y);
    times_commutes(b, x);
    times_associates(x, b, y);
    times_associates(a, x, b.times_spec(y));
}

/// The root trees fill the box.
proof fn tree_volumes_fill_the_domain<S: Scalar>(layout: ForestLayout<S>)
    requires
        is_ring::<S>(),
        counts_up::<S>(),
        trees_fill(layout),
    ensures
        sum_of(
            box_volumes(Seq::new(layout.tree_count() as nat, |t: int| tree_size(layout))),
        ) == box_volume(domain_size(layout)),
{
    let (nx, ny, nz): (int, int, int) = (
        layout.trees_x as int,
        layout.trees_y as int,
        layout.trees_z as int,
    );
    let tree: Vec3<S> = tree_size(layout);
    let n: int = layout.tree_count();
    assert(0 <= nx * ny) by (nonlinear_arith)
        requires
            0 <= nx,
            0 <= ny,
    ;
    assert(0 <= n) by (nonlinear_arith)
        requires
            n == (nx * ny) * nz,
            0 <= nx * ny,
            0 <= nz,
    ;
    let v: S = box_volume(tree);
    let one = |q: int| v;
    sum_of_entries(n as nat, one);
    assert(box_volumes(Seq::new(n as nat, |t: int| tree)) =~= Seq::new(n as nat, one));
    copies_add_up(n, v);
    assert(sum_over(n, one) == S::count_spec(n).times_spec(v));
    counts_multiply::<S>(nx * ny, nz);
    counts_multiply::<S>(nx, ny);
    let (cx, cy, cz): (S, S, S) = (S::count_spec(nx), S::count_spec(ny), S::count_spec(nz));
    pairs_of_factors(cx.times_spec(cy), cz, tree[0].times_spec(tree[1]), tree[2]);
    pairs_of_factors(cx, cy, tree[0], tree[1]);
}

/// The volumes of the local cells of the mesh over the leaves `o`.
pub open spec fn leaf_volumes<S: Scalar>(o: Octants<S>) -> Seq<S> {
    Seq::new(o.leaves.len(), |c: int| box_volume(all_cells(o)[c].size))
}

/// However a forest on one rank was refined and coarsened, the volumes of the local
/// cells of its mesh add up to the volume of the box, in exact arithmetic.
pub proof fn leaf_volumes_fill_the_domain<S: Scalar>(
    layout: ForestLayout<S>,
    history: Seq<Seq<Vec3<S>>>,
    o: Octants<S>,
)
    requires
        is_ring::<S>(),
        counts_up::<S>(),
        trees_fill(layout),
        is_adaptation(history),
        history[0] == Seq::new(layout.tree_count() as nat, |t: int| tree_size(layout)),
        history.last() == Seq::new(o.leaves.len(), |c: int| o.leaves[c].size),
    ensures
        sum_of(leaf_volumes(o)) == box_volume(domain_size(layout)),
{
    tree_volumes_fill_the_domain(layout);
    adaptation_keeps_the_volume(history, history.len() - 1);
    assert forall|c: int| 0 <= c < o.leaves.len() implies #[trigger] all_cells(o)[c] == cell_of(
        o.leaves[c],
        false,
    ) by {}
    assert(leaf_volumes(o) =~= box_volumes(history.last()));
}

} // verus!
