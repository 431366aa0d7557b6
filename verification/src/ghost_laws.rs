//! Which ghost cells of a part the halo exchange fills.

use crate::decomposition::span_count;
use crate::decomposition::span_start;
use crate::decomposition::spans_tile_the_axis;
use crate::extent_laws::is_within;
use crate::grid::Grid;
use crate::grid::all_links;
use crate::grid::cell_count;
use crate::grid::global_cell;
use crate::grid::interior_count;
use crate::grid::is_inner_layer;
use crate::grid::is_sound;
use crate::grid::link_depth;
use crate::grid::neighbor_layers;
use crate::grid::neighbor_rank;
use crate::grid::next_axis;
use crate::grid::raw_of;
use crate::grid::side_link;
use crate::grid::slab;
use crate::grid::slab_cell;
use crate::grid::slab_size;
use crate::grid::total_count;
use crate::grid_laws::every_cell_has_raw_indices;
use crate::grid_laws::every_neighbor_has_a_link;
use crate::grid_laws::slab_cell_splits;
use crate::halo::Link;
use crate::index::flat;
use crate::index::flat_is_inside;
use crate::index::flat_joins;
use crate::index::flat_splits;
use crate::partition::rank_is_flat;
use crate::partition::splits;
use crate::scalar::Scalar;
use crate::uniform::Domain;
use crate::uniform::part_of;
use vstd::prelude::*;

verus! {

/// A cell in some layer of a slab, and interior along the other axes, is in the slab,
/// once.
proof fn slab_holds<S>(g: Grid<S>, axis: int, first: int, depth: int, c: int) -> (u: int)
    requires
        is_sound(g),
        0 <= axis < 3,
        0 <= first,
        0 <= depth,
        first + depth <= total_count(g, axis),
        0 <= c < cell_count(g),
        first <= raw_of(g, c, axis) < first + depth,
        is_inner_layer(g, next_axis(axis), raw_of(g, c, next_axis(axis))),
        is_inner_layer(
            g,
            next_axis(next_axis(axis)),
            raw_of(g, c, next_axis(next_axis(axis))),
        ),
    ensures
        0 <= u < slab(g, axis, first, depth).len(),
        slab(g, axis, first, depth)[u] == c,
{
    let (b, d): (int, int) = (next_axis(axis), next_axis(next_axis(axis)));
    let (n1, n2): (int, int) = (interior_count(g, b), interior_count(g, d));
    let x: int = raw_of(g, c, axis) - first;
    let y: int = raw_of(g, c, b) - g.ng;
    let z: int = raw_of(g, c, d) - g.ng;
    let u: int = flat(x, y, z, n1, n2);
    flat_is_inside(x, y, z, depth, n1, n2);
    flat_splits(x, y, z, n1, n2);
    slab_cell_splits(g, axis, first, depth, u);
    let e: int = slab_cell(g, axis, first, u);
    every_cell_has_raw_indices(g, c);
    every_cell_has_raw_indices(g, e);
    assert(raw_of(g, e, 0) == raw_of(g, c, 0));
    assert(raw_of(g, e, 1) == raw_of(g, c, 1));
    assert(raw_of(g, e, 2) == raw_of(g, c, 2));
    u
}

/// No cell is in a slab twice.
proof fn slab_cells_differ<S>(g: Grid<S>, axis: int, first: int, depth: int, u: int, v: int)
    requires
        is_sound(g),
        0 <= axis < 3,
        0 <= first,
        0 <= depth,
        first + depth <= total_count(g, axis),
        0 <= u < slab(g, axis, first, depth).len(),
        0 <= v < slab(g, axis, first, depth).len(),
        slab(g, axis, first, depth)[u] == slab(g, axis, first, depth)[v],
    ensures
        u == v,
{
    let (b, d): (int, int) = (next_axis(axis), next_axis(next_axis(axis)));
    let (n1, n2): (int, int) = (interior_count(g, b), interior_count(g, d));
    if n1 <= 0 || n2 <= 0 {
        assert(slab_size(g, axis, depth) <= 0) by (nonlinear_arith)
            requires
                slab_size(g, axis, depth) == depth * n1 * n2,
                n1 == 0 || n2 == 0,
        ;
    }
    slab_cell_splits(g, axis, first, depth, u);
    slab_cell_splits(g, axis, first, depth, v);
    flat_joins(u, depth, n1, n2);
    flat_joins(v, depth, n1, n2);
}

/// The ghost cell next to the side of a part, interior along the other axes, that the
/// neighbor on that side owns: its place in the whole grid is in the span of the
/// neighbor, and no farther from this part than the part is deep.
pub open spec fn is_owned_beyond<S: Scalar>(
    cfg: Domain<S>,
    decomp: Seq<int>,
    pos: Seq<int>,
    axis: int,
    high: bool,
    c: int,
) -> bool {
    let g: Grid<S> = part_of(cfg, decomp, pos);
    let (n, parts): (int, int) = (cfg.counts()[axis], decomp[axis]);
    let beyond: int = if high {
        pos[axis] + 1
    } else {
        pos[axis] - 1
    };
    let (at, depth): (int, int) = (global_cell(g, c)[axis], interior_count(g, axis));
    &&& 0 <= c < cell_count(g)
    &&& 0 <= beyond < parts
    &&& span_start(n, parts, beyond) <= at < span_start(n, parts, beyond) + span_count(
        n,
        parts,
        beyond,
    )
    &&& g.offset[axis] - depth <= at < g.offset[axis] + 2 * depth
    &&& forall|a: int|
        0 <= a < 3 && a != axis ==> is_inner_layer(g, a, #[trigger] raw_of(g, c, a))
}

/// The halo exchange fills the ghost layers from the face neighbors: every ghost cell
/// of a part that the neighbor on a side owns is received from it, once, however many
/// ghost layers there are.
pub proof fn owned_ghost_cells_are_received<S: Scalar>(
    cfg: Domain<S>,
    decomp: Seq<int>,
    pos: Seq<int>,
    axis: int,
    high: bool,
    c: int,
) -> (r: (int, int))
    requires
        splits(cfg, decomp),
        is_within(decomp, pos),
        0 <= axis < 3,
        is_sound(part_of(cfg, decomp, pos)),
        is_owned_beyond(cfg, decomp, pos, axis, high, c),
    ensures
        ({
            let g: Grid<S> = part_of(cfg, decomp, pos);
            let s: int = 2 * axis + (if high {
                1int
            } else {
                0
            });
            let link: Link = all_links(g)[r.0];
            &&& 0 <= r.0 < all_links(g).len()
            &&& link.rank == neighbor_rank(decomp, pos, s)
            &&& 0 <= r.1 < link.recv.len()
            &&& link.recv[r.1] == c
            &&& forall|u: int| 0 <= u < link.recv.len() && #[trigger] link.recv[u] == c ==> u == r.1
        }),
{
    let g: Grid<S> = part_of(cfg, decomp, pos);
    let (n, parts): (int, int) = (cfg.counts()[axis], decomp[axis]);
    let own: int = interior_count(g, axis);
    let s: int = 2 * axis + (if high {
        1int
    } else {
        0
    });
    let beyond: int = if high {
        pos[axis] + 1
    } else {
        pos[axis] - 1
    };
    every_cell_has_raw_indices(g, c);
    spans_tile_the_axis(n, parts);
    assert(span_start(n, parts, pos[axis] + 1) == g.offset[axis] + own);
    assert(!high ==> span_start(n, parts, (pos[axis] - 1) + 1) == span_start(
        n,
        parts,
        pos[axis] - 1,
    ) + span_count(n, parts, pos[axis] - 1));
    assert(g.beyond[s] == neighbor_layers(cfg.counts(), decomp, pos, s));
    assert(g.beyond[s] == span_count(n, parts, beyond));
    assert(g.neighbor[s] == neighbor_rank(decomp, pos, s));
    let p: Seq<int> = pos.update(axis, beyond);
    rank_is_flat(p[0], p[1], p[2], decomp[1], decomp[2]);
    assert(g.neighbor[s] >= 0);
    every_neighbor_has_a_link(g, s);
    assert(s / 2 == axis && (s % 2 == 1) == high);
    let link: Link = side_link(g, axis, high);
    let l: int = choose|l: int| 0 <= l < all_links(g).len() && all_links(g)[l] == link;
    let depth: int = link_depth(g, s);
    let first: int = if high {
        g.ng + own
    } else {
        g.ng - depth
    };
    assert(is_inner_layer(g, next_axis(axis), raw_of(g, c, next_axis(axis))));
    let u: int = slab_holds(g, axis, first, depth, c);
    assert(link.recv == slab(g, axis, first, depth));
    assert forall|v: int| 0 <= v < link.recv.len() && #[trigger] link.recv[v] == c implies v
        == u by {
        slab_cells_differ(g, axis, first, depth, v, u);
    }
    (l, u)
}

} // verus!
