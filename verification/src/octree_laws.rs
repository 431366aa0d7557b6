//! What holds of every mesh over a forest of octrees.

use crate::flux::joins_cells;
use crate::flux::net_flux;
use crate::flux::outflow;
use crate::flux::scatter_telescopes;
use crate::forest::FinerSet;
use crate::forest::NeighborSet;
use crate::mesh::Face;
use crate::mesh::Vec3;
use crate::mesh::count_set;
use crate::octree::ForestState;
use crate::octree::Octants;
use crate::octree::all_cells;
use crate::octree::all_faces;
use crate::octree::base_cells;
use crate::octree::cell_of;
use crate::octree::faces_of_side;
use crate::octree::faces_upto;
use crate::octree::has_all_sides;
use crate::octree::leaves_are_owned;
use crate::octree::mirrored;
use crate::octree::mirrored_upto;
use crate::octree::offsets_fit;
use crate::octree::owned_mask;
use crate::octree::pairs_of_side;
use crate::octree::rank_link;
use crate::octree::rank_links;
use crate::octree::rank_links_upto;
use crate::octree::side_axis;
use crate::octree::side_face;
use crate::octree::side_sign;
use crate::octree::slot_faces;
use crate::scalar::Scalar;
use crate::scalar::is_ring;
use crate::scalar::sum_of;
use crate::scalar::times_distributes;
use vstd::prelude::*;

verus! {

/// The leaves come first, in order; after them comes the ghost layer, in order and
/// without gaps.
pub proof fn ghosts_follow_the_leaves<S: Scalar>(o: Octants<S>, c: int)
    requires
        0 <= c < o.leaves.len() + o.ghosts.len(),
    ensures
        c < all_cells(o).len(),
        c < o.leaves.len() ==> all_cells(o)[c] == cell_of(o.leaves[c], false),
        c >= o.leaves.len() ==> all_cells(o)[c] == cell_of(o.ghosts[c - o.leaves.len()], true),
{
}

/// The face of a boundary side leads to a cell of its own, mirrored across it, and
/// carries the number of the side as its patch; faces of other sides carry none.
pub proof fn boundary_faces_lead_to_mirrored_cells<S: Scalar>(o: Octants<S>, t: int, p: int)
    requires
        has_all_sides(o),
        0 <= t < o.sides.len(),
        0 <= p < faces_of_side(o, t).len(),
        all_cells(o).len() <= usize::MAX,
    ensures
        faces_of_side(o, t)[p].owner == t / 6,
        o.sides[t] is Boundary ==> {
            let face: Face<S> = faces_of_side(o, t)[p];
            &&& face.patch == Some((t % 6) as u32)
            &&& o.leaves.len() + o.ghosts.len() <= face.other < all_cells(o).len()
            &&& all_cells(o)[face.other as int] == mirrored(o, t)
        },
        !(o.sides[t] is Boundary) ==> faces_of_side(o, t)[p].patch is None,
{
    assert(t / 6 < o.leaves.len());
    match o.sides[t] {
        NeighborSet::Boundary => {
            mirrored_cells_stay(o, t, o.sides.len() as int);
        },
        NeighborSet::Finer(fs) => {
            slot_faces_lead_to_ghosts(o, t, fs, 4, p);
        },
        _ => {},
    }
}

/// The mirrored cell of a boundary side stays where it was appended.
pub proof fn mirrored_cells_stay<S: Scalar>(o: Octants<S>, t: int, upto: int)
    requires
        0 <= t < upto,
        o.sides[t] is Boundary,
    ensures
        mirrored_upto(o, t).len() < mirrored_upto(o, upto).len(),
        mirrored_upto(o, upto)[mirrored_upto(o, t).len() as int] == mirrored(o, t),
    decreases upto,
{
    if t < upto - 1 {
        mirrored_cells_stay(o, t, upto - 1);
    }
}

/// The sub-faces of a side with finer neighbors lead from its leaf to the ghost
/// layer.
pub proof fn slot_faces_lead_to_ghosts<S: Scalar>(
    o: Octants<S>,
    t: int,
    fs: FinerSet,
    h: int,
    p: int,
)
    requires
        0 <= t / 6 < o.leaves.len(),
        all_cells(o).len() <= usize::MAX,
        0 <= h <= 4,
        0 <= p < slot_faces(o, t, fs, h).len(),
    ensures
        slot_faces(o, t, fs, h)[p].owner == t / 6,
        slot_faces(o, t, fs, h)[p].patch is None,
        o.leaves.len() <= slot_faces(o, t, fs, h)[p].other < o.leaves.len() + o.ghosts.len(),
    decreases h,
{
    assert(base_cells(o).len() <= all_cells(o).len());
    if h > 0 && p < slot_faces(o, t, fs, h - 1).len() {
        slot_faces_lead_to_ghosts(o, t, fs, h - 1, p);
    }
}

/// Two sides that face each other at the same level list the face between their
/// leaves once: the side of the leaf that comes first lists it.
pub proof fn shared_faces_are_listed_once<S: Scalar>(o: Octants<S>, s: int, t: int)
    requires
        has_all_sides(o),
        0 <= s < o.sides.len(),
        0 <= t < o.sides.len(),
        s / 6 < t / 6 <= usize::MAX,
        o.sides[s] == NeighborSet::Same((t / 6) as usize),
        o.sides[t] == NeighborSet::Same((s / 6) as usize),
    ensures
        faces_of_side(o, s).len() == 1,
        faces_of_side(o, s)[0].owner == s / 6,
        faces_of_side(o, s)[0].other == t / 6,
        faces_of_side(o, t).len() == 0,
{
}

/// Between a fine and a coarse leaf of this rank only the fine side lists a face:
/// a side whose finer neighbors are all on this rank lists none.
pub proof fn coarse_sides_list_no_local_faces<S: Scalar>(o: Octants<S>, t: int, fs: FinerSet)
    requires
        o.sides[t] == NeighborSet::Finer(fs),
        forall|h: nat| h < 4 ==> !#[trigger] fs.ghost_at(h),
    ensures
        faces_of_side(o, t).len() == 0,
{
    reveal_with_fuel(slot_faces, 5);
    assert(!fs.ghost_at(0) && !fs.ghost_at(1) && !fs.ghost_at(2) && !fs.ghost_at(3));
}

/// Every coarse/fine pair is that of a side with a coarser neighbor, and has the
/// geometry of the face that the side lists.
pub proof fn pairs_have_faces<S: Scalar>(o: Octants<S>, t: int)
    requires
        0 <= t < o.sides.len(),
    ensures
        pairs_of_side(o, t).len() == (if o.sides[t] is Coarser {
            1int
        } else {
            0int
        }),
        o.sides[t] is Coarser ==> {
            let face: Face<S> = faces_of_side(o, t)[0];
            &&& pairs_of_side(o, t)[0].coarse == face.other
            &&& pairs_of_side(o, t)[0].fine == face.owner
            &&& pairs_of_side(o, t)[0].area_normal == face.area_normal
            &&& pairs_of_side(o, t)[0].centroid == face.centroid
        },
{
}

/// Neighbors on this rank are leaves, and no leaf is its own neighbor.
pub open spec fn sides_are_linked<S>(o: Octants<S>) -> bool {
    forall|t: int|
        0 <= t < o.sides.len() ==> match #[trigger] o.sides[t] {
            NeighborSet::Same(nj) => nj < o.leaves.len() && nj != t / 6,
            NeighborSet::Coarser(nj) => nj < o.leaves.len() && nj != t / 6,
            _ => true,
        }
}

/// Where neighbors on this rank are other leaves, every face joins an owned cell to
/// another cell of the mesh. A scatter of face fluxes is then conservative.
pub proof fn octree_faces_join_cells<S: Scalar>(o: Octants<S>)
    requires
        has_all_sides(o),
        sides_are_linked(o),
        all_cells(o).len() <= usize::MAX,
    ensures
        joins_cells(all_faces(o), all_cells(o).len()),
        forall|p: int|
            0 <= p < all_faces(o).len() ==> (#[trigger] all_faces(o)[p]).owner < o.leaves.len(),
{
    faces_join_upto(o, o.sides.len() as int);
}

/// Whatever flux crosses each face, a two-sided scatter over the faces of the mesh
/// conserves: the gains of all cells, owned or ghost, and the outflow through the
/// physical boundary add up to zero.
pub proof fn octree_scatter_conserves<S: Scalar>(o: Octants<S>, flux: Seq<S>)
    requires
        is_ring::<S>(),
        has_all_sides(o),
        sides_are_linked(o),
        all_cells(o).len() <= usize::MAX,
        flux.len() == all_faces(o).len(),
    ensures
        sum_of(
            Seq::new(all_cells(o).len(), |c: int| net_flux(all_faces(o), flux, c)),
        ).plus_spec(outflow(all_faces(o), flux)) == S::zero_spec(),
{
    octree_faces_join_cells(o);
    scatter_telescopes(all_faces(o), flux, all_cells(o).len());
}

/// The faces of the first `t` sides join an owned cell to another cell.
proof fn faces_join_upto<S: Scalar>(o: Octants<S>, t: int)
    requires
        has_all_sides(o),
        sides_are_linked(o),
        all_cells(o).len() <= usize::MAX,
        0 <= t <= o.sides.len(),
    ensures
        joins_cells(faces_upto(o, t), all_cells(o).len()),
        forall|p: int|
            0 <= p < faces_upto(o, t).len() ==> (#[trigger] faces_upto(o, t)[p]).owner
                < o.leaves.len(),
    decreases t,
{
    let n: nat = all_cells(o).len();
    if t > 0 {
        faces_join_upto(o, t - 1);
        let rest: Seq<Face<S>> = faces_upto(o, t - 1);
        let own: Seq<Face<S>> = faces_of_side(o, t - 1);
        let all: Seq<Face<S>> = faces_upto(o, t);
        assert forall|p: int| 0 <= p < all.len() implies {
            &&& (#[trigger] all[p]).owner < n
            &&& all[p].other < n
            &&& all[p].owner != all[p].other
            &&& all[p].owner < o.leaves.len()
        } by {
            if p < rest.len() {
                assert(all[p] == rest[p]);
            } else {
                let q: int = p - rest.len();
                assert(all[p] == own[q]);
                boundary_faces_lead_to_mirrored_cells(o, t - 1, q);
                match o.sides[t - 1] {
                    NeighborSet::Finer(fs) => {
                        slot_faces_lead_to_ghosts(o, t - 1, fs, 4, q);
                    },
                    _ => {},
                }
            }
        }
    }
}

/// The area of a face doubles along either direction as its size does, so the
/// areas of the four fine faces that share a coarse face add up to its area.
pub proof fn four_fine_faces_cover_a_coarse_face<S: Scalar>(
    t: int,
    fine: Vec3<S>,
    coarse: Vec3<S>,
    d: int,
)
    requires
        is_ring::<S>(),
        0 <= t,
        d == side_axis(t),
        fine[(d + 1) % 3].plus_spec(fine[(d + 1) % 3]) == coarse[(d + 1) % 3],
        fine[(d + 2) % 3].plus_spec(fine[(d + 2) % 3]) == coarse[(d + 2) % 3],
    ensures
        ({
            let a: S = side_area(t, fine);
            a.plus_spec(a).plus_spec(a.plus_spec(a)) == side_area(t, coarse)
        }),
{
    let sign: S = side_sign(t);
    let (u, v): (S, S) = (fine[(d + 1) % 3], fine[(d + 2) % 3]);
    let (uu, vv): (S, S) = (u.plus_spec(u), v.plus_spec(v));
    times_distributes(u, v, v);
    times_distributes(vv, u, u);
    let w: S = u.times_spec(v);
    times_distributes(sign, w, w);
    times_distributes(sign, w.plus_spec(w), w.plus_spec(w));
}

/// The component of the face normal on side `t` along its axis.
pub open spec fn side_area<S: Scalar>(t: int, size: Vec3<S>) -> S {
    let axis: int = side_axis(t);
    side_face(0, 0, t, size, size, None).area_normal[axis]
}

/// A link receives into cells of the ghost layer: those that the forest attributes
/// to its rank.
pub proof fn links_receive_the_ghost_layer<S: Scalar>(state: ForestState<S>, r: int, i: int)
    requires
        offsets_fit(state),
        1 < state.mpisize,
        0 <= r < state.mpisize,
        0 <= i < rank_link(state, r).recv.len(),
    ensures
        state.leaves@.len() <= rank_link(state, r).recv[i] < state.leaves@.len()
            + state.ghosts@.len(),
        rank_link(state, r).recv[i] == state.leaves@.len() + state.recv_off@[r] + i,
{
    assert(0 <= state.recv_off@[r] <= state.ghosts@.len());
    assert(0 <= state.recv_off@[r + 1] <= state.ghosts@.len());
}

/// A link sends the leaves that the forest lists for its rank, in their order.
pub proof fn links_send_the_listed_leaves<S: Scalar>(state: ForestState<S>, r: int, i: int)
    requires
        offsets_fit(state),
        1 < state.mpisize,
        0 <= r < state.mpisize,
        0 <= i < rank_link(state, r).send.len(),
    ensures
        rank_link(state, r).send.len() == state.send_off@[r + 1] - state.send_off@[r],
        0 <= state.send_locals@[state.send_off@[r] + i] ==> rank_link(state, r).send[i]
            == state.send_locals@[state.send_off@[r] + i],
{
    assert(0 <= state.send_off@[r] <= state.send_off@[r + 1] <= state.send_locals@.len());
}

/// No rank exchanges with itself, and a single rank exchanges with nobody.
pub proof fn links_lead_to_other_ranks<S: Scalar>(state: ForestState<S>, i: int)
    requires
        0 <= i < rank_links(state).len(),
    ensures
        rank_links(state)[i].rank != state.mpirank,
        0 <= rank_links(state)[i].rank < state.mpisize,
        rank_links(state)[i] == rank_link(state, rank_links(state)[i].rank),
{
    other_ranks_upto(state, state.mpisize as int, i);
}

/// The local cells are the leaves, and on one rank nothing is exchanged.
pub proof fn a_lone_rank_is_serial<S: Scalar>(state: ForestState<S>)
    ensures
        count_set(owned_mask(all_cells(state@))) == state.leaves@.len(),
        state.mpisize <= 1 ==> rank_links(state).len() == 0,
{
    leaves_are_owned(state@, state@.sides.len() as int);
}

/// The links to the first `r` ranks lead to other ranks.
proof fn other_ranks_upto<S: Scalar>(state: ForestState<S>, r: int, i: int)
    requires
        0 <= i < rank_links_upto(state, r).len(),
    ensures
        rank_links_upto(state, r)[i].rank != state.mpirank,
        0 <= rank_links_upto(state, r)[i].rank < r,
        rank_links_upto(state, r)[i] == rank_link(state, rank_links_upto(state, r)[i].rank),
    decreases r,
{
    if r > 0 && i < rank_links_upto(state, r - 1).len() {
        other_ranks_upto(state, r - 1, i);
    }
}

} // verus!
