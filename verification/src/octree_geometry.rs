//! Where the faces and the mirrored cells of a forest of octrees lie in space, in
//! exact arithmetic, and what the counts over its cells and faces count.

use crate::extent_laws::halving_is_exact;
use crate::forest::FinerSet;
use crate::forest::NeighborSet;
use crate::halves::difference_is;
use crate::halves::half_is_product;
use crate::halves::half_step_back;
use crate::halves::halves_make_a_whole;
use crate::halves::negated_product_cancels;
use crate::halves::plus_negated;
use crate::halves::times_minus_one;
use crate::mesh::Face;
use crate::octree::Cell;
use crate::octree::Octants;
use crate::octree::all_cells;
use crate::octree::base_cells;
use crate::octree::count_at_level;
use crate::octree::count_crossing;
use crate::octree::faces_of_side;
use crate::octree::has_all_sides;
use crate::octree::least_level;
use crate::octree::mirrored;
use crate::octree::neighbors_of_side;
use crate::octree::side_face;
use crate::octree::slot_faces;
use crate::octree_laws::boundary_faces_lead_to_mirrored_cells;
use crate::octree_laws::slot_faces_lead_to_ghosts;
use crate::scalar::Scalar;
use crate::scalar::is_ring;
use crate::scalar::minus_restores;
use crate::scalar::plus_associates;
use crate::scalar::times_associates;
use crate::scalar::times_commutes;
use crate::scalar::times_one;
use vstd::prelude::*;

verus! {

/// Where a cell ends along `axis`, at its upper or its lower side.
pub open spec fn side_plane<S: Scalar>(cell: Cell<S>, axis: int, high: bool) -> S {
    let half: S = cell.size[axis].halved_spec();
    if high {
        cell.center[axis].plus_spec(half)
    } else {
        cell.center[axis].minus_spec(half)
    }
}

/// The volume of a cell.
pub open spec fn cell_volume<S: Scalar>(cell: Cell<S>) -> S {
    cell.size[0].times_spec(cell.size[1]).times_spec(cell.size[2])
}

/// The face lies on the upper or the lower side of the cell across `axis`, in the
/// middle of it along the other axes. Its normal is along `axis` alone, leads out of
/// the cell, and spans with the extent of the cell along `axis` its volume.
pub open spec fn lies_on_side<S: Scalar>(
    face: Face<S>,
    cell: Cell<S>,
    axis: int,
    high: bool,
) -> bool {
    let swept: S = face.area_normal[axis].times_spec(cell.size[axis]);
    &&& face.centroid[axis] == side_plane(cell, axis, high)
    &&& forall|a: int|
        0 <= a < 3 && a != axis ==> (#[trigger] face.centroid[a]) == cell.center[a]
            && face.area_normal[a] == S::zero_spec()
    &&& if high {
        swept == cell_volume(cell)
    } else {
        cell_volume(cell).plus_spec(swept) == S::zero_spec()
    }
}

/// The face made for a side of a cell lies on that side.
proof fn side_faces_lie_on_their_side<S: Scalar>(
    owner: int,
    other: int,
    t: int,
    cell: Cell<S>,
    patch: Option<u32>,
    axis: int,
    high: bool,
)
    requires
        is_ring::<S>(),
        halving_is_exact::<S>(),
        0 <= t,
        0 <= axis < 3,
        t % 6 == 2 * axis + (if high {
            1int
        } else {
            0
        }),
    ensures
        lies_on_side(
            side_face(owner, other, t, cell.size, cell.center, patch),
            cell,
            axis,
            high,
        ),
{
    let face: Face<S> = side_face(owner, other, t, cell.size, cell.center, patch);
    let (x, y, z): (S, S, S) = (cell.size[0], cell.size[1], cell.size[2]);
    let (s, c): (S, S) = (cell.size[axis], cell.center[axis]);
    let (one, half): (S, S) = (S::one_spec(), S::one_spec().halved_spec());
    let area: S = if axis == 0 {
        y.times_spec(z)
    } else if axis == 1 {
        z.times_spec(x)
    } else {
        x.times_spec(y)
    };
    // The area times the extent across it is the volume.
    assert(area.times_spec(s) == cell_volume(cell)) by {
        times_associates(x, y, z);
        if axis == 0 {
            times_commutes(area, x);
        } else if axis == 1 {
            times_commutes(z, x);
            times_associates(x, z, y);
            times_commutes(z, y);
        }
    }
    half_is_product(s);
    if high {
        times_one(half);
        times_one(area);
    } else {
        times_minus_one(half);
        times_minus_one(area);
        // The negated half of one times the extent is the negated half extent.
        times_minus_one(half.times_spec(s));
        times_associates(one.negated_spec(), half, s);
        plus_negated(c, s.halved_spec());
        negated_product_cancels(area, s);
    }
    assert forall|a: int| 0 <= a < 3 && a != axis implies (#[trigger] face.centroid[a])
        == cell.center[a] && face.area_normal[a] == S::zero_spec() by {}
}

/// The cell whose side a face of side `t` is: the leaf of the side, or the finer cell
/// of another rank where the side is cut into four.
pub open spec fn cell_of_face<S: Scalar>(o: Octants<S>, t: int, face: Face<S>) -> Cell<S> {
    if o.sides[t] is Finer {
        all_cells(o)[face.other as int]
    } else {
        all_cells(o)[face.owner as int]
    }
}

/// A face has the place and the area of the side, of the leaf or of the finer cell,
/// that it stands for: the number of the side gives the axis and the direction.
pub proof fn faces_lie_on_sides<S: Scalar>(
    o: Octants<S>,
    t: int,
    p: int,
    axis: int,
    high: bool,
)
    requires
        is_ring::<S>(),
        halving_is_exact::<S>(),
        has_all_sides(o),
        all_cells(o).len() <= usize::MAX,
        0 <= t < o.sides.len(),
        0 <= axis < 3,
        t % 6 == 2 * axis + (if high {
            1int
        } else {
            0
        }),
        0 <= p < faces_of_side(o, t).len(),
    ensures
        ({
            let face: Face<S> = faces_of_side(o, t)[p];
            &&& face.owner == t / 6
            &&& lies_on_side(face, cell_of_face(o, t, face), axis, high)
        }),
{
    let leaf: Cell<S> = base_cells(o)[t / 6];
    let face: Face<S> = faces_of_side(o, t)[p];
    boundary_faces_lead_to_mirrored_cells(o, t, p);
    assert(t / 6 < base_cells(o).len());
    assert(all_cells(o)[t / 6] == leaf);
    match o.sides[t] {
        NeighborSet::Finer(fs) => {
            slot_faces_lie_on_sides(o, t, fs, 4, p, axis, high);
        },
        _ => {
            side_faces_lie_on_their_side(
                t / 6,
                face.other as int,
                t,
                leaf,
                face.patch,
                axis,
                high,
            );
        },
    }
}

/// The sub-faces of a side with finer neighbors.
proof fn slot_faces_lie_on_sides<S: Scalar>(
    o: Octants<S>,
    t: int,
    fs: FinerSet,
    h: int,
    p: int,
    axis: int,
    high: bool,
)
    requires
        is_ring::<S>(),
        halving_is_exact::<S>(),
        all_cells(o).len() <= usize::MAX,
        0 <= t,
        0 <= t / 6 < o.leaves.len(),
        0 <= axis < 3,
        t % 6 == 2 * axis + (if high {
            1int
        } else {
            0
        }),
        0 <= h <= 4,
        0 <= p < slot_faces(o, t, fs, h).len(),
    ensures
        ({
            let face: Face<S> = slot_faces(o, t, fs, h)[p];
            lies_on_side(face, all_cells(o)[face.other as int], axis, high)
        }),
    decreases h,
{
    slot_faces_lead_to_ghosts(o, t, fs, h, p);
    let face: Face<S> = slot_faces(o, t, fs, h)[p];
    if p < slot_faces(o, t, fs, h - 1).len() {
        slot_faces_lie_on_sides(o, t, fs, h - 1, p, axis, high);
    } else {
        let fine: Cell<S> = base_cells(o)[face.other as int];
        assert(all_cells(o)[face.other as int] == fine);
        side_faces_lie_on_their_side(t / 6, face.other as int, t, fine, None, axis, high);
    }
}

/// The cell across a boundary side is the mirror image of the leaf: of the same size
/// and level, beside it, and sharing the side that the face between them lies on.
pub proof fn mirrored_cells_share_the_side<S: Scalar>(
    o: Octants<S>,
    t: int,
    axis: int,
    high: bool,
)
    requires
        is_ring::<S>(),
        halving_is_exact::<S>(),
        has_all_sides(o),
        all_cells(o).len() <= usize::MAX,
        0 <= t < o.sides.len(),
        o.sides[t] is Boundary,
        0 <= axis < 3,
        t % 6 == 2 * axis + (if high {
            1int
        } else {
            0
        }),
    ensures
        ({
            let face: Face<S> = faces_of_side(o, t)[0];
            let leaf: Cell<S> = all_cells(o)[face.owner as int];
            let image: Cell<S> = all_cells(o)[face.other as int];
            &&& faces_of_side(o, t).len() == 1
            &&& image.is_ghost
            &&& image.level == leaf.level
            &&& image.size == leaf.size
            &&& side_plane(image, axis, !high) == side_plane(leaf, axis, high)
            &&& face.centroid[axis] == side_plane(leaf, axis, high)
            &&& forall|a: int|
                0 <= a < 3 && a != axis ==> (#[trigger] image.center[a]) == leaf.center[a]
        }),
{
    boundary_faces_lead_to_mirrored_cells(o, t, 0);
    faces_lie_on_sides(o, t, 0, axis, high);
    let leaf: Cell<S> = base_cells(o)[t / 6];
    assert(all_cells(o)[t / 6] == leaf);
    let image: Cell<S> = mirrored(o, t);
    let (s, c): (S, S) = (leaf.size[axis], leaf.center[axis]);
    let h: S = s.halved_spec();
    if high {
        times_one(s);
        half_step_back(c, s);
        half_step_back(c.plus_spec(h), s);
    } else {
        times_minus_one(s);
        plus_negated(c, s);
        // One extent under the center, and half of one up again.
        let low: S = c.minus_spec(s);
        minus_restores(c, s);
        halves_make_a_whole(s);
        plus_associates(low, h, h);
        difference_is(c, h, low.plus_spec(h));
    }
    assert forall|a: int| 0 <= a < 3 && a != axis implies (#[trigger] image.center[a])
        == leaf.center[a] by {}
}

/// Where a side lists one face, the stencil across it is the other cell of that face;
/// where all finer neighbors are on this rank it is those four, in their order, and
/// across a rank boundary it is empty.
pub proof fn stencils_name_the_cells_across<S: Scalar>(o: Octants<S>, t: int)
    requires
        has_all_sides(o),
        all_cells(o).len() <= usize::MAX,
        0 <= t < o.sides.len(),
    ensures
        match o.sides[t] {
            NeighborSet::Remote(_) => neighbors_of_side(o, t).len() == 0,
            NeighborSet::Finer(fs) => if exists|h: nat| h < 4 && #[trigger] fs.ghost_at(h) {
                neighbors_of_side(o, t).len() == 0
            } else {
                &&& neighbors_of_side(o, t).len() == 4
                &&& forall|h: int|
                    0 <= h < 4 ==> #[trigger] neighbors_of_side(o, t)[h] == fs.idx[h]
            },
            NeighborSet::Same(n) => neighbors_of_side(o, t) == seq![n],
            _ => neighbors_of_side(o, t) == seq![faces_of_side(o, t)[0].other],
        },
{
    if let NeighborSet::Finer(fs) = o.sides[t] {
        if exists|h: nat| h < 4 && #[trigger] fs.ghost_at(h) {
            let h: nat = choose|h: nat| h < 4 && #[trigger] fs.ghost_at(h);
            assert(h == 0 || h == 1 || h == 2 || h == 3);
        } else {
            assert(!fs.ghost_at(0) && !fs.ghost_at(1) && !fs.ghost_at(2) && !fs.ghost_at(3));
        }
    }
}

/// The least level is that of some cell, and no cell has a lower one.
pub proof fn least_level_is_least<S>(cells: Seq<Cell<S>>)
    requires
        cells.len() > 0,
    ensures
        exists|i: int| 0 <= i < cells.len() && (#[trigger] cells[i]).level == least_level(cells),
        forall|i: int| 0 <= i < cells.len() ==> least_level(cells) <= (#[trigger] cells[i]).level,
    decreases cells.len(),
{
    let rest: Seq<Cell<S>> = cells.drop_last();
    let last: int = cells.len() - 1;
    if rest.len() > 0 {
        least_level_is_least(rest);
        if !(cells.last().level < least_level(rest)) {
            let i: int = choose|i: int|
                0 <= i < rest.len() && (#[trigger] rest[i]).level == least_level(rest);
            assert(cells[i].level == least_level(cells));
        } else {
            assert(cells[last].level == least_level(cells));
        }
        assert forall|i: int| 0 <= i < cells.len() implies least_level(cells) <= (
        #[trigger] cells[i]).level by {
            if i < last {
                assert(cells[i] == rest[i]);
            }
        }
    } else {
        assert(cells[last].level == least_level(cells));
    }
}

/// The count at a level is the number of the cells at that level.
pub proof fn levels_are_counted<S>(cells: Seq<Cell<S>>, level: u8)
    ensures
        count_at_level(cells, level) == cells.filter(|c: Cell<S>| c.level == level).len(),
    decreases cells.len(),
{
    reveal(Seq::filter);
    if cells.len() > 0 {
        levels_are_counted(cells.drop_last(), level);
    }
}

/// The faces counted as crossing ranks and levels are those without a patch whose
/// other cell is not owned and has another level than the owner.
pub proof fn crossing_faces_are_counted<S>(cells: Seq<Cell<S>>, faces: Seq<Face<S>>)
    ensures
        count_crossing(cells, faces) == faces.filter(
            |f: Face<S>|
                f.patch is None && cells[f.other as int].is_ghost && cells[f.owner as int].level
                    != cells[f.other as int].level,
        ).len(),
    decreases faces.len(),
{
    reveal(Seq::filter);
    if faces.len() > 0 {
        crossing_faces_are_counted(cells, faces.drop_last());
    }
}

} // verus!
