//! What two ranks that trade across a link end up with.

use crate::exchange::HaloAction;
use crate::exchange::a_trade_delivers;
use crate::exchange::arrived;
use crate::exchange::arrived_elsewhere;
use crate::exchange::exchanged;
use crate::exchange::exchanged_store;
use crate::exchange::incoming;
use crate::exchange::is_next_action;
use crate::exchange::outgoing;
use crate::field_data::FieldData;
use crate::halo::HaloLink;
use crate::halo::HaloPlan;
use crate::registry::Flow;
use crate::registry::fills;
use crate::registry::flow_width;
use crate::registry::ready;
use crate::registry::total_width;
use crate::scalar::Scalar;
use core::any::TypeId;
use vstd::prelude::*;

verus! {

/// The stores of two ranks move the same number of scalars per cell.
pub open spec fn widths_match<S: Scalar, D: FieldData<S>>(
    a: Seq<(TypeId, D)>,
    b: Seq<(TypeId, D)>,
) -> bool {
    &&& a.len() == b.len()
    &&& forall|s: int|
        0 <= s < a.len() ==> (#[trigger] a[s]).1.forward_width() == b[s].1.forward_width()
            && a[s].1.reverse_width() == b[s].1.reverse_width()
}

/// A forward exchange brings the owner's data to the ghosts. One rank sends what its
/// next action says, the other takes it in across the link that matches: entry by
/// entry, the receiving cell of the one then holds what the sending cell of the other
/// holds, and everything else is left as it was.
pub proof fn forward_exchange_fills_the_ghosts<S: Scalar, D: FieldData<S>>(
    plan: HaloPlan,
    served: int,
    action: HaloAction<S>,
    sender: Seq<(TypeId, D)>,
    link: HaloLink,
    before: Seq<(TypeId, D)>,
    after: Seq<(TypeId, D)>,
    i: int,
    c: int,
)
    requires
        is_next_action::<S, D>(plan, sender, Flow::Forward, served, action),
        action is SendRecv,
        widths_match::<S, D>(sender, before),
        forall|j: int|
            0 <= j < plan.links@[served].send_cells@.len() ==> fills::<S, D>(
                sender,
                Flow::Forward,
                (#[trigger] plan.links@[served].send_cells@[j]) as int,
            ),
        forall|j: int|
            0 <= j < link.recv_cells@.len() ==> ready::<S, D>(
                before,
                Flow::Forward,
                (#[trigger] link.recv_cells@[j]) as int,
            ),
        plan.links@[served].send_cells@.len() == link.recv_cells@.len(),
        link.recv_cells@.no_duplicates(),
        exchanged::<S, D>(
            before,
            after,
            Flow::Forward,
            incoming(link, Flow::Forward),
            action->send@,
        ),
        0 <= i < before.len(),
        before[i].1.forward_width() > 0,
    ensures
        0 <= served < plan.links@.len(),
        action->rank == plan.links@[served].rank,
        forall|k: int|
            0 <= k < link.recv_cells@.len() ==> after[i].1.cells()[(
            #[trigger] link.recv_cells@[k]) as int] == D::with_forward(
                before[i].1.cells()[link.recv_cells@[k] as int],
                D::forward_of(sender[i].1.cells()[plan.links@[served].send_cells@[k] as int]),
            ),
        after[i].1.cells().len() == before[i].1.cells().len(),
        0 <= c < before[i].1.cells().len() && (forall|k: int|
            0 <= k < link.recv_cells@.len() ==> (#[trigger] link.recv_cells@[k]) != c)
            ==> after[i].1.cells()[c] == before[i].1.cells()[c],
{
    let flow: Flow = Flow::Forward;
    let (out, into): (Seq<usize>, Seq<usize>) = (
        plan.links@[served].send_cells@,
        link.recv_cells@,
    );
    assert(outgoing(plan.links@[served], flow) == out && incoming(link, flow) == into);
    assert forall|s: int| 0 <= s < sender.len() implies flow_width((#[trigger] before[s]).1, flow)
        == flow_width(sender[s].1, flow) by {
        assert(sender[s].1.forward_width() == before[s].1.forward_width());
    }
    assert forall|k: int| 0 <= k < into.len() implies after[i].1.cells()[(
    #[trigger] into[k]) as int] == D::with_forward(
        before[i].1.cells()[into[k] as int],
        D::forward_of(sender[i].1.cells()[out[k] as int]),
    ) by {
        a_trade_delivers::<S, D>(sender, before, after, flow, out, into, k, i);
    }
    rest_is_kept::<S, D>(before, after, flow, into, action->send@, i, c);
}

/// A reverse exchange collects at the owners what the ghosts hold: entry by entry, the
/// sending cell of the one rank has the receiving cell of the other added to it, and
/// everything else is left as it was.
pub proof fn reverse_exchange_collects_at_the_owners<S: Scalar, D: FieldData<S>>(
    plan: HaloPlan,
    served: int,
    action: HaloAction<S>,
    sender: Seq<(TypeId, D)>,
    link: HaloLink,
    before: Seq<(TypeId, D)>,
    after: Seq<(TypeId, D)>,
    i: int,
    c: int,
)
    requires
        is_next_action::<S, D>(plan, sender, Flow::Reverse, served, action),
        action is SendRecv,
        widths_match::<S, D>(sender, before),
        forall|j: int|
            0 <= j < plan.links@[served].recv_cells@.len() ==> fills::<S, D>(
                sender,
                Flow::Reverse,
                (#[trigger] plan.links@[served].recv_cells@[j]) as int,
            ),
        forall|j: int|
            0 <= j < link.send_cells@.len() ==> ready::<S, D>(
                before,
                Flow::Reverse,
                (#[trigger] link.send_cells@[j]) as int,
            ),
        plan.links@[served].recv_cells@.len() == link.send_cells@.len(),
        link.send_cells@.no_duplicates(),
        exchanged::<S, D>(
            before,
            after,
            Flow::Reverse,
            incoming(link, Flow::Reverse),
            action->send@,
        ),
        0 <= i < before.len(),
        before[i].1.reverse_width() > 0,
    ensures
        0 <= served < plan.links@.len(),
        action->rank == plan.links@[served].rank,
        forall|k: int|
            0 <= k < link.send_cells@.len() ==> after[i].1.cells()[(
            #[trigger] link.send_cells@[k]) as int] == D::with_added(
                before[i].1.cells()[link.send_cells@[k] as int],
                D::reverse_of(sender[i].1.cells()[plan.links@[served].recv_cells@[k] as int]),
            ),
        after[i].1.cells().len() == before[i].1.cells().len(),
        0 <= c < before[i].1.cells().len() && (forall|k: int|
            0 <= k < link.send_cells@.len() ==> (#[trigger] link.send_cells@[k]) != c)
            ==> after[i].1.cells()[c] == before[i].1.cells()[c],
{
    let flow: Flow = Flow::Reverse;
    let (out, into): (Seq<usize>, Seq<usize>) = (
        plan.links@[served].recv_cells@,
        link.send_cells@,
    );
    assert(outgoing(plan.links@[served], flow) == out && incoming(link, flow) == into);
    assert forall|s: int| 0 <= s < sender.len() implies flow_width((#[trigger] before[s]).1, flow)
        == flow_width(sender[s].1, flow) by {
        assert(sender[s].1.forward_width() == before[s].1.forward_width());
    }
    assert forall|k: int| 0 <= k < into.len() implies after[i].1.cells()[(
    #[trigger] into[k]) as int] == D::with_added(
        before[i].1.cells()[into[k] as int],
        D::reverse_of(sender[i].1.cells()[out[k] as int]),
    ) by {
        a_trade_delivers::<S, D>(sender, before, after, flow, out, into, k, i);
    }
    rest_is_kept::<S, D>(before, after, flow, into, action->send@, i, c);
}

/// Cells that receive nothing keep what they hold.
proof fn rest_is_kept<S: Scalar, D: FieldData<S>>(
    before: Seq<(TypeId, D)>,
    after: Seq<(TypeId, D)>,
    flow: Flow,
    into: Seq<usize>,
    buf: Seq<S>,
    i: int,
    c: int,
)
    requires
        exchanged::<S, D>(before, after, flow, into, buf),
        0 <= i < before.len(),
        flow_width(before[i].1, flow) > 0,
        forall|j: int|
            0 <= j < into.len() ==> ready::<S, D>(before, flow, (#[trigger] into[j]) as int),
    ensures
        after[i].1.cells().len() == before[i].1.cells().len(),
        0 <= c < before[i].1.cells().len() && (forall|k: int|
            0 <= k < into.len() ==> (#[trigger] into[k]) != c) ==> after[i].1.cells()[c]
            == before[i].1.cells()[c],
{
    assert(exchanged_store(before, after[i], flow, into, buf, i));
    let cells: Seq<D::Cell> = before[i].1.cells();
    assert forall|j: int| 0 <= j < into.len() implies (#[trigger] into[j]) < cells.len() by {
        assert(ready::<S, D>(before, flow, into[j] as int));
    }
    let stride: int = total_width::<S, D>(before, flow) as int;
    let start: int = total_width::<S, D>(before.take(i), flow) as int;
    let width: int = flow_width(before[i].1, flow) as int;
    arrived_keeps_length::<S, D>(cells, flow, into, buf, stride, start, width);
    if 0 <= c < cells.len() && forall|k: int|
        0 <= k < into.len() ==> (#[trigger] into[k]) != c {
        arrived_elsewhere::<S, D>(cells, flow, into, buf, stride, start, width, c);
    }
}

/// Receiving does not change the number of cells.
proof fn arrived_keeps_length<S: Scalar, D: FieldData<S>>(
    cells: Seq<D::Cell>,
    flow: Flow,
    at: Seq<usize>,
    buf: Seq<S>,
    stride: int,
    start: int,
    width: int,
)
    requires
        forall|j: int| 0 <= j < at.len() ==> (#[trigger] at[j]) < cells.len(),
    ensures
        arrived::<S, D>(cells, flow, at, buf, stride, start, width).len() == cells.len(),
    decreases at.len(),
{
    if at.len() > 0 {
        let rest: Seq<usize> = at.drop_last();
        assert forall|j: int| 0 <= j < rest.len() implies (#[trigger] rest[j]) < cells.len() by {
            assert(rest[j] == at[j]);
        }
        assert(at[at.len() - 1] == at.last());
        arrived_keeps_length::<S, D>(cells, flow, at.drop_last(), buf, stride, start, width);
    }
}

} // verus!
