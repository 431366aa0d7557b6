//! Halo exchange, step by step.
//!
//! An exchange serves the links of a [`HaloPlan`] in order: pack the cells of a
//! link, trade the buffer with the rank behind it, unpack what came back. The
//! trade belongs to the caller. Each function here takes what happened last and
//! returns what to do next, so the caller's loop holds nothing but the trade.
//!
//! A plan holds no notion of what lives in a cell: the exchange moves whatever the
//! stores declare as forward or reverse data.

use crate::field_data::FieldData;
use crate::halo::HaloLink;
use crate::halo::HaloPlan;
use crate::registry::FieldRegistry;
use crate::registry::Flow;
use crate::registry::each_store_gets_its_share;
use crate::registry::fills;
use crate::registry::flow_data;
use crate::registry::flow_received;
use crate::registry::flow_width;
use crate::registry::ready;
use crate::registry::row;
use crate::registry::same_layout;
use crate::registry::took;
use crate::registry::took_share;
use crate::registry::total_width;
use crate::scalar::Scalar;
use core::any::TypeId;
use vstd::arithmetic::mul::*;
use vstd::prelude::*;

verus! {

/// What happened last in an exchange.
pub enum HaloEvent<'a, S> {
    /// Nothing yet.
    Begin,
    /// The trade across a link is done.
    Received {
        /// The link, as its number in the plan.
        link: usize,
        /// What the rank behind it sent.
        data: &'a [S],
    },
}

/// What to do next in an exchange.
pub enum HaloAction<S> {
    /// The exchange is complete.
    Done,
    /// Trade buffers with a rank.
    SendRecv {
        /// The link, as its number in the plan.
        link: usize,
        /// The rank to trade with.
        rank: i32,
        /// What to send to it.
        send: Vec<S>,
    },
}

/// The cells of a link whose data goes out: the send cells, or along a reverse
/// exchange the ghost cells.
pub open spec fn outgoing(link: HaloLink, flow: Flow) -> Seq<usize> {
    match flow {
        Flow::Forward => link.send_cells@,
        Flow::Reverse => link.recv_cells@,
    }
}

/// The cells of a link that take what comes in.
pub open spec fn incoming(link: HaloLink, flow: Flow) -> Seq<usize> {
    match flow {
        Flow::Forward => link.recv_cells@,
        Flow::Reverse => link.send_cells@,
    }
}

/// What the cells `at` send, one after the other, over all stores.
pub open spec fn parcel<S: Scalar, D: FieldData<S>>(
    entries: Seq<(TypeId, D)>,
    flow: Flow,
    at: Seq<usize>,
) -> Seq<S>
    decreases at.len(),
{
    if at.len() == 0 {
        Seq::empty()
    } else {
        parcel::<S, D>(entries, flow, at.drop_last()) + row::<S, D>(
            entries,
            flow,
            at.last() as int,
        )
    }
}

/// What the cells `at` send, one after the other, from one store.
pub open spec fn store_parcel<S: Scalar, D: FieldData<S>>(
    store: D,
    flow: Flow,
    at: Seq<usize>,
) -> Seq<S>
    decreases at.len(),
{
    if at.len() == 0 {
        Seq::empty()
    } else {
        store_parcel::<S, D>(store, flow, at.drop_last()) + flow_data::<S, D>(
            store.cells()[at.last() as int],
            flow,
        )
    }
}

/// The cells of a store after the cells `at`, one after the other, received `buf`.
/// Each of them takes the `width` scalars at `start` of its stretch of `stride`.
pub open spec fn arrived<S: Scalar, D: FieldData<S>>(
    cells: Seq<D::Cell>,
    flow: Flow,
    at: Seq<usize>,
    buf: Seq<S>,
    stride: int,
    start: int,
    width: int,
) -> Seq<D::Cell>
    decreases at.len(),
{
    if at.len() == 0 {
        cells
    } else {
        let before: Seq<D::Cell> = arrived::<S, D>(
            cells,
            flow,
            at.drop_last(),
            buf,
            stride,
            start,
            width,
        );
        let c: int = at.last() as int;
        let from: int = (at.len() - 1) * stride + start;
        before.update(
            c,
            flow_received::<S, D>(before[c], flow, buf.subrange(from, from + width)),
        )
    }
}

/// `after` is `before` once the cells `at` received `buf` along `flow`, each store
/// taking its share of every cell's stretch.
pub open spec fn exchanged<S: Scalar, D: FieldData<S>>(
    before: Seq<(TypeId, D)>,
    after: Seq<(TypeId, D)>,
    flow: Flow,
    at: Seq<usize>,
    buf: Seq<S>,
) -> bool {
    &&& after.len() == before.len()
    &&& forall|i: int|
        0 <= i < before.len() ==> exchanged_store(before, #[trigger] after[i], flow, at, buf, i)
}

/// `after` is store `i` of `before` once the cells `at` received their share of
/// `buf`.
pub open spec fn exchanged_store<S: Scalar, D: FieldData<S>>(
    before: Seq<(TypeId, D)>,
    after: (TypeId, D),
    flow: Flow,
    at: Seq<usize>,
    buf: Seq<S>,
    i: int,
) -> bool {
    let width: int = flow_width(before[i].1, flow) as int;
    if width == 0 {
        after == before[i]
    } else {
        &&& after.0 == before[i].0
        &&& same_layout(after.1, before[i].1)
        &&& before[i].1.even() ==> after.1.even()
        &&& after.1.cells() == arrived::<S, D>(
            before[i].1.cells(),
            flow,
            at,
            buf,
            total_width::<S, D>(before, flow) as int,
            total_width::<S, D>(before.take(i), flow) as int,
            width,
        )
    }
}

/// Every cell that a link names is held by every store that takes part.
pub open spec fn link_is_ready<S: Scalar, D: FieldData<S>>(
    entries: Seq<(TypeId, D)>,
    flow: Flow,
    link: HaloLink,
) -> bool {
    &&& forall|k: int|
        0 <= k < link.send_cells@.len() ==> ready::<S, D>(
            entries,
            flow,
            (#[trigger] link.send_cells@[k]) as int,
        )
    &&& forall|k: int|
        0 <= k < link.recv_cells@.len() ==> ready::<S, D>(
            entries,
            flow,
            (#[trigger] link.recv_cells@[k]) as int,
        )
}

/// Every cell that the plan names is held by every store that takes part.
pub open spec fn plan_is_ready<S: Scalar, D: FieldData<S>>(
    entries: Seq<(TypeId, D)>,
    flow: Flow,
    plan: HaloPlan,
) -> bool {
    forall|l: int|
        0 <= l < plan.links@.len() ==> link_is_ready::<S, D>(
            entries,
            flow,
            #[trigger] plan.links@[l],
        )
}

/// `action` is what remains to be done once the first `served` links are served:
/// the trade across the next link, or nothing.
pub open spec fn is_next_action<S: Scalar, D: FieldData<S>>(
    plan: HaloPlan,
    entries: Seq<(TypeId, D)>,
    flow: Flow,
    served: int,
    action: HaloAction<S>,
) -> bool {
    match action {
        HaloAction::Done => total_width::<S, D>(entries, flow) == 0 || served
            >= plan.links@.len(),
        HaloAction::SendRecv { link, rank, send } => {
            &&& total_width::<S, D>(entries, flow) > 0
            &&& link == served < plan.links@.len()
            &&& rank == plan.links@[served].rank
            &&& send@ == parcel::<S, D>(entries, flow, outgoing(plan.links@[served], flow))
        },
    }
}

/// One more cell takes its share.
proof fn exchanged_step<S: Scalar, D: FieldData<S>>(
    before: Seq<(TypeId, D)>,
    mid: Seq<(TypeId, D)>,
    after: Seq<(TypeId, D)>,
    flow: Flow,
    at: Seq<usize>,
    buf: Seq<S>,
)
    requires
        at.len() > 0,
        exchanged::<S, D>(before, mid, flow, at.drop_last(), buf),
        buf.len() == at.len() * total_width::<S, D>(before, flow),
        took::<S, D>(
            mid,
            after,
            flow,
            at.last() as int,
            buf.subrange((at.len() - 1) * total_width::<S, D>(before, flow), buf.len() as int),
        ),
    ensures
        exchanged::<S, D>(before, after, flow, at, buf),
{
    let stride: int = total_width::<S, D>(before, flow) as int;
    let done: int = (at.len() - 1) * stride;
    lemma_mul_is_distributive_add_other_way(stride, at.len() - 1, 1);
    lemma_mul_basics(stride);
    lemma_mul_nonnegative(at.len() - 1, stride);
    let rest: Seq<S> = buf.subrange(done, buf.len() as int);
    widths_agree::<S, D>(before, mid, flow, at.drop_last(), buf);
    assert forall|i: int| 0 <= i < before.len() implies exchanged_store(
        before,
        #[trigger] after[i],
        flow,
        at,
        buf,
        i,
    ) by {
        assert(exchanged_store(before, mid[i], flow, at.drop_last(), buf, i));
        assert(took_share(mid, after[i], flow, at.last() as int, rest, i));
        let width: int = flow_width(before[i].1, flow) as int;
        if width > 0 {
            let start: int = total_width::<S, D>(before.take(i), flow) as int;
            widths_agree_upto::<S, D>(before, mid, flow, i);
            crate::registry::share_is_inside::<S, D>(before, flow, i);
            assert(rest.subrange(start, start + width) =~= buf.subrange(
                done + start,
                done + start + width,
            ));
        }
    }
}

/// Stores keep their widths in an exchange.
proof fn widths_agree<S: Scalar, D: FieldData<S>>(
    before: Seq<(TypeId, D)>,
    after: Seq<(TypeId, D)>,
    flow: Flow,
    at: Seq<usize>,
    buf: Seq<S>,
)
    requires
        exchanged::<S, D>(before, after, flow, at, buf),
    ensures
        before.len() == after.len(),
        forall|i: int|
            0 <= i < before.len() ==> flow_width(#[trigger] after[i].1, flow) == flow_width(
                before[i].1,
                flow,
            ),
        total_width::<S, D>(after, flow) == total_width::<S, D>(before, flow),
{
    assert forall|i: int| 0 <= i < before.len() implies flow_width(#[trigger] after[i].1, flow)
        == flow_width(before[i].1, flow) by {
        assert(exchanged_store(before, after[i], flow, at, buf, i));
    }
    crate::registry::same_widths::<S, D>(after, before, flow);
}

/// Stores of the same widths have the same widths before each store.
proof fn widths_agree_upto<S: Scalar, D: FieldData<S>>(
    before: Seq<(TypeId, D)>,
    after: Seq<(TypeId, D)>,
    flow: Flow,
    n: int,
)
    requires
        before.len() == after.len(),
        0 <= n <= before.len(),
        forall|i: int|
            0 <= i < before.len() ==> flow_width(#[trigger] after[i].1, flow) == flow_width(
                before[i].1,
                flow,
            ),
    ensures
        total_width::<S, D>(after.take(n), flow) == total_width::<S, D>(before.take(n), flow),
{
    let a: Seq<(TypeId, D)> = after.take(n);
    let b: Seq<(TypeId, D)> = before.take(n);
    assert forall|i: int| 0 <= i < a.len() implies flow_width(#[trigger] a[i].1, flow)
        == flow_width(b[i].1, flow) by {
        assert(flow_width(after[i].1, flow) == flow_width(before[i].1, flow));
    }
    crate::registry::same_widths::<S, D>(a, b, flow);
}

/// An exchange of no cells changes nothing.
proof fn nothing_exchanged<S: Scalar, D: FieldData<S>>(
    entries: Seq<(TypeId, D)>,
    flow: Flow,
    buf: Seq<S>,
)
    ensures
        exchanged::<S, D>(entries, entries, flow, Seq::empty(), buf),
{
    assert forall|i: int| 0 <= i < entries.len() implies exchanged_store(
        entries,
        #[trigger] entries[i],
        flow,
        Seq::empty(),
        buf,
        i,
    ) by {}
}

/// Cells that were held stay held.
proof fn readiness_is_kept<S: Scalar, D: FieldData<S>>(
    before: Seq<(TypeId, D)>,
    after: Seq<(TypeId, D)>,
    flow: Flow,
    c: int,
)
    requires
        before.len() == after.len(),
        ready::<S, D>(before, flow, c),
        forall|i: int|
            0 <= i < before.len() ==> keeps_cells(before[i], #[trigger] after[i], flow),
    ensures
        ready::<S, D>(after, flow, c),
{
    assert forall|i: int|
        0 <= i < after.len() && flow_width((#[trigger] after[i]).1, flow) > 0 implies
        after[i].1.even() && 0 <= c < after[i].1.cells().len() by {
        assert(keeps_cells(before[i], after[i], flow));
        assert(flow_width(before[i].1, flow) > 0);
    }
}

/// A store keeps its width and the number of its cells, and stays even.
pub open spec fn keeps_cells<S: Scalar, D: FieldData<S>>(
    before: (TypeId, D),
    after: (TypeId, D),
    flow: Flow,
) -> bool {
    &&& flow_width(after.1, flow) == flow_width(before.1, flow)
    &&& after.1.cells().len() == before.1.cells().len()
    &&& before.1.even() ==> after.1.even()
}

/// A cell that took its share keeps the layout of every store.
proof fn took_keeps_cells<S: Scalar, D: FieldData<S>>(
    before: Seq<(TypeId, D)>,
    after: Seq<(TypeId, D)>,
    flow: Flow,
    c: int,
    buf: Seq<S>,
)
    requires
        took::<S, D>(before, after, flow, c, buf),
        ready::<S, D>(before, flow, c),
    ensures
        forall|i: int|
            0 <= i < before.len() ==> keeps_cells(before[i], #[trigger] after[i], flow),
{
    assert forall|i: int| 0 <= i < before.len() implies keeps_cells(
        before[i],
        #[trigger] after[i],
        flow,
    ) by {
        assert(took_share(before, after[i], flow, c, buf, i));
    }
}

/// A cell takes no more than the width of all stores.
proof fn took_only_front<S: Scalar, D: FieldData<S>>(
    before: Seq<(TypeId, D)>,
    after: Seq<(TypeId, D)>,
    flow: Flow,
    c: int,
    long: Seq<S>,
    short: Seq<S>,
)
    requires
        took::<S, D>(before, after, flow, c, long),
        short.len() == total_width::<S, D>(before, flow) <= long.len(),
        short == long.take(short.len() as int),
    ensures
        took::<S, D>(before, after, flow, c, short),
{
    assert forall|i: int| 0 <= i < before.len() implies took_share(
        before,
        #[trigger] after[i],
        flow,
        c,
        short,
        i,
    ) by {
        assert(took_share(before, after[i], flow, c, long, i));
        let start: int = total_width::<S, D>(before.take(i), flow) as int;
        let width: int = flow_width(before[i].1, flow) as int;
        crate::registry::share_is_inside::<S, D>(before, flow, i);
        assert(short.subrange(start, start + width) =~= long.subrange(start, start + width));
    }
}

/// What arrives does not depend on what follows the stretches that were taken.
proof fn arrived_ignores_rest<S: Scalar, D: FieldData<S>>(
    cells: Seq<D::Cell>,
    flow: Flow,
    at: Seq<usize>,
    short: Seq<S>,
    long: Seq<S>,
    stride: int,
    start: int,
    width: int,
)
    requires
        0 <= start,
        0 <= width,
        start + width <= stride,
        at.len() * stride <= short.len() <= long.len(),
        short == long.take(short.len() as int),
    ensures
        arrived::<S, D>(cells, flow, at, short, stride, start, width) == arrived::<S, D>(
            cells,
            flow,
            at,
            long,
            stride,
            start,
            width,
        ),
    decreases at.len(),
{
    if at.len() > 0 {
        lemma_mul_is_distributive_add_other_way(stride, at.len() - 1, 1);
        lemma_mul_basics(stride);
        lemma_mul_nonnegative(at.len() - 1, stride);
        arrived_ignores_rest::<S, D>(
            cells,
            flow,
            at.drop_last(),
            short,
            long,
            stride,
            start,
            width,
        );
        let from: int = (at.len() - 1) * stride + start;
        assert(short.subrange(from, from + width) =~= long.subrange(from, from + width));
    }
}

/// An exchange does not depend on what follows the stretches that were taken.
proof fn exchanged_ignores_rest<S: Scalar, D: FieldData<S>>(
    before: Seq<(TypeId, D)>,
    after: Seq<(TypeId, D)>,
    flow: Flow,
    at: Seq<usize>,
    short: Seq<S>,
    long: Seq<S>,
)
    requires
        exchanged::<S, D>(before, after, flow, at, short),
        at.len() * total_width::<S, D>(before, flow) <= short.len() <= long.len(),
        short == long.take(short.len() as int),
    ensures
        exchanged::<S, D>(before, after, flow, at, long),
{
    assert forall|i: int| 0 <= i < before.len() implies exchanged_store(
        before,
        #[trigger] after[i],
        flow,
        at,
        long,
        i,
    ) by {
        assert(exchanged_store(before, after[i], flow, at, short, i));
        crate::registry::share_is_inside::<S, D>(before, flow, i);
        arrived_ignores_rest::<S, D>(
            before[i].1.cells(),
            flow,
            at,
            short,
            long,
            total_width::<S, D>(before, flow) as int,
            total_width::<S, D>(before.take(i), flow) as int,
            flow_width(before[i].1, flow) as int,
        );
    }
}

/// What the cells `at` send along a forward exchange.
fn pack_forward_cells<S: Scalar, D: FieldData<S>>(
    registry: &FieldRegistry<S, D>,
    at: &Vec<usize>,
) -> (r: Vec<S>)
    requires
        registry.valid(),
        forall|k: int|
            0 <= k < at@.len() ==> ready::<S, D>(
                registry.entries(),
                Flow::Forward,
                (#[trigger] at@[k]) as int,
            ),
    ensures
        r@ == parcel::<S, D>(registry.entries(), Flow::Forward, at@),
{
    let mut send: Vec<S> = Vec::new();
    let mut k: usize = 0;
    while k < at.len()
        invariant
            registry.valid(),
            forall|j: int|
                0 <= j < at@.len() ==> ready::<S, D>(
                    registry.entries(),
                    Flow::Forward,
                    (#[trigger] at@[j]) as int,
                ),
            k <= at@.len(),
            send@ == parcel::<S, D>(registry.entries(), Flow::Forward, at@.take(k as int)),
        decreases at@.len() - k,
    {
        registry.pack_forward_all(at[k], &mut send);
        k = k + 1;
        assert(at@.take(k as int).drop_last() =~= at@.take(k - 1));
    }
    assert(at@.take(k as int) =~= at@);
    send
}

/// Hand `data` to the cells `at` along a forward exchange.
fn unpack_forward_cells<S: Scalar, D: FieldData<S>>(
    registry: &mut FieldRegistry<S, D>,
    at: &Vec<usize>,
    data: &[S],
)
    requires
        old(registry).valid(),
        forall|k: int|
            0 <= k < at@.len() ==> ready::<S, D>(
                old(registry).entries(),
                Flow::Forward,
                (#[trigger] at@[k]) as int,
            ),
        data@.len() == at@.len() * total_width::<S, D>(old(registry).entries(), Flow::Forward),
    ensures
        final(registry).valid(),
        exchanged::<S, D>(
            old(registry).entries(),
            final(registry).entries(),
            Flow::Forward,
            at@,
            data@,
        ),
        forall|i: int|
            0 <= i < old(registry).entries().len() ==> keeps_cells(
                old(registry).entries()[i],
                #[trigger] final(registry).entries()[i],
                Flow::Forward,
            ),
{
    let ghost before: Seq<(TypeId, D)> = registry.entries();
    let ghost stride: int = total_width::<S, D>(before, Flow::Forward) as int;
    let mut off: usize = 0;
    let mut k: usize = 0;
    proof {
        lemma_mul_basics(stride);
        nothing_exchanged::<S, D>(before, Flow::Forward, data@.take(0));
        assert(at@.take(0) =~= Seq::empty());
    }
    while k < at.len()
        invariant
            registry.valid(),
            before == old(registry).entries(),
            stride == total_width::<S, D>(before, Flow::Forward),
            forall|j: int|
                0 <= j < at@.len() ==> ready::<S, D>(
                    before,
                    Flow::Forward,
                    (#[trigger] at@[j]) as int,
                ),
            data@.len() == at@.len() * stride,
            k <= at@.len(),
            off == k * stride,
            exchanged::<S, D>(
                before,
                registry.entries(),
                Flow::Forward,
                at@.take(k as int),
                data@.take(off as int),
            ),
            forall|i: int|
                0 <= i < before.len() ==> keeps_cells(
                    before[i],
                    #[trigger] registry.entries()[i],
                    Flow::Forward,
                ),
        decreases at@.len() - k,
    {
        let ghost mid: Seq<(TypeId, D)> = registry.entries();
        let ghost c: int = at@[k as int] as int;
        proof {
            readiness_is_kept::<S, D>(before, mid, Flow::Forward, c);
            widths_agree::<S, D>(
                before,
                mid,
                Flow::Forward,
                at@.take(k as int),
                data@.take(off as int),
            );
            lemma_mul_is_distributive_add_other_way(stride, k as int, 1);
            lemma_mul_basics(stride);
            lemma_mul_inequality(k + 1, at@.len() as int, stride);
        }
        let rest: &[S] = vstd::slice::slice_subrange(data, off, data.len());
        let used: usize = registry.unpack_forward_all(at[k], rest);
        proof {
            let after: Seq<(TypeId, D)> = registry.entries();
            let buf: Seq<S> = data@.take(off + used);
            let share: Seq<S> = buf.subrange(off as int, buf.len() as int);
            assert(share =~= rest@.take(share.len() as int));
            assert(data@.take(off as int) =~= buf.take(off as int));
            took_only_front::<S, D>(mid, after, Flow::Forward, c, rest@, share);
            exchanged_ignores_rest::<S, D>(
                before,
                mid,
                Flow::Forward,
                at@.take(k as int),
                data@.take(off as int),
                buf,
            );
            assert(at@.take(k + 1).drop_last() =~= at@.take(k as int));
            exchanged_step::<S, D>(before, mid, after, Flow::Forward, at@.take(k + 1), buf);
            took_keeps_cells::<S, D>(mid, after, Flow::Forward, c, share);
            assert forall|i: int| 0 <= i < before.len() implies keeps_cells(
                before[i],
                #[trigger] after[i],
                Flow::Forward,
            ) by {
                assert(keeps_cells(before[i], mid[i], Flow::Forward));
                assert(keeps_cells(mid[i], after[i], Flow::Forward));
            }
        }
        off = off + used;
        k = k + 1;
    }
    assert(at@.take(k as int) =~= at@);
    assert(data@.take(off as int) =~= data@);
}

/// What the cells `at` send along a reverse exchange.
fn pack_reverse_cells<S: Scalar, D: FieldData<S>>(
    registry: &FieldRegistry<S, D>,
    at: &Vec<usize>,
) -> (r: Vec<S>)
    requires
        registry.valid(),
        forall|k: int|
            0 <= k < at@.len() ==> ready::<S, D>(
                registry.entries(),
                Flow::Reverse,
                (#[trigger] at@[k]) as int,
            ),
    ensures
        r@ == parcel::<S, D>(registry.entries(), Flow::Reverse, at@),
{
    let mut send: Vec<S> = Vec::new();
    let mut k: usize = 0;
    while k < at.len()
        invariant
            registry.valid(),
            forall|j: int|
                0 <= j < at@.len() ==> ready::<S, D>(
                    registry.entries(),
                    Flow::Reverse,
                    (#[trigger] at@[j]) as int,
                ),
            k <= at@.len(),
            send@ == parcel::<S, D>(registry.entries(), Flow::Reverse, at@.take(k as int)),
        decreases at@.len() - k,
    {
        registry.pack_reverse_all(at[k], &mut send);
        k = k + 1;
        assert(at@.take(k as int).drop_last() =~= at@.take(k - 1));
    }
    assert(at@.take(k as int) =~= at@);
    send
}

/// Hand `data` to the cells `at` along a reverse exchange.
fn unpack_reverse_cells<S: Scalar, D: FieldData<S>>(
    registry: &mut FieldRegistry<S, D>,
    at: &Vec<usize>,
    data: &[S],
)
    requires
        old(registry).valid(),
        forall|k: int|
            0 <= k < at@.len() ==> ready::<S, D>(
                old(registry).entries(),
                Flow::Reverse,
                (#[trigger] at@[k]) as int,
            ),
        data@.len() == at@.len() * total_width::<S, D>(old(registry).entries(), Flow::Reverse),
    ensures
        final(registry).valid(),
        exchanged::<S, D>(
            old(registry).entries(),
            final(registry).entries(),
            Flow::Reverse,
            at@,
            data@,
        ),
        forall|i: int|
            0 <= i < old(registry).entries().len() ==> keeps_cells(
                old(registry).entries()[i],
                #[trigger] final(registry).entries()[i],
                Flow::Reverse,
            ),
{
    let ghost before: Seq<(TypeId, D)> = registry.entries();
    let ghost stride: int = total_width::<S, D>(before, Flow::Reverse) as int;
    let mut off: usize = 0;
    let mut k: usize = 0;
    proof {
        lemma_mul_basics(stride);
        nothing_exchanged::<S, D>(before, Flow::Reverse, data@.take(0));
        assert(at@.take(0) =~= Seq::empty());
    }
    while k < at.len()
        invariant
            registry.valid(),
            before == old(registry).entries(),
            stride == total_width::<S, D>(before, Flow::Reverse),
            forall|j: int|
                0 <= j < at@.len() ==> ready::<S, D>(
                    before,
                    Flow::Reverse,
                    (#[trigger] at@[j]) as int,
                ),
            data@.len() == at@.len() * stride,
            k <= at@.len(),
            off == k * stride,
            exchanged::<S, D>(
                before,
                registry.entries(),
                Flow::Reverse,
                at@.take(k as int),
                data@.take(off as int),
            ),
            forall|i: int|
                0 <= i < before.len() ==> keeps_cells(
                    before[i],
                    #[trigger] registry.entries()[i],
                    Flow::Reverse,
                ),
        decreases at@.len() - k,
    {
        let ghost mid: Seq<(TypeId, D)> = registry.entries();
        let ghost c: int = at@[k as int] as int;
        proof {
            readiness_is_kept::<S, D>(before, mid, Flow::Reverse, c);
            widths_agree::<S, D>(
                before,
                mid,
                Flow::Reverse,
                at@.take(k as int),
                data@.take(off as int),
            );
            lemma_mul_is_distributive_add_other_way(stride, k as int, 1);
            lemma_mul_basics(stride);
            lemma_mul_inequality(k + 1, at@.len() as int, stride);
        }
        let rest: &[S] = vstd::slice::slice_subrange(data, off, data.len());
        let used: usize = registry.unpack_reverse_all(at[k], rest);
        proof {
            let after: Seq<(TypeId, D)> = registry.entries();
            let buf: Seq<S> = data@.take(off + used);
            let share: Seq<S> = buf.subrange(off as int, buf.len() as int);
            assert(share =~= rest@.take(share.len() as int));
            assert(data@.take(off as int) =~= buf.take(off as int));
            took_only_front::<S, D>(mid, after, Flow::Reverse, c, rest@, share);
            exchanged_ignores_rest::<S, D>(
                before,
                mid,
                Flow::Reverse,
                at@.take(k as int),
                data@.take(off as int),
                buf,
            );
            assert(at@.take(k + 1).drop_last() =~= at@.take(k as int));
            exchanged_step::<S, D>(before, mid, after, Flow::Reverse, at@.take(k + 1), buf);
            took_keeps_cells::<S, D>(mid, after, Flow::Reverse, c, share);
            assert forall|i: int| 0 <= i < before.len() implies keeps_cells(
                before[i],
                #[trigger] after[i],
                Flow::Reverse,
            ) by {
                assert(keeps_cells(before[i], mid[i], Flow::Reverse));
                assert(keeps_cells(mid[i], after[i], Flow::Reverse));
            }
        }
        off = off + used;
        k = k + 1;
    }
    assert(at@.take(k as int) =~= at@);
    assert(data@.take(off as int) =~= data@);
}


/// Stores that keep their cells keep every cell that the plan names.
proof fn plan_stays_ready<S: Scalar, D: FieldData<S>>(
    before: Seq<(TypeId, D)>,
    after: Seq<(TypeId, D)>,
    flow: Flow,
    plan: HaloPlan,
)
    requires
        before.len() == after.len(),
        plan_is_ready::<S, D>(before, flow, plan),
        forall|i: int|
            0 <= i < before.len() ==> keeps_cells(before[i], #[trigger] after[i], flow),
    ensures
        plan_is_ready::<S, D>(after, flow, plan),
{
    assert forall|l: int| 0 <= l < plan.links@.len() implies link_is_ready::<S, D>(
        after,
        flow,
        #[trigger] plan.links@[l],
    ) by {
        let link: HaloLink = plan.links@[l];
        assert(link_is_ready::<S, D>(before, flow, link));
        assert forall|k: int| 0 <= k < link.send_cells@.len() implies ready::<S, D>(
            after,
            flow,
            (#[trigger] link.send_cells@[k]) as int,
        ) by {
            readiness_is_kept::<S, D>(before, after, flow, link.send_cells@[k] as int);
        }
        assert forall|k: int| 0 <= k < link.recv_cells@.len() implies ready::<S, D>(
            after,
            flow,
            (#[trigger] link.recv_cells@[k]) as int,
        ) by {
            readiness_is_kept::<S, D>(before, after, flow, link.recv_cells@[k] as int);
        }
    }
}

/// One step of a forward exchange of every participating store of the registry:
/// owner cells to ghost cells, overwriting, with the data of all stores interleaved
/// cell by cell. Nothing is exchanged where no store has forward data or the plan
/// is serial.
pub fn halo_exchange_forward_all<S: Scalar, D: FieldData<S>>(
    plan: &HaloPlan,
    registry: &mut FieldRegistry<S, D>,
    event: HaloEvent<S>,
) -> (r: HaloAction<S>)
    requires
        old(registry).valid(),
        total_width::<S, D>(old(registry).entries(), Flow::Forward) <= usize::MAX,
        plan_is_ready::<S, D>(old(registry).entries(), Flow::Forward, *plan),
        event matches HaloEvent::Received { link, data } ==> {
            &&& link < plan.links@.len()
            &&& data@.len() == incoming(plan.links@[link as int], Flow::Forward).len()
                * total_width::<S, D>(old(registry).entries(), Flow::Forward)
        },
    ensures
        final(registry).valid(),
        plan_is_ready::<S, D>(final(registry).entries(), Flow::Forward, *plan),
        total_width::<S, D>(final(registry).entries(), Flow::Forward) == total_width::<S, D>(
            old(registry).entries(),
            Flow::Forward,
        ),
        match event {
            HaloEvent::Begin => {
                &&& *final(registry) == *old(registry)
                &&& is_next_action::<S, D>(*plan, final(registry).entries(), Flow::Forward, 0, r)
            },
            HaloEvent::Received { link, data } => {
                &&& exchanged::<S, D>(
                    old(registry).entries(),
                    final(registry).entries(),
                    Flow::Forward,
                    incoming(plan.links@[link as int], Flow::Forward),
                    data@,
                )
                &&& is_next_action::<S, D>(
                    *plan,
                    final(registry).entries(),
                    Flow::Forward,
                    link + 1,
                    r,
                )
            },
        },
{
    let ghost before: Seq<(TypeId, D)> = registry.entries();
    let count: usize = plan.links.len();
    let next: usize = match event {
        HaloEvent::Begin => 0,
        HaloEvent::Received { link, data } => {
            assert(link_is_ready::<S, D>(before, Flow::Forward, plan.links@[link as int]));
            unpack_forward_cells(registry, &plan.links[link].recv_cells, data);
            proof {
                let after: Seq<(TypeId, D)> = registry.entries();
                widths_agree::<S, D>(
                    before,
                    after,
                    Flow::Forward,
                    incoming(plan.links@[link as int], Flow::Forward),
                    data@,
                );
                plan_stays_ready::<S, D>(before, after, Flow::Forward, *plan);
            }
            link + 1
        },
    };
    if registry.forward_size() == 0 || next >= count {
        return HaloAction::Done;
    }
    let link: &HaloLink = &plan.links[next];
    assert(link_is_ready::<S, D>(registry.entries(), Flow::Forward, *link));
    let send: Vec<S> = pack_forward_cells(registry, &link.send_cells);
    HaloAction::SendRecv { link: next, rank: link.rank, send }
}

/// One step of a reverse exchange of every participating store of the registry:
/// ghost contributions to the cells that own them, accumulating. The send and
/// receive cells of every link swap their roles.
pub fn halo_exchange_reverse_all<S: Scalar, D: FieldData<S>>(
    plan: &HaloPlan,
    registry: &mut FieldRegistry<S, D>,
    event: HaloEvent<S>,
) -> (r: HaloAction<S>)
    requires
        old(registry).valid(),
        total_width::<S, D>(old(registry).entries(), Flow::Reverse) <= usize::MAX,
        plan_is_ready::<S, D>(old(registry).entries(), Flow::Reverse, *plan),
        event matches HaloEvent::Received { link, data } ==> {
            &&& link < plan.links@.len()
            &&& data@.len() == incoming(plan.links@[link as int], Flow::Reverse).len()
                * total_width::<S, D>(old(registry).entries(), Flow::Reverse)
        },
    ensures
        final(registry).valid(),
        plan_is_ready::<S, D>(final(registry).entries(), Flow::Reverse, *plan),
        total_width::<S, D>(final(registry).entries(), Flow::Reverse) == total_width::<S, D>(
            old(registry).entries(),
            Flow::Reverse,
        ),
        match event {
            HaloEvent::Begin => {
                &&& *final(registry) == *old(registry)
                &&& is_next_action::<S, D>(*plan, final(registry).entries(), Flow::Reverse, 0, r)
            },
            HaloEvent::Received { link, data } => {
                &&& exchanged::<S, D>(
                    old(registry).entries(),
                    final(registry).entries(),
                    Flow::Reverse,
                    incoming(plan.links@[link as int], Flow::Reverse),
                    data@,
                )
                &&& is_next_action::<S, D>(
                    *plan,
                    final(registry).entries(),
                    Flow::Reverse,
                    link + 1,
                    r,
                )
            },
        },
{
    let ghost before: Seq<(TypeId, D)> = registry.entries();
    let count: usize = plan.links.len();
    let next: usize = match event {
        HaloEvent::Begin => 0,
        HaloEvent::Received { link, data } => {
            assert(link_is_ready::<S, D>(before, Flow::Reverse, plan.links@[link as int]));
            unpack_reverse_cells(registry, &plan.links[link].send_cells, data);
            proof {
                let after: Seq<(TypeId, D)> = registry.entries();
                widths_agree::<S, D>(
                    before,
                    after,
                    Flow::Reverse,
                    incoming(plan.links@[link as int], Flow::Reverse),
                    data@,
                );
                plan_stays_ready::<S, D>(before, after, Flow::Reverse, *plan);
            }
            link + 1
        },
    };
    if registry.reverse_size() == 0 || next >= count {
        return HaloAction::Done;
    }
    let link: &HaloLink = &plan.links[next];
    assert(link_is_ready::<S, D>(registry.entries(), Flow::Reverse, *link));
    let send: Vec<S> = pack_reverse_cells(registry, &link.recv_cells);
    HaloAction::SendRecv { link: next, rank: link.rank, send }
}

/// Store `i` of what arrives at a cell is what that store sent, where every cell
/// receives at most once.
proof fn arrived_at<S: Scalar, D: FieldData<S>>(
    cells: Seq<D::Cell>,
    flow: Flow,
    at: Seq<usize>,
    buf: Seq<S>,
    stride: int,
    start: int,
    width: int,
    k: int,
)
    requires
        0 <= k < at.len(),
        at.no_duplicates(),
        forall|j: int| 0 <= j < at.len() ==> (#[trigger] at[j]) < cells.len(),
    ensures
        arrived::<S, D>(cells, flow, at, buf, stride, start, width).len() == cells.len(),
        arrived::<S, D>(cells, flow, at, buf, stride, start, width)[at[k] as int]
            == flow_received::<S, D>(
            cells[at[k] as int],
            flow,
            buf.subrange(k * stride + start, k * stride + start + width),
        ),
    decreases at.len(),
{
    let rest: Seq<usize> = at.drop_last();
    assert forall|j: int| 0 <= j < rest.len() implies (#[trigger] rest[j]) < cells.len() by {
        assert(rest[j] == at[j]);
    }
    assert(at.last() == at[at.len() - 1]);
    if k < at.len() - 1 {
        assert(rest.no_duplicates());
        arrived_at::<S, D>(cells, flow, rest, buf, stride, start, width, k);
        assert(at[k] != at[at.len() - 1]);
    } else {
        arrived_elsewhere::<S, D>(cells, flow, rest, buf, stride, start, width, at[k] as int);
    }
}

/// A cell that receives nothing is left as it was.
pub proof fn arrived_elsewhere<S: Scalar, D: FieldData<S>>(
    cells: Seq<D::Cell>,
    flow: Flow,
    at: Seq<usize>,
    buf: Seq<S>,
    stride: int,
    start: int,
    width: int,
    c: int,
)
    requires
        0 <= c < cells.len(),
        forall|j: int| 0 <= j < at.len() ==> (#[trigger] at[j]) < cells.len(),
        forall|j: int| 0 <= j < at.len() ==> (#[trigger] at[j]) != c,
    ensures
        arrived::<S, D>(cells, flow, at, buf, stride, start, width).len() == cells.len(),
        arrived::<S, D>(cells, flow, at, buf, stride, start, width)[c] == cells[c],
    decreases at.len(),
{
    if at.len() > 0 {
        let rest: Seq<usize> = at.drop_last();
        assert forall|j: int| 0 <= j < rest.len() implies (#[trigger] rest[j]) < cells.len()
            && rest[j] != c by {
            assert(rest[j] == at[j]);
        }
        arrived_elsewhere::<S, D>(cells, flow, rest, buf, stride, start, width, c);
        assert(at.last() == at[at.len() - 1]);
    }
}

/// The stretch of cell `k` in what a list of cells sends is what that cell sends.
proof fn parcel_stretch<S: Scalar, D: FieldData<S>>(
    entries: Seq<(TypeId, D)>,
    flow: Flow,
    at: Seq<usize>,
    k: int,
)
    requires
        0 <= k < at.len(),
        forall|j: int|
            0 <= j < at.len() ==> fills::<S, D>(entries, flow, (#[trigger] at[j]) as int),
    ensures
        ({
            let stride: int = total_width::<S, D>(entries, flow) as int;
            &&& parcel::<S, D>(entries, flow, at).len() == at.len() * stride
            &&& parcel::<S, D>(entries, flow, at).subrange(k * stride, (k + 1) * stride) == row::<
                S,
                D,
            >(entries, flow, at[k] as int)
        }),
    decreases at.len(),
{
    let stride: int = total_width::<S, D>(entries, flow) as int;
    let rest: Seq<usize> = at.drop_last();
    assert forall|j: int| 0 <= j < rest.len() implies fills::<S, D>(
        entries,
        flow,
        (#[trigger] rest[j]) as int,
    ) by {
        assert(rest[j] == at[j]);
    }
    assert(at.last() == at[at.len() - 1]);
    crate::registry::row_has_width::<S, D>(entries, flow, at.last() as int);
    lemma_mul_is_distributive_add_other_way(stride, at.len() - 1, 1);
    lemma_mul_is_distributive_add_other_way(stride, k, 1);
    lemma_mul_basics(stride);
    lemma_mul_nonnegative(k, stride);
    let all: Seq<S> = parcel::<S, D>(entries, flow, at);
    let last: Seq<S> = row::<S, D>(entries, flow, at.last() as int);
    if rest.len() == 0 {
        assert(parcel::<S, D>(entries, flow, rest).len() == 0);
        assert(all =~= last);
        assert(all.subrange(0, stride) =~= last);
    } else if k < rest.len() {
        parcel_stretch::<S, D>(entries, flow, rest, k);
        lemma_mul_inequality(k + 1, rest.len() as int, stride);
        assert(all.subrange(k * stride, (k + 1) * stride) =~= parcel::<S, D>(
            entries,
            flow,
            rest,
        ).subrange(k * stride, (k + 1) * stride));
    } else {
        parcel_stretch::<S, D>(entries, flow, rest, 0);
        assert(all.subrange(k * stride, (k + 1) * stride) =~= last);
    }
}

/// A trade across a link hands every cell what its counterpart sent: cell `k` of
/// the receiving end takes, in every store, the data of cell `k` of the sending
/// end. Both ends hold the same stores in the same order, and list the same number
/// of cells, the receiving end each at most once.
pub proof fn a_trade_delivers<S: Scalar, D: FieldData<S>>(
    sender: Seq<(TypeId, D)>,
    before: Seq<(TypeId, D)>,
    after: Seq<(TypeId, D)>,
    flow: Flow,
    out: Seq<usize>,
    into: Seq<usize>,
    k: int,
    i: int,
)
    requires
        sender.len() == before.len(),
        forall|s: int|
            0 <= s < sender.len() ==> flow_width((#[trigger] before[s]).1, flow) == flow_width(
                sender[s].1,
                flow,
            ),
        forall|j: int|
            0 <= j < out.len() ==> fills::<S, D>(sender, flow, (#[trigger] out[j]) as int),
        forall|j: int|
            0 <= j < into.len() ==> ready::<S, D>(before, flow, (#[trigger] into[j]) as int),
        out.len() == into.len(),
        into.no_duplicates(),
        exchanged::<S, D>(before, after, flow, into, parcel::<S, D>(sender, flow, out)),
        0 <= k < into.len(),
        0 <= i < before.len(),
        flow_width(before[i].1, flow) > 0,
    ensures
        after[i].1.cells()[into[k] as int] == flow_received::<S, D>(
            before[i].1.cells()[into[k] as int],
            flow,
            flow_data::<S, D>(sender[i].1.cells()[out[k] as int], flow),
        ),
{
    let buf: Seq<S> = parcel::<S, D>(sender, flow, out);
    let stride: int = total_width::<S, D>(before, flow) as int;
    let start: int = total_width::<S, D>(before.take(i), flow) as int;
    let width: int = flow_width(before[i].1, flow) as int;
    crate::registry::same_widths::<S, D>(before, sender, flow);
    widths_agree_upto::<S, D>(sender, before, flow, i);
    assert(exchanged_store(before, after[i], flow, into, buf, i));
    assert forall|j: int| 0 <= j < into.len() implies (#[trigger] into[j])
        < before[i].1.cells().len() by {
        assert(ready::<S, D>(before, flow, into[j] as int));
    }
    arrived_at::<S, D>(before[i].1.cells(), flow, into, buf, stride, start, width, k);
    parcel_stretch::<S, D>(sender, flow, out, k);
    assert(fills::<S, D>(sender, flow, out[k] as int));
    assert(flow_width(sender[i].1, flow) > 0);
    each_store_gets_its_share::<S, D>(sender, flow, out[k] as int, i);
    crate::registry::share_is_inside::<S, D>(before, flow, i);
    lemma_mul_is_distributive_add_other_way(stride, k, 1);
    lemma_mul_basics(stride);
    lemma_mul_nonnegative(k, stride);
    lemma_mul_inequality(k + 1, out.len() as int, stride);
    assert(buf.subrange(k * stride, (k + 1) * stride).subrange(start, start + width)
        =~= buf.subrange(k * stride + start, k * stride + start + width));
}

/// The store holds every cell that the plan names.
pub open spec fn store_is_ready<S: Scalar, D: FieldData<S>>(store: D, plan: HaloPlan) -> bool {
    store.forward_width() > 0 ==> {
        &&& store.even()
        &&& forall|l: int, k: int|
            0 <= l < plan.links@.len() && 0 <= k < plan.links@[l].send_cells@.len()
                ==> #[trigger] plan.links@[l].send_cells@[k] < store.cells().len()
        &&& forall|l: int, k: int|
            0 <= l < plan.links@.len() && 0 <= k < plan.links@[l].recv_cells@.len()
                ==> #[trigger] plan.links@[l].recv_cells@[k] < store.cells().len()
    }
}

/// `action` is what remains to be done for one store once the first `served` links
/// are served.
pub open spec fn is_next_store_action<S: Scalar, D: FieldData<S>>(
    plan: HaloPlan,
    store: D,
    served: int,
    action: HaloAction<S>,
) -> bool {
    match action {
        HaloAction::Done => store.forward_width() == 0 || served >= plan.links@.len(),
        HaloAction::SendRecv { link, rank, send } => {
            &&& store.forward_width() > 0
            &&& link == served < plan.links@.len()
            &&& rank == plan.links@[served].rank
            &&& send@ == store_parcel::<S, D>(
                store,
                Flow::Forward,
                plan.links@[served].send_cells@,
            )
        },
    }
}

/// One step of a forward exchange of a single store: owner cells to ghost cells,
/// overwriting. Nothing is exchanged where the store has no forward data or the
/// plan is serial.
pub fn halo_exchange_forward<S: Scalar, D: FieldData<S>>(
    plan: &HaloPlan,
    field: &mut D,
    event: HaloEvent<S>,
) -> (r: HaloAction<S>)
    requires
        old(field).fits(),
        store_is_ready::<S, D>(*old(field), *plan),
        event matches HaloEvent::Received { link, data } ==> {
            &&& old(field).forward_width() > 0
            &&& link < plan.links@.len()
            &&& data@.len() == plan.links@[link as int].recv_cells@.len() * old(
                field,
            ).forward_width()
        },
    ensures
        same_layout(*final(field), *old(field)),
        store_is_ready::<S, D>(*final(field), *plan),
        match event {
            HaloEvent::Begin => {
                &&& *final(field) == *old(field)
                &&& is_next_store_action::<S, D>(*plan, *final(field), 0, r)
            },
            HaloEvent::Received { link, data } => {
                &&& final(field).cells() == arrived::<S, D>(
                    old(field).cells(),
                    Flow::Forward,
                    plan.links@[link as int].recv_cells@,
                    data@,
                    old(field).forward_width() as int,
                    0,
                    old(field).forward_width() as int,
                )
                &&& is_next_store_action::<S, D>(*plan, *final(field), link + 1, r)
            },
        },
{
    let per: usize = field.forward_size();
    let count: usize = plan.links.len();
    if per == 0 {
        return HaloAction::Done;
    }
    let next: usize = match event {
        HaloEvent::Begin => 0,
        HaloEvent::Received { link, data } => {
            let ghost before: Seq<D::Cell> = field.cells();
            let at: &Vec<usize> = &plan.links[link].recv_cells;
            let mut off: usize = 0;
            let mut k: usize = 0;
            proof {
                lemma_mul_basics(per as int);
                assert forall|j: int| 0 <= j < at@.len() implies (#[trigger] at@[j])
                    < before.len() by {
                    assert(plan.links@[link as int].recv_cells@[j] < before.len());
                }
            }
            while k < at.len()
                invariant
                    per > 0,
                    per == old(field).forward_width(),
                    same_layout(*field, *old(field)),
                    field.fits(),
                    field.even(),
                    before == old(field).cells(),
                    field.cells().len() == before.len(),
                    forall|j: int| 0 <= j < at@.len() ==> (#[trigger] at@[j]) < before.len(),
                    data@.len() == at@.len() * per,
                    k <= at@.len(),
                    off == k * per,
                    field.cells() == arrived::<S, D>(
                        before,
                        Flow::Forward,
                        at@.take(k as int),
                        data@,
                        per as int,
                        0,
                        per as int,
                    ),
                decreases at@.len() - k,
            {
                proof {
                    lemma_mul_is_distributive_add_other_way(per as int, k as int, 1);
                    lemma_mul_basics(per as int);
                    lemma_mul_inequality(k + 1, at@.len() as int, per as int);
                }
                let rest: &[S] = vstd::slice::slice_subrange(data, off, data.len());
                let used: usize = field.unpack_forward(at[k], rest);
                proof {
                    assert(rest@.take(used as int) =~= data@.subrange(off as int, off + used));
                    assert(at@.take(k + 1).drop_last() =~= at@.take(k as int));
                }
                off = off + used;
                k = k + 1;
            }
            assert(at@.take(k as int) =~= at@);
            link + 1
        },
    };
    if next >= count {
        return HaloAction::Done;
    }
    let link: &HaloLink = &plan.links[next];
    let at: &Vec<usize> = &link.send_cells;
    let mut send: Vec<S> = Vec::new();
    let mut k: usize = 0;
    proof {
        assert forall|j: int| 0 <= j < at@.len() implies (#[trigger] at@[j])
            < field.cells().len() by {
            assert(plan.links@[next as int].send_cells@[j] < field.cells().len());
        }
    }
    while k < at.len()
        invariant
            field.even(),
            field.forward_width() > 0,
            forall|j: int| 0 <= j < at@.len() ==> (#[trigger] at@[j]) < field.cells().len(),
            k <= at@.len(),
            send@ == store_parcel::<S, D>(*field, Flow::Forward, at@.take(k as int)),
        decreases at@.len() - k,
    {
        field.pack_forward(at[k], &mut send);
        k = k + 1;
        assert(at@.take(k as int).drop_last() =~= at@.take(k - 1));
    }
    assert(at@.take(k as int) =~= at@);
    HaloAction::SendRecv { link: next, rank: link.rank, send }
}

} // verus!
