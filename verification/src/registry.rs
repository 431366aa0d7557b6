//! [`FieldRegistry`] - all field stores of a run, keyed by their type.

use crate::field_data::FieldData;
use crate::field_data::resized;
use crate::scalar::Scalar;
use core::any::TypeId;
use core::marker::PhantomData;
use vstd::prelude::*;

verus! {

/// `core::any::TypeId`, the identifier of a type, carried as a value.
#[verifier::external_type_specification]
#[verifier::external_body]
pub struct ExTypeId(TypeId);

/// `==` of `core::any::TypeId`. The contract claims that two identifiers compare
/// equal exactly where they are the same identifier.
#[verifier::external_body]
fn same_type(a: &TypeId, b: &TypeId) -> (r: bool)
    ensures
        r == (*a == *b),
{
    a == b
}

/// `text` is one that the standard library can print for the identifier `id`. It
/// promises no particular text, nor the same one in another build.
pub uninterp spec fn may_print(id: TypeId, text: Seq<char>) -> bool;

/// The `Debug` text of a `core::any::TypeId`. The contract claims that it is a text
/// that is printed for this identifier. Which one is not said.
#[verifier::external_body]
fn type_text(id: &TypeId) -> (r: String)
    ensures
        may_print(*id, r@),
{
    format!("{id:?}")
}

/// Why a field store was not registered.
#[derive(Debug, PartialEq, Eq)]
pub enum FieldRegistryError {
    /// A field of this type is already registered (each field type is unique).
    AlreadyRegistered(TypeId),
    /// There is no registry: its plugin was not added before registration was
    /// attempted.
    RegistryMissing,
}

impl Clone for FieldRegistryError {
    fn clone(&self) -> (r: Self)
        ensures
            r == *self,
    {
        match self {
            FieldRegistryError::AlreadyRegistered(id) => FieldRegistryError::AlreadyRegistered(*id),
            FieldRegistryError::RegistryMissing => FieldRegistryError::RegistryMissing,
        }
    }
}

impl FieldRegistryError {
    /// The message for this error.
    pub fn message(&self) -> (r: String)
        ensures
            match *self {
                FieldRegistryError::AlreadyRegistered(id) => exists|text: Seq<char>| #[trigger]
                    may_print(id, text) && r@ == "FieldRegistry: field type "@ + text
                        + " already registered"@,
                FieldRegistryError::RegistryMissing => r@
                    == "FieldRegistry not found \u{2014} FieldRegistryPlugin must be added first"@,
            },
    {
        match self {
            FieldRegistryError::AlreadyRegistered(id) => {
                let text: String = type_text(id);
                let mut r: String = "FieldRegistry: field type ".to_owned();
                r.append(text.as_str());
                r.append(" already registered");
                assert(r@ == "FieldRegistry: field type "@ + text@ + " already registered"@);
                r
            },
            FieldRegistryError::RegistryMissing => {
                "FieldRegistry not found \u{2014} FieldRegistryPlugin must be added first".to_owned()
            },
        }
    }
}

/// The two ways in which cell data crosses between ranks.
pub ghost enum Flow {
    /// Owner to ghost, overwriting.
    Forward,
    /// Ghost to owner, accumulating.
    Reverse,
}

/// Scalars per cell that a store moves along `flow`.
pub open spec fn flow_width<S: Scalar, D: FieldData<S>>(store: D, flow: Flow) -> nat {
    match flow {
        Flow::Forward => store.forward_width(),
        Flow::Reverse => store.reverse_width(),
    }
}

/// What a cell sends along `flow`.
pub open spec fn flow_data<S: Scalar, D: FieldData<S>>(cell: D::Cell, flow: Flow) -> Seq<S> {
    match flow {
        Flow::Forward => D::forward_of(cell),
        Flow::Reverse => D::reverse_of(cell),
    }
}

/// What becomes of a cell that receives `buf` along `flow`.
pub open spec fn flow_received<S: Scalar, D: FieldData<S>>(
    cell: D::Cell,
    flow: Flow,
    buf: Seq<S>,
) -> D::Cell {
    match flow {
        Flow::Forward => D::with_forward(cell, buf),
        Flow::Reverse => D::with_added(cell, buf),
    }
}

/// The positions of the stores that take part in `flow`, ascending.
pub open spec fn positions<S: Scalar, D: FieldData<S>>(
    entries: Seq<(TypeId, D)>,
    flow: Flow,
) -> Seq<usize>
    decreases entries.len(),
{
    if entries.len() == 0 {
        Seq::empty()
    } else if flow_width(entries.last().1, flow) > 0 {
        positions::<S, D>(entries.drop_last(), flow).push((entries.len() - 1) as usize)
    } else {
        positions::<S, D>(entries.drop_last(), flow)
    }
}

/// Scalars per cell over all stores.
pub open spec fn total_width<S: Scalar, D: FieldData<S>>(
    entries: Seq<(TypeId, D)>,
    flow: Flow,
) -> nat
    decreases entries.len(),
{
    if entries.len() == 0 {
        0
    } else {
        total_width::<S, D>(entries.drop_last(), flow) + flow_width(entries.last().1, flow)
    }
}

/// What cell `c` sends over all stores, in registration order.
pub open spec fn row<S: Scalar, D: FieldData<S>>(
    entries: Seq<(TypeId, D)>,
    flow: Flow,
    c: int,
) -> Seq<S>
    decreases entries.len(),
{
    if entries.len() == 0 {
        Seq::empty()
    } else if flow_width(entries.last().1, flow) == 0 {
        row::<S, D>(entries.drop_last(), flow, c)
    } else {
        row::<S, D>(entries.drop_last(), flow, c) + flow_data::<S, D>(
            entries.last().1.cells()[c],
            flow,
        )
    }
}

/// Every store that takes part in `flow` holds cell `c`.
pub open spec fn ready<S: Scalar, D: FieldData<S>>(
    entries: Seq<(TypeId, D)>,
    flow: Flow,
    c: int,
) -> bool {
    forall|i: int|
        0 <= i < entries.len() && flow_width((#[trigger] entries[i]).1, flow) > 0
            ==> entries[i].1.even() && 0 <= c < entries[i].1.cells().len()
}

/// What cell `c` sends from each store that takes part in `flow` has the width of
/// that store.
pub open spec fn fills<S: Scalar, D: FieldData<S>>(
    entries: Seq<(TypeId, D)>,
    flow: Flow,
    c: int,
) -> bool {
    forall|i: int|
        0 <= i < entries.len() && flow_width((#[trigger] entries[i]).1, flow) > 0
            ==> flow_data::<S, D>(entries[i].1.cells()[c], flow).len() == flow_width(
            entries[i].1,
            flow,
        )
}

/// `a` is `b` but for the contents of its cells.
pub open spec fn same_layout<S: Scalar, D: FieldData<S>>(a: D, b: D) -> bool {
    &&& a.blank() == b.blank()
    &&& a.forward_width() == b.forward_width()
    &&& a.reverse_width() == b.reverse_width()
    &&& a.fits() == b.fits()
    &&& a.accumulates() == b.accumulates()
}

/// `after` holds what `before` held, once cell `c` received `buf` along `flow`:
/// each store took its share, in registration order.
pub open spec fn took<S: Scalar, D: FieldData<S>>(
    before: Seq<(TypeId, D)>,
    after: Seq<(TypeId, D)>,
    flow: Flow,
    c: int,
    buf: Seq<S>,
) -> bool {
    &&& after.len() == before.len()
    &&& forall|i: int|
        0 <= i < before.len() ==> took_share(before, #[trigger] after[i], flow, c, buf, i)
}

/// `after` is entry `i` of `before`, once its store received its share of `buf`.
pub open spec fn took_share<S: Scalar, D: FieldData<S>>(
    before: Seq<(TypeId, D)>,
    after: (TypeId, D),
    flow: Flow,
    c: int,
    buf: Seq<S>,
    i: int,
) -> bool {
    if flow_width(before[i].1, flow) == 0 {
        after == before[i]
    } else {
        let start: int = total_width::<S, D>(before.take(i), flow) as int;
        let width: int = flow_width(before[i].1, flow) as int;
        &&& after.0 == before[i].0
        &&& same_layout(after.1, before[i].1)
        &&& after.1.even()
        &&& after.1.cells() == before[i].1.cells().update(
            c,
            flow_received::<S, D>(before[i].1.cells()[c], flow, buf.subrange(start, start + width)),
        )
    }
}

/// What cell `c` sends over the stores at the given positions.
spec fn gathered<S: Scalar, D: FieldData<S>>(
    entries: Seq<(TypeId, D)>,
    flow: Flow,
    c: int,
    at: Seq<usize>,
) -> Seq<S>
    decreases at.len(),
{
    if at.len() == 0 {
        Seq::empty()
    } else {
        gathered::<S, D>(entries, flow, c, at.drop_last()) + flow_data::<S, D>(
            entries[at.last() as int].1.cells()[c],
            flow,
        )
    }
}

/// Scalars per cell over the stores at the given positions.
spec fn gathered_width<S: Scalar, D: FieldData<S>>(
    entries: Seq<(TypeId, D)>,
    flow: Flow,
    at: Seq<usize>,
) -> nat
    decreases at.len(),
{
    if at.len() == 0 {
        0
    } else {
        gathered_width::<S, D>(entries, flow, at.drop_last()) + flow_width(
            entries[at.last() as int].1,
            flow,
        )
    }
}

/// Position `k` names a store that takes part, and the positions before it are
/// those among the stores before that store.
proof fn position_at<S: Scalar, D: FieldData<S>>(entries: Seq<(TypeId, D)>, flow: Flow, k: int)
    requires
        entries.len() <= usize::MAX,
        0 <= k < positions::<S, D>(entries, flow).len(),
    ensures
        positions::<S, D>(entries, flow)[k] < entries.len(),
        flow_width(entries[positions::<S, D>(entries, flow)[k] as int].1, flow) > 0,
        positions::<S, D>(entries.take(positions::<S, D>(entries, flow)[k] as int), flow)
            == positions::<S, D>(entries, flow).take(k),
    decreases entries.len(),
{
    let all: Seq<usize> = positions::<S, D>(entries, flow);
    let rest: Seq<(TypeId, D)> = entries.drop_last();
    let sub: Seq<usize> = positions::<S, D>(rest, flow);
    if flow_width(entries.last().1, flow) > 0 && k == all.len() - 1 {
        assert(entries.take(entries.len() - 1) =~= rest);
        assert(all.take(k) =~= sub);
    } else {
        position_at::<S, D>(rest, flow, k);
        assert(all[k] == sub[k]);
        assert(entries.take(all[k] as int) =~= rest.take(all[k] as int));
        assert(all.take(k) =~= sub.take(k));
    }
}

/// A store that takes part is named by some position.
proof fn position_of<S: Scalar, D: FieldData<S>>(
    entries: Seq<(TypeId, D)>,
    flow: Flow,
    i: int,
) -> (k: int)
    requires
        entries.len() <= usize::MAX,
        0 <= i < entries.len(),
        flow_width(entries[i].1, flow) > 0,
    ensures
        0 <= k < positions::<S, D>(entries, flow).len(),
        positions::<S, D>(entries, flow)[k] == i,
    decreases entries.len(),
{
    if i == entries.len() - 1 {
        positions::<S, D>(entries, flow).len() - 1
    } else {
        position_of::<S, D>(entries.drop_last(), flow, i)
    }
}

/// Positions are ascending.
proof fn positions_ascend<S: Scalar, D: FieldData<S>>(
    entries: Seq<(TypeId, D)>,
    flow: Flow,
    j: int,
    k: int,
)
    requires
        entries.len() <= usize::MAX,
        0 <= j < k < positions::<S, D>(entries, flow).len(),
    ensures
        positions::<S, D>(entries, flow)[j] < positions::<S, D>(entries, flow)[k],
{
    let all: Seq<usize> = positions::<S, D>(entries, flow);
    position_at::<S, D>(entries, flow, k);
    let front: Seq<(TypeId, D)> = entries.take(all[k] as int);
    position_at::<S, D>(front, flow, j);
    assert(all.take(k)[j] == all[j]);
}

/// Going by the positions is going through all stores.
proof fn gathered_is_row<S: Scalar, D: FieldData<S>>(
    entries: Seq<(TypeId, D)>,
    front: Seq<(TypeId, D)>,
    flow: Flow,
    c: int,
)
    requires
        entries.len() <= usize::MAX,
        front.len() <= entries.len(),
        front == entries.take(front.len() as int),
    ensures
        gathered::<S, D>(entries, flow, c, positions::<S, D>(front, flow)) == row::<S, D>(
            front,
            flow,
            c,
        ),
        gathered_width::<S, D>(entries, flow, positions::<S, D>(front, flow)) == total_width::<S, D>(
            front,
            flow,
        ),
    decreases front.len(),
{
    if front.len() > 0 {
        let rest: Seq<(TypeId, D)> = front.drop_last();
        assert(rest =~= entries.take(rest.len() as int));
        gathered_is_row::<S, D>(entries, rest, flow, c);
        if flow_width(front.last().1, flow) > 0 {
            let at: Seq<usize> = positions::<S, D>(front, flow);
            assert(at.drop_last() =~= positions::<S, D>(rest, flow));
        }
    }
}

/// What a cell sends has the width of the stores.
pub proof fn row_has_width<S: Scalar, D: FieldData<S>>(entries: Seq<(TypeId, D)>, flow: Flow, c: int)
    requires
        fills::<S, D>(entries, flow, c),
    ensures
        row::<S, D>(entries, flow, c).len() == total_width::<S, D>(entries, flow),
    decreases entries.len(),
{
    if entries.len() > 0 {
        let rest: Seq<(TypeId, D)> = entries.drop_last();
        assert forall|i: int|
            0 <= i < rest.len() && flow_width((#[trigger] rest[i]).1, flow) > 0 implies flow_data::<
            S,
            D,
        >(rest[i].1.cells()[c], flow).len() == flow_width(rest[i].1, flow) by {
            assert(rest[i] == entries[i]);
        }
        row_has_width::<S, D>(rest, flow, c);
        assert(entries.last() == entries[entries.len() - 1]);
    }
}

/// The share of a store lies within what all stores take.
pub proof fn share_is_inside<S: Scalar, D: FieldData<S>>(
    entries: Seq<(TypeId, D)>,
    flow: Flow,
    i: int,
)
    requires
        0 <= i < entries.len(),
    ensures
        total_width::<S, D>(entries.take(i), flow) + flow_width(entries[i].1, flow)
            <= total_width::<S, D>(entries, flow),
    decreases entries.len(),
{
    if i == entries.len() - 1 {
        assert(entries.take(i) =~= entries.drop_last());
    } else {
        let rest: Seq<(TypeId, D)> = entries.drop_last();
        share_is_inside::<S, D>(rest, flow, i);
        assert(entries.take(i) =~= rest.take(i));
    }
}

/// Entries of the same widths have the same positions and total width.
pub proof fn same_widths<S: Scalar, D: FieldData<S>>(
    a: Seq<(TypeId, D)>,
    b: Seq<(TypeId, D)>,
    flow: Flow,
)
    requires
        a.len() == b.len(),
        forall|i: int|
            0 <= i < a.len() ==> flow_width(#[trigger] a[i].1, flow) == flow_width(b[i].1, flow),
    ensures
        positions::<S, D>(a, flow) == positions::<S, D>(b, flow),
        total_width::<S, D>(a, flow) == total_width::<S, D>(b, flow),
    decreases a.len(),
{
    if a.len() > 0 {
        assert forall|i: int| 0 <= i < a.len() - 1 implies flow_width(
            #[trigger] a.drop_last()[i].1,
            flow,
        ) == flow_width(b.drop_last()[i].1, flow) by {
            assert(flow_width(a[i].1, flow) == flow_width(b[i].1, flow));
        }
        same_widths::<S, D>(a.drop_last(), b.drop_last(), flow);
        assert(flow_width(a[a.len() - 1].1, flow) == flow_width(b[b.len() - 1].1, flow));
    }
}

/// Type-keyed registry of field stores: one entry per type, with cached lists of
/// which stores take part in forward and reverse exchange.
pub struct FieldRegistry<S: Scalar, D: FieldData<S>> {
    stores: Vec<(TypeId, D)>,
    forward_stores: Vec<usize>,
    reverse_stores: Vec<usize>,
    scalar: PhantomData<S>,
}

impl<S: Scalar, D: FieldData<S>> FieldRegistry<S, D> {
    /// The stores with their types, in registration order.
    pub closed spec fn entries(&self) -> Seq<(TypeId, D)> {
        self.stores@
    }

    /// The cached lists name the stores that take part in an exchange.
    pub closed spec fn caches_agree(&self) -> bool {
        &&& self.forward_stores@ == positions::<S, D>(self.stores@, Flow::Forward)
        &&& self.reverse_stores@ == positions::<S, D>(self.stores@, Flow::Reverse)
    }

    /// Each type is registered once, the cached lists are up to date, and the
    /// width of every store is within the index range.
    pub open spec fn valid(&self) -> bool {
        &&& self.caches_agree()
        &&& all_fit::<S, D>(self.entries())
        &&& distinct_types(self.entries())
    }

    /// A store of type `id` is registered.
    pub open spec fn has(&self, id: TypeId) -> bool {
        exists|i: int| 0 <= i < self.entries().len() && (#[trigger] self.entries()[i]).0 == id
    }

    /// An empty registry with no field stores.
    pub fn new() -> (r: Self)
        ensures
            r.valid(),
            r.entries().len() == 0,
    {
        let r: FieldRegistry<S, D> = FieldRegistry {
            stores: Vec::new(),
            forward_stores: Vec::new(),
            reverse_stores: Vec::new(),
            scalar: PhantomData,
        };
        proof {
            assert(r.forward_stores@ =~= positions::<S, D>(r.stores@, Flow::Forward));
            assert(r.reverse_stores@ =~= positions::<S, D>(r.stores@, Flow::Reverse));
        }
        r
    }

    /// The position of the store of type `id`.
    fn find(&self, id: TypeId) -> (r: Option<usize>)
        ensures
            match r {
                Some(i) => i < self.entries().len() && self.entries()[i as int].0 == id,
                None => !self.has(id),
            },
    {
        let mut i: usize = 0;
        while i < self.stores.len()
            invariant
                i <= self.stores@.len(),
                forall|j: int| 0 <= j < i ==> (#[trigger] self.stores@[j]).0 != id,
            decreases self.stores@.len() - i,
        {
            if same_type(&self.stores[i].0, &id) {
                return Some(i);
            }
            i = i + 1;
        }
        None
    }

    /// Register the store of a new type, or return
    /// [`FieldRegistryError::AlreadyRegistered`] if the type is already present.
    pub fn try_register(&mut self, id: TypeId, field: D) -> (r: Result<(), FieldRegistryError>)
        requires
            old(self).valid(),
            field.fits(),
        ensures
            final(self).valid(),
            r is Ok <==> !old(self).has(id),
            r is Ok ==> final(self).entries() == old(self).entries().push((id, field)),
            r matches Err(e) ==> e == FieldRegistryError::AlreadyRegistered(id) && *final(self)
                == *old(self),
    {
        if self.find(id).is_some() {
            return Err(FieldRegistryError::AlreadyRegistered(id));
        }
        self.stores.push((id, field));
        self.rebuild_comm_caches();
        Ok(())
    }

    /// Register the store of a new type.
    pub fn register(&mut self, id: TypeId, field: D)
        requires
            old(self).valid(),
            field.fits(),
            !old(self).has(id),
        ensures
            final(self).valid(),
            final(self).entries() == old(self).entries().push((id, field)),
    {
        let _ = self.try_register(id, field);
    }

    fn rebuild_comm_caches(&mut self)
        requires
            all_fit::<S, D>(old(self).entries()),
        ensures
            final(self).entries() == old(self).entries(),
            final(self).caches_agree(),
    {
        let mut forward: Vec<usize> = Vec::new();
        let mut reverse: Vec<usize> = Vec::new();
        let mut i: usize = 0;
        while i < self.stores.len()
            invariant
                *self == *old(self),
                all_fit::<S, D>(self.stores@),
                i <= self.stores@.len(),
                forward@ == positions::<S, D>(self.stores@.take(i as int), Flow::Forward),
                reverse@ == positions::<S, D>(self.stores@.take(i as int), Flow::Reverse),
            decreases self.stores@.len() - i,
        {
            let ghost front: Seq<(TypeId, D)> = self.stores@.take(i + 1);
            assert(front.drop_last() =~= self.stores@.take(i as int));
            if self.stores[i].1.forward_size() > 0 {
                forward.push(i);
            }
            if self.stores[i].1.reverse_size() > 0 {
                reverse.push(i);
            }
            i = i + 1;
        }
        assert(self.stores@.take(self.stores@.len() as int) =~= self.stores@);
        self.forward_stores = forward;
        self.reverse_stores = reverse;
    }
}

impl<S: Scalar, D: FieldData<S>> FieldRegistry<S, D> {
    /// Borrow a registered field by type.
    pub fn get(&self, id: TypeId) -> (r: Option<&D>)
        requires
            self.valid(),
        ensures
            r is Some <==> self.has(id),
            r matches Some(d) ==> self.holds(id, *d),
    {
        match self.find(id) {
            Some(i) => Some(&self.stores[i].1),
            None => None,
        }
    }

    /// `store` is registered under type `id`.
    pub open spec fn holds(&self, id: TypeId, store: D) -> bool {
        exists|i: int|
            0 <= i < self.entries().len() && #[trigger] self.entries()[i] == (id, store)
    }

    /// Mutably borrow a registered field by type. What is written through the
    /// borrow replaces the store; the registry stays valid as long as the widths
    /// of the store do not change.
    pub fn get_mut(&mut self, id: TypeId) -> (r: Option<&mut D>)
        requires
            old(self).valid(),
        ensures
            r is Some <==> old(self).has(id),
            r is None ==> *final(self) == *old(self),
            r matches Some(d) ==> old(self).holds(id, *d) && exists|i: int|
                {
                    &&& 0 <= i < old(self).entries().len()
                    &&& #[trigger] old(self).entries()[i] == (id, *d)
                    &&& final(self).entries() == old(self).entries().update(i, (id, *final(d)))
                },
            r matches Some(d) ==> (same_layout(*final(d), *d) ==> final(self).valid()),
    {
        match self.find(id) {
            Some(i) => {
                let ghost before: Seq<(TypeId, D)> = self.stores@;
                proof {
                    assert(before[i as int] == (id, before[i as int].1));
                    assert forall|v: D| same_layout(v, before[i as int].1) implies positions::<
                        S,
                        D,
                    >(#[trigger] before.update(i as int, (id, v)), Flow::Forward) == positions::<
                        S,
                        D,
                    >(before, Flow::Forward) && positions::<S, D>(
                        before.update(i as int, (id, v)),
                        Flow::Reverse,
                    ) == positions::<S, D>(before, Flow::Reverse) by {
                        same_widths::<S, D>(
                            before.update(i as int, (id, v)),
                            before,
                            Flow::Forward,
                        );
                        same_widths::<S, D>(
                            before.update(i as int, (id, v)),
                            before,
                            Flow::Reverse,
                        );
                    }
                }
                Some(&mut self.stores[i].1)
            },
            None => None,
        }
    }

    /// Borrow a field that must be registered; `_context` says what relies on it.
    pub fn expect(&self, id: TypeId, _context: &str) -> (r: &D)
        requires
            self.valid(),
            self.has(id),
        ensures
            self.holds(id, *r),
    {
        match self.find(id) {
            Some(i) => &self.stores[i].1,
            None => {
                proof {
                    assert(false);
                }
                &self.stores[0].1
            },
        }
    }

    /// Mutably borrow a field that must be registered; `_context` says what relies
    /// on it.
    pub fn expect_mut(&mut self, id: TypeId, _context: &str) -> (r: &mut D)
        requires
            old(self).valid(),
            old(self).has(id),
        ensures
            exists|i: int|
                {
                    &&& 0 <= i < old(self).entries().len()
                    &&& #[trigger] old(self).entries()[i] == (id, *r)
                    &&& final(self).entries() == old(self).entries().update(i, (id, *final(r)))
                },
            same_layout(*final(r), *r) ==> final(self).valid(),
    {
        self.get_mut(id).unwrap()
    }

    /// Resize every registered field to `n` cells.
    pub fn resize_all(&mut self, n: usize)
        requires
            old(self).valid(),
        ensures
            final(self).valid(),
            final(self).entries().len() == old(self).entries().len(),
            forall|i: int|
                0 <= i < old(self).entries().len() ==> was_resized(
                    old(self).entries()[i],
                    #[trigger] final(self).entries()[i],
                    n as nat,
                ),
    {
        let ghost before: Seq<(TypeId, D)> = self.stores@;
        let mut i: usize = 0;
        while i < self.stores.len()
            invariant
                before == old(self).stores@,
                all_fit::<S, D>(before),
                i <= self.stores@.len(),
                self.stores@.len() == before.len(),
                self.forward_stores == old(self).forward_stores,
                self.reverse_stores == old(self).reverse_stores,
                forall|j: int|
                    0 <= j < i ==> was_resized(before[j], #[trigger] self.stores@[j], n as nat),
                forall|j: int| i <= j < before.len() ==> #[trigger] self.stores@[j] == before[j],
            decreases before.len() - i,
        {
            self.stores[i].1.resize(n);
            i = i + 1;
        }
        proof {
            same_widths::<S, D>(self.stores@, before, Flow::Forward);
            same_widths::<S, D>(self.stores@, before, Flow::Reverse);
        }
    }

    /// Zero every registered field's accumulator columns over `0..n`.
    pub fn zero_all(&mut self, n: usize)
        requires
            old(self).valid(),
            forall|i: int|
                0 <= i < old(self).entries().len() ==> {
                    let d: D = #[trigger] old(self).entries()[i].1;
                    d.even() && (n <= d.cells().len() || !d.accumulates())
                },
        ensures
            final(self).valid(),
            final(self).entries().len() == old(self).entries().len(),
            forall|i: int|
                0 <= i < old(self).entries().len() ==> was_zeroed(
                    old(self).entries()[i],
                    #[trigger] final(self).entries()[i],
                    n as nat,
                ),
    {
        let ghost before: Seq<(TypeId, D)> = self.stores@;
        let mut i: usize = 0;
        while i < self.stores.len()
            invariant
                before == old(self).stores@,
                all_fit::<S, D>(before),
                i <= self.stores@.len(),
                self.stores@.len() == before.len(),
                self.forward_stores == old(self).forward_stores,
                self.reverse_stores == old(self).reverse_stores,
                forall|j: int|
                    0 <= j < before.len() ==> {
                        let d: D = #[trigger] before[j].1;
                        d.even() && (n <= d.cells().len() || !d.accumulates())
                    },
                forall|j: int|
                    0 <= j < i ==> was_zeroed(before[j], #[trigger] self.stores@[j], n as nat),
                forall|j: int| i <= j < before.len() ==> #[trigger] self.stores@[j] == before[j],
            decreases before.len() - i,
        {
            self.stores[i].1.zero(n);
            i = i + 1;
        }
        proof {
            same_widths::<S, D>(self.stores@, before, Flow::Forward);
            same_widths::<S, D>(self.stores@, before, Flow::Reverse);
        }
    }

    /// Total forward scalars per cell over all stores that take part.
    pub fn forward_size(&self) -> (r: usize)
        requires
            self.valid(),
            total_width::<S, D>(self.entries(), Flow::Forward) <= usize::MAX,
        ensures
            r == total_width::<S, D>(self.entries(), Flow::Forward),
    {
        let mut total: usize = 0;
        let mut k: usize = 0;
        proof {
            self.stores_fit();
        }
        while k < self.forward_stores.len()
            invariant
                self.valid(),
                total_width::<S, D>(self.stores@, Flow::Forward) <= usize::MAX,
                self.stores@.len() <= usize::MAX,
                k <= self.forward_stores@.len(),
                total == gathered_width::<S, D>(
                    self.stores@,
                    Flow::Forward,
                    self.forward_stores@.take(k as int),
                ),
            decreases self.forward_stores@.len() - k,
        {
            proof {
                step_along::<S, D>(self.stores@, Flow::Forward, 0, k as int);
            }
            total = total + self.stores[self.forward_stores[k]].1.forward_size();
            k = k + 1;
        }
        proof {
            all_gathered::<S, D>(self.stores@, Flow::Forward, 0);
            assert(self.forward_stores@.take(k as int) =~= self.forward_stores@);
        }
        total
    }

    /// Total reverse scalars per cell over all stores that take part.
    pub fn reverse_size(&self) -> (r: usize)
        requires
            self.valid(),
            total_width::<S, D>(self.entries(), Flow::Reverse) <= usize::MAX,
        ensures
            r == total_width::<S, D>(self.entries(), Flow::Reverse),
    {
        let mut total: usize = 0;
        let mut k: usize = 0;
        proof {
            self.stores_fit();
        }
        while k < self.reverse_stores.len()
            invariant
                self.valid(),
                total_width::<S, D>(self.stores@, Flow::Reverse) <= usize::MAX,
                self.stores@.len() <= usize::MAX,
                k <= self.reverse_stores@.len(),
                total == gathered_width::<S, D>(
                    self.stores@,
                    Flow::Reverse,
                    self.reverse_stores@.take(k as int),
                ),
            decreases self.reverse_stores@.len() - k,
        {
            proof {
                step_along::<S, D>(self.stores@, Flow::Reverse, 0, k as int);
            }
            total = total + self.stores[self.reverse_stores[k]].1.reverse_size();
            k = k + 1;
        }
        proof {
            all_gathered::<S, D>(self.stores@, Flow::Reverse, 0);
            assert(self.reverse_stores@.take(k as int) =~= self.reverse_stores@);
        }
        total
    }

    /// A registry holds no more stores than a vector can.
    proof fn stores_fit(&self)
        ensures
            self.stores@.len() <= usize::MAX,
    {
        assert(self.stores.len() == self.stores@.len());
    }

    /// Append every participating store's forward data of cell `c` to `buf`, in
    /// registration order: the order both ends of an exchange rely on.
    pub fn pack_forward_all(&self, c: usize, buf: &mut Vec<S>)
        requires
            self.valid(),
            ready::<S, D>(self.entries(), Flow::Forward, c as int),
        ensures
            final(buf)@ == old(buf)@ + row::<S, D>(self.entries(), Flow::Forward, c as int),
            row::<S, D>(self.entries(), Flow::Forward, c as int).len() == total_width::<S, D>(
                self.entries(),
                Flow::Forward,
            ),
            fills::<S, D>(self.entries(), Flow::Forward, c as int),
    {
        let mut k: usize = 0;
        let ghost before: Seq<S> = buf@;
        proof {
            self.stores_fit();
        }
        assert(buf@ =~= before + gathered::<S, D>(
            self.stores@,
            Flow::Forward,
            c as int,
            self.forward_stores@.take(0),
        ));
        while k < self.forward_stores.len()
            invariant
                self.valid(),
                ready::<S, D>(self.stores@, Flow::Forward, c as int),
                self.stores@.len() <= usize::MAX,
                k <= self.forward_stores@.len(),
                forall|j: int|
                    0 <= j < k ==> flow_data::<S, D>(
                        self.stores@[(#[trigger] self.forward_stores@[j]) as int].1.cells()[c as int],
                        Flow::Forward,
                    ).len() == flow_width(
                        self.stores@[self.forward_stores@[j] as int].1,
                        Flow::Forward,
                    ),
                buf@ == before + gathered::<S, D>(
                    self.stores@,
                    Flow::Forward,
                    c as int,
                    self.forward_stores@.take(k as int),
                ),
            decreases self.forward_stores@.len() - k,
        {
            proof {
                step_along::<S, D>(self.stores@, Flow::Forward, c as int, k as int);
                assert(flow_width(
                    self.stores@[self.forward_stores@[k as int] as int].1,
                    Flow::Forward,
                ) > 0);
            }
            let ghost so_far: Seq<S> = buf@;
            self.stores[self.forward_stores[k]].1.pack_forward(c, buf);
            k = k + 1;
            assert(buf@ =~= before + gathered::<S, D>(
                self.stores@,
                Flow::Forward,
                c as int,
                self.forward_stores@.take(k as int),
            ));
        }
        proof {
            all_gathered::<S, D>(self.stores@, Flow::Forward, c as int);
            assert(self.forward_stores@.take(k as int) =~= self.forward_stores@);
            assert forall|i: int|
                0 <= i < self.stores@.len() && flow_width(
                    (#[trigger] self.stores@[i]).1,
                    Flow::Forward,
                ) > 0 implies flow_data::<S, D>(
                self.stores@[i].1.cells()[c as int],
                Flow::Forward,
            ).len() == flow_width(self.stores@[i].1, Flow::Forward) by {
                let j: int = position_of::<S, D>(self.stores@, Flow::Forward, i);
                assert(self.forward_stores@[j] == i);
            }
            row_has_width::<S, D>(self.stores@, Flow::Forward, c as int);
        }
    }

    /// Append every participating store's reverse data of ghost cell `c` to `buf`,
    /// in registration order.
    pub fn pack_reverse_all(&self, c: usize, buf: &mut Vec<S>)
        requires
            self.valid(),
            ready::<S, D>(self.entries(), Flow::Reverse, c as int),
        ensures
            final(buf)@ == old(buf)@ + row::<S, D>(self.entries(), Flow::Reverse, c as int),
            row::<S, D>(self.entries(), Flow::Reverse, c as int).len() == total_width::<S, D>(
                self.entries(),
                Flow::Reverse,
            ),
            fills::<S, D>(self.entries(), Flow::Reverse, c as int),
    {
        let mut k: usize = 0;
        let ghost before: Seq<S> = buf@;
        proof {
            self.stores_fit();
        }
        assert(buf@ =~= before + gathered::<S, D>(
            self.stores@,
            Flow::Reverse,
            c as int,
            self.reverse_stores@.take(0),
        ));
        while k < self.reverse_stores.len()
            invariant
                self.valid(),
                ready::<S, D>(self.stores@, Flow::Reverse, c as int),
                self.stores@.len() <= usize::MAX,
                k <= self.reverse_stores@.len(),
                forall|j: int|
                    0 <= j < k ==> flow_data::<S, D>(
                        self.stores@[(#[trigger] self.reverse_stores@[j]) as int].1.cells()[c as int],
                        Flow::Reverse,
                    ).len() == flow_width(
                        self.stores@[self.reverse_stores@[j] as int].1,
                        Flow::Reverse,
                    ),
                buf@ == before + gathered::<S, D>(
                    self.stores@,
                    Flow::Reverse,
                    c as int,
                    self.reverse_stores@.take(k as int),
                ),
            decreases self.reverse_stores@.len() - k,
        {
            proof {
                step_along::<S, D>(self.stores@, Flow::Reverse, c as int, k as int);
                assert(flow_width(
                    self.stores@[self.reverse_stores@[k as int] as int].1,
                    Flow::Reverse,
                ) > 0);
            }
            self.stores[self.reverse_stores[k]].1.pack_reverse(c, buf);
            k = k + 1;
            assert(buf@ =~= before + gathered::<S, D>(
                self.stores@,
                Flow::Reverse,
                c as int,
                self.reverse_stores@.take(k as int),
            ));
        }
        proof {
            all_gathered::<S, D>(self.stores@, Flow::Reverse, c as int);
            assert(self.reverse_stores@.take(k as int) =~= self.reverse_stores@);
            assert forall|i: int|
                0 <= i < self.stores@.len() && flow_width(
                    (#[trigger] self.stores@[i]).1,
                    Flow::Reverse,
                ) > 0 implies flow_data::<S, D>(
                self.stores@[i].1.cells()[c as int],
                Flow::Reverse,
            ).len() == flow_width(self.stores@[i].1, Flow::Reverse) by {
                let j: int = position_of::<S, D>(self.stores@, Flow::Reverse, i);
                assert(self.reverse_stores@[j] == i);
            }
            row_has_width::<S, D>(self.stores@, Flow::Reverse, c as int);
        }
    }

    /// Overwrite every participating store's forward data of cell `c` from `buf`;
    /// returns the scalars consumed.
    pub fn unpack_forward_all(&mut self, c: usize, buf: &[S]) -> (r: usize)
        requires
            old(self).valid(),
            ready::<S, D>(old(self).entries(), Flow::Forward, c as int),
            buf@.len() >= total_width::<S, D>(old(self).entries(), Flow::Forward),
        ensures
            final(self).valid(),
            r == total_width::<S, D>(old(self).entries(), Flow::Forward),
            took::<S, D>(
                old(self).entries(),
                final(self).entries(),
                Flow::Forward,
                c as int,
                buf@,
            ),
    {
        let ghost before: Seq<(TypeId, D)> = self.stores@;
        let ghost at: Seq<usize> = positions::<S, D>(before, Flow::Forward);
        let mut off: usize = 0;
        let mut k: usize = 0;
        proof {
            self.stores_fit();
        }
        while k < self.forward_stores.len()
            invariant
                before == old(self).stores@,
                at == positions::<S, D>(before, Flow::Forward),
                self.forward_stores == old(self).forward_stores,
                self.reverse_stores == old(self).reverse_stores,
                self.forward_stores@ == at,
                all_fit::<S, D>(before),
                ready::<S, D>(before, Flow::Forward, c as int),
                buf@.len() >= total_width::<S, D>(before, Flow::Forward),
                before.len() <= usize::MAX,
                self.stores@.len() == before.len(),
                k <= at.len(),
                off == gathered_width::<S, D>(before, Flow::Forward, at.take(k as int)),
                forall|j: int|
                    0 <= j < k ==> took_share(
                        before,
                        #[trigger] self.stores@[at[j] as int],
                        Flow::Forward,
                        c as int,
                        buf@,
                        at[j] as int,
                    ),
                forall|i: int|
                    0 <= i < before.len() && (forall|j: int| 0 <= j < k ==> #[trigger] at[j] != i)
                        ==> #[trigger] self.stores@[i] == before[i],
            decreases at.len() - k,
        {
            let i: usize = self.forward_stores[k];
            let ghost held: Seq<(TypeId, D)> = self.stores@;
            proof {
                step_along::<S, D>(before, Flow::Forward, c as int, k as int);
                assert forall|j: int| 0 <= j < k implies #[trigger] at[j] != i by {
                    positions_ascend::<S, D>(before, Flow::Forward, j, k as int);
                }
                assert(self.stores@[i as int] == before[i as int]);
                assert(flow_width(before[i as int].1, Flow::Forward) > 0);
            }
            let rest: &[S] = vstd::slice::slice_subrange(buf, off, buf.len());
            let used: usize = self.stores[i].1.unpack_forward(c, rest);
            proof {
                assert(rest@.take(used as int) =~= buf@.subrange(off as int, off + used));
                assert(took_share(
                    before,
                    self.stores@[i as int],
                    Flow::Forward,
                    c as int,
                    buf@,
                    i as int,
                ));
                assert forall|j: int| 0 <= j < k + 1 implies took_share(
                    before,
                    #[trigger] self.stores@[at[j] as int],
                    Flow::Forward,
                    c as int,
                    buf@,
                    at[j] as int,
                ) by {
                    if j < k {
                        assert(at[j] != i);
                        position_at::<S, D>(before, Flow::Forward, j);
                        assert(self.stores@[at[j] as int] == held[at[j] as int]);
                    }
                }
                assert forall|x: int|
                    0 <= x < before.len() && (forall|j: int| 0 <= j < k + 1 ==> #[trigger] at[j] != x)
                        implies #[trigger] self.stores@[x] == before[x] by {
                    assert(at[k as int] != x);
                    assert(held[x] == before[x]);
                }
            }
            off = off + used;
            k = k + 1;
        }
        proof {
            all_gathered::<S, D>(before, Flow::Forward, c as int);
            assert(at.take(k as int) =~= at);
            assert forall|i: int| 0 <= i < before.len() implies took_share(
                before,
                #[trigger] self.stores@[i],
                Flow::Forward,
                c as int,
                buf@,
                i,
            ) by {
                if flow_width(before[i].1, Flow::Forward) > 0 {
                    let j: int = position_of::<S, D>(before, Flow::Forward, i);
                    assert(at[j] == i);
                } else {
                    assert forall|j: int| 0 <= j < k implies #[trigger] at[j] != i by {
                        position_at::<S, D>(before, Flow::Forward, j);
                    }
                }
            }
            assert forall|i: int| 0 <= i < before.len() implies same_layout(
                #[trigger] self.stores@[i].1,
                before[i].1,
            ) && self.stores@[i].0 == before[i].0 by {
                assert(took_share(
                    before,
                    self.stores@[i],
                    Flow::Forward,
                    c as int,
                    buf@,
                    i,
                ));
            }
            same_widths::<S, D>(self.stores@, before, Flow::Forward);
            same_widths::<S, D>(self.stores@, before, Flow::Reverse);
        }
        off
    }

    /// Accumulate `buf` into every participating store's reverse data of owner cell
    /// `c`; returns the scalars consumed.
    pub fn unpack_reverse_all(&mut self, c: usize, buf: &[S]) -> (r: usize)
        requires
            old(self).valid(),
            ready::<S, D>(old(self).entries(), Flow::Reverse, c as int),
            buf@.len() >= total_width::<S, D>(old(self).entries(), Flow::Reverse),
        ensures
            final(self).valid(),
            r == total_width::<S, D>(old(self).entries(), Flow::Reverse),
            took::<S, D>(
                old(self).entries(),
                final(self).entries(),
                Flow::Reverse,
                c as int,
                buf@,
            ),
    {
        let ghost before: Seq<(TypeId, D)> = self.stores@;
        let ghost at: Seq<usize> = positions::<S, D>(before, Flow::Reverse);
        let mut off: usize = 0;
        let mut k: usize = 0;
        proof {
            self.stores_fit();
        }
        while k < self.reverse_stores.len()
            invariant
                before == old(self).stores@,
                at == positions::<S, D>(before, Flow::Reverse),
                self.forward_stores == old(self).forward_stores,
                self.reverse_stores == old(self).reverse_stores,
                self.reverse_stores@ == at,
                all_fit::<S, D>(before),
                ready::<S, D>(before, Flow::Reverse, c as int),
                buf@.len() >= total_width::<S, D>(before, Flow::Reverse),
                before.len() <= usize::MAX,
                self.stores@.len() == before.len(),
                k <= at.len(),
                off == gathered_width::<S, D>(before, Flow::Reverse, at.take(k as int)),
                forall|j: int|
                    0 <= j < k ==> took_share(
                        before,
                        #[trigger] self.stores@[at[j] as int],
                        Flow::Reverse,
                        c as int,
                        buf@,
                        at[j] as int,
                    ),
                forall|i: int|
                    0 <= i < before.len() && (forall|j: int| 0 <= j < k ==> #[trigger] at[j] != i)
                        ==> #[trigger] self.stores@[i] == before[i],
            decreases at.len() - k,
        {
            let i: usize = self.reverse_stores[k];
            let ghost held: Seq<(TypeId, D)> = self.stores@;
            proof {
                step_along::<S, D>(before, Flow::Reverse, c as int, k as int);
                assert forall|j: int| 0 <= j < k implies #[trigger] at[j] != i by {
                    positions_ascend::<S, D>(before, Flow::Reverse, j, k as int);
                }
                assert(self.stores@[i as int] == before[i as int]);
                assert(flow_width(before[i as int].1, Flow::Reverse) > 0);
            }
            let rest: &[S] = vstd::slice::slice_subrange(buf, off, buf.len());
            let used: usize = self.stores[i].1.unpack_reverse_add(c, rest);
            proof {
                assert(rest@.take(used as int) =~= buf@.subrange(off as int, off + used));
                assert(took_share(
                    before,
                    self.stores@[i as int],
                    Flow::Reverse,
                    c as int,
                    buf@,
                    i as int,
                ));
                assert forall|j: int| 0 <= j < k + 1 implies took_share(
                    before,
                    #[trigger] self.stores@[at[j] as int],
                    Flow::Reverse,
                    c as int,
                    buf@,
                    at[j] as int,
                ) by {
                    if j < k {
                        assert(at[j] != i);
                        position_at::<S, D>(before, Flow::Reverse, j);
                        assert(self.stores@[at[j] as int] == held[at[j] as int]);
                    }
                }
                assert forall|x: int|
                    0 <= x < before.len() && (forall|j: int| 0 <= j < k + 1 ==> #[trigger] at[j] != x)
                        implies #[trigger] self.stores@[x] == before[x] by {
                    assert(at[k as int] != x);
                    assert(held[x] == before[x]);
                }
            }
            off = off + used;
            k = k + 1;
        }
        proof {
            all_gathered::<S, D>(before, Flow::Reverse, c as int);
            assert(at.take(k as int) =~= at);
            assert forall|i: int| 0 <= i < before.len() implies took_share(
                before,
                #[trigger] self.stores@[i],
                Flow::Reverse,
                c as int,
                buf@,
                i,
            ) by {
                if flow_width(before[i].1, Flow::Reverse) > 0 {
                    let j: int = position_of::<S, D>(before, Flow::Reverse, i);
                    assert(at[j] == i);
                } else {
                    assert forall|j: int| 0 <= j < k implies #[trigger] at[j] != i by {
                        position_at::<S, D>(before, Flow::Reverse, j);
                    }
                }
            }
            assert forall|i: int| 0 <= i < before.len() implies same_layout(
                #[trigger] self.stores@[i].1,
                before[i].1,
            ) && self.stores@[i].0 == before[i].0 by {
                assert(took_share(
                    before,
                    self.stores@[i],
                    Flow::Reverse,
                    c as int,
                    buf@,
                    i,
                ));
            }
            same_widths::<S, D>(self.stores@, before, Flow::Forward);
            same_widths::<S, D>(self.stores@, before, Flow::Reverse);
        }
        off
    }

    /// `true` when no field stores are registered.
    pub fn is_empty(&self) -> (r: bool)
        ensures
            r == (self.entries().len() == 0),
    {
        self.stores.len() == 0
    }
}

impl<S: Scalar, D: FieldData<S>> Default for FieldRegistry<S, D> {
    fn default() -> (r: Self)
        ensures
            r.valid(),
            r.entries().len() == 0,
    {
        FieldRegistry::new()
    }
}

/// `after` is `before` resized to `n` cells.
pub open spec fn was_resized<S: Scalar, D: FieldData<S>>(
    before: (TypeId, D),
    after: (TypeId, D),
    n: nat,
) -> bool {
    &&& after.0 == before.0
    &&& same_layout(after.1, before.1)
    &&& after.1.even()
    &&& after.1.cells().len() == n
    &&& before.1.even() ==> after.1.cells() == resized(before.1.cells(), n, before.1.blank())
}

/// `after` is `before` with the accumulators of the first `n` cells reset.
pub open spec fn was_zeroed<S: Scalar, D: FieldData<S>>(
    before: (TypeId, D),
    after: (TypeId, D),
    n: nat,
) -> bool {
    &&& after.0 == before.0
    &&& same_layout(after.1, before.1)
    &&& after.1.even()
    &&& after.1.cells().len() == before.1.cells().len()
    &&& forall|c: int|
        0 <= c < before.1.cells().len() ==> #[trigger] after.1.cells()[c] == (if c < n
            && before.1.accumulates() {
            D::zeroed(before.1.cells()[c])
        } else {
            before.1.cells()[c]
        })
}

/// One more position adds the data and the width of its store.
proof fn step_along<S: Scalar, D: FieldData<S>>(
    entries: Seq<(TypeId, D)>,
    flow: Flow,
    c: int,
    k: int,
)
    requires
        entries.len() <= usize::MAX,
        0 <= k < positions::<S, D>(entries, flow).len(),
    ensures
        ({
            let at: Seq<usize> = positions::<S, D>(entries, flow);
            let i: int = at[k] as int;
            &&& i < entries.len()
            &&& flow_width(entries[i].1, flow) > 0
            &&& gathered::<S, D>(entries, flow, c, at.take(k + 1)) == gathered::<S, D>(
                entries,
                flow,
                c,
                at.take(k),
            ) + flow_data::<S, D>(entries[i].1.cells()[c], flow)
            &&& gathered_width::<S, D>(entries, flow, at.take(k + 1)) == gathered_width::<S, D>(
                entries,
                flow,
                at.take(k),
            ) + flow_width(entries[i].1, flow)
            &&& gathered_width::<S, D>(entries, flow, at.take(k)) == total_width::<S, D>(
                entries.take(i),
                flow,
            )
            &&& gathered_width::<S, D>(entries, flow, at.take(k + 1)) <= total_width::<S, D>(
                entries,
                flow,
            )
        }),
{
    let at: Seq<usize> = positions::<S, D>(entries, flow);
    let i: int = at[k] as int;
    position_at::<S, D>(entries, flow, k);
    assert(at.take(k + 1).drop_last() =~= at.take(k));
    gathered_is_row::<S, D>(entries, entries.take(i), flow, c);
    share_is_inside::<S, D>(entries, flow, i);
}

/// All positions together gather all stores.
proof fn all_gathered<S: Scalar, D: FieldData<S>>(entries: Seq<(TypeId, D)>, flow: Flow, c: int)
    requires
        entries.len() <= usize::MAX,
    ensures
        gathered::<S, D>(entries, flow, c, positions::<S, D>(entries, flow)) == row::<S, D>(
            entries,
            flow,
            c,
        ),
        gathered_width::<S, D>(entries, flow, positions::<S, D>(entries, flow)) == total_width::<
            S,
            D,
        >(entries, flow),
{
    assert(entries.take(entries.len() as int) =~= entries);
    gathered_is_row::<S, D>(entries, entries, flow, c);
}

/// A store that was registered is found under its type, and no other store is.
pub proof fn registered_is_found<S: Scalar, D: FieldData<S>>(
    before: FieldRegistry<S, D>,
    after: FieldRegistry<S, D>,
    id: TypeId,
    field: D,
    found: D,
)
    requires
        before.valid(),
        !before.has(id),
        after.entries() == before.entries().push((id, field)),
    ensures
        after.holds(id, found) <==> found == field,
        forall|other: TypeId|
            other != id ==> (#[trigger] after.holds(other, found) <==> before.holds(other, found)),
{
    let n: int = before.entries().len() as int;
    assert(after.entries()[n] == (id, field));
    assert forall|other: TypeId| other != id implies (#[trigger] after.holds(other, found)
        <==> before.holds(other, found)) by {
        if before.holds(other, found) {
            let i: int = choose|i: int|
                0 <= i < before.entries().len() && #[trigger] before.entries()[i] == (other, found);
            assert(after.entries()[i] == (other, found));
        }
        if after.holds(other, found) {
            let i: int = choose|i: int|
                0 <= i < after.entries().len() && #[trigger] after.entries()[i] == (other, found);
            assert(before.entries()[i] == (other, found));
        }
    }
    if after.holds(id, found) && found != field {
        let i: int = choose|i: int|
            0 <= i < after.entries().len() && #[trigger] after.entries()[i] == (id, found);
        assert(before.entries()[i].0 == id);
    }
}

/// Both ends of an exchange agree on the order: out of what a cell sends over all
/// stores, the share that a store takes is what that store sent.
pub proof fn each_store_gets_its_share<S: Scalar, D: FieldData<S>>(
    entries: Seq<(TypeId, D)>,
    flow: Flow,
    c: int,
    i: int,
)
    requires
        fills::<S, D>(entries, flow, c),
        0 <= i < entries.len(),
        flow_width(entries[i].1, flow) > 0,
    ensures
        ({
            let start: int = total_width::<S, D>(entries.take(i), flow) as int;
            row::<S, D>(entries, flow, c).subrange(start, start + flow_width(entries[i].1, flow))
                == flow_data::<S, D>(entries[i].1.cells()[c], flow)
        }),
    decreases entries.len(),
{
    let start: int = total_width::<S, D>(entries.take(i), flow) as int;
    let width: int = flow_width(entries[i].1, flow) as int;
    let rest: Seq<(TypeId, D)> = entries.drop_last();
    assert forall|j: int|
        0 <= j < rest.len() && flow_width((#[trigger] rest[j]).1, flow) > 0 implies flow_data::<
        S,
        D,
    >(rest[j].1.cells()[c], flow).len() == flow_width(rest[j].1, flow) by {
        assert(rest[j] == entries[j]);
    }
    row_has_width::<S, D>(rest, flow, c);
    if i == entries.len() - 1 {
        assert(entries.take(i) =~= rest);
        assert(row::<S, D>(entries, flow, c).subrange(start, start + width) =~= flow_data::<S, D>(
            entries[i].1.cells()[c],
            flow,
        ));
    } else {
        each_store_gets_its_share::<S, D>(rest, flow, c, i);
        assert(rest.take(i) =~= entries.take(i));
        share_is_inside::<S, D>(rest, flow, i);
        assert(row::<S, D>(entries, flow, c).subrange(start, start + width) =~= row::<S, D>(
            rest,
            flow,
            c,
        ).subrange(start, start + width));
    }
}

/// The widths of every store are within the index range.
pub open spec fn all_fit<S: Scalar, D: FieldData<S>>(entries: Seq<(TypeId, D)>) -> bool {
    forall|i: int| 0 <= i < entries.len() ==> (#[trigger] entries[i]).1.fits()
}

/// No two entries have one type.
pub open spec fn distinct_types<D>(entries: Seq<(TypeId, D)>) -> bool {
    forall|i: int, j: int|
        0 <= i < j < entries.len() ==> (#[trigger] entries[i]).0 != (#[trigger] entries[j]).0
}

} // verus!
