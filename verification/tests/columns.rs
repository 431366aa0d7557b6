//! Components, columns of them, and their exchange.

use field::column::{Column, Columns};
use field::component::Component;
use field::exchange::{
    halo_exchange_forward, halo_exchange_forward_all, halo_exchange_reverse_all, HaloAction,
    HaloEvent,
};
use field::field_data::FieldData;
use field::halo::{HaloLink, HaloPlan};
use field::mesh::{FvMesh, StructuredMesh};
use field::registry::FieldRegistry;
use field::scalar::Scalar;
use field::uniform::{UniformMesh, UniformMeshConfig};
use std::any::TypeId;

/// Double precision as a scalar.
#[derive(Clone, Copy, Debug, PartialEq)]
struct F(f64);

impl Scalar for F {
    fn zero() -> Self {
        F(0.0)
    }
    fn one() -> Self {
        F(1.0)
    }
    fn tiny() -> Self {
        F(1e-30)
    }
    fn slop() -> Self {
        F(1e-9)
    }
    fn from_count(n: usize) -> Self {
        F(n as f64)
    }
    fn from_signed(n: i64) -> Self {
        F(n as f64)
    }
    fn plus(self, rhs: Self) -> Self {
        F(self.0 + rhs.0)
    }
    fn minus(self, rhs: Self) -> Self {
        F(self.0 - rhs.0)
    }
    fn times(self, rhs: Self) -> Self {
        F(self.0 * rhs.0)
    }
    fn over(self, rhs: Self) -> Self {
        F(self.0 / rhs.0)
    }
    fn negated(self) -> Self {
        F(-self.0)
    }
    fn halved(self) -> Self {
        F(0.5 * self.0)
    }
    fn floored(self) -> Self {
        F(self.0.floor())
    }
    fn root(self) -> Self {
        F(self.0.sqrt())
    }
    fn to_index(self) -> usize {
        self.0 as usize
    }
    fn less(self, rhs: Self) -> bool {
        self.0 < rhs.0
    }
    fn at_most(self, rhs: Self) -> bool {
        self.0 <= rhs.0
    }
    fn equals(self, rhs: Self) -> bool {
        self.0 == rhs.0
    }
}

fn wrap(v: &[f64]) -> Vec<F> {
    v.iter().map(|&x| F(x)).collect()
}

#[test]
fn scalar_round_trip() {
    let mut buf: Vec<F> = Vec::new();
    Component::<F>::write(&F(3.5), &mut buf);
    assert_eq!(buf, wrap(&[3.5]));
    assert_eq!(<F as Component<F>>::read(&buf), F(3.5));
    let mut acc = F(1.0);
    Component::<F>::add_from(&mut acc, &buf);
    assert_eq!(acc, F(4.5));
}

#[test]
fn array_round_trip() {
    let v = [F(1.0), F(2.0), F(3.0)];
    let mut buf: Vec<F> = Vec::new();
    Component::<F>::write(&v, &mut buf);
    assert_eq!(buf, wrap(&[1.0, 2.0, 3.0]));
    assert_eq!(<[F; 3] as Component<F>>::read(&buf), v);
    let mut acc = [F(10.0), F(20.0), F(30.0)];
    Component::<F>::add_from(&mut acc, &buf);
    assert_eq!(acc, [F(11.0), F(22.0), F(33.0)]);
    assert_eq!(<[F; 3] as Component<F>>::width(), 3);
}

#[test]
fn bool_round_trip() {
    let mut buf: Vec<F> = Vec::new();
    Component::<F>::write(&true, &mut buf);
    assert_eq!(buf, wrap(&[1.0]));
    assert!(<bool as Component<F>>::read(&buf));
    assert!(!<bool as Component<F>>::zero());
}

#[test]
fn masks_accumulate_by_or() {
    let mut mask = false;
    Component::<F>::add_from(&mut mask, &wrap(&[0.0]));
    assert!(!mask);
    Component::<F>::add_from(&mut mask, &wrap(&[1.0]));
    assert!(mask);
    Component::<F>::add_from(&mut mask, &wrap(&[0.0]));
    assert!(mask);
    // A value of exactly one half reads as clear.
    assert!(!<bool as Component<F>>::read(&wrap(&[0.5])));
}

/// A two-component conserved variable.
#[derive(Clone, Copy, PartialEq, Debug)]
struct Duo {
    a: f64,
    b: f64,
}

impl Component<F> for Duo {
    fn width() -> usize {
        2
    }
    fn write(&self, buf: &mut Vec<F>) {
        buf.push(F(self.a));
        buf.push(F(self.b));
    }
    fn read(buf: &[F]) -> Self {
        Duo { a: buf[0].0, b: buf[1].0 }
    }
    fn add_from(&mut self, buf: &[F]) {
        self.a += buf[0].0;
        self.b += buf[1].0;
    }
    fn zero() -> Self {
        Duo { a: 0.0, b: 0.0 }
    }
}

/// Exchanged conserved state, a reverse-accumulated per-step-zeroed scalar, and a
/// plain column that never crosses a rank.
type State = Columns<
    Column<Duo, true, false, false>,
    Columns<Column<F, false, true, true>, Column<Duo, false, false, false>>,
>;

fn state() -> State {
    Columns { first: Column::new(), rest: Columns { first: Column::new(), rest: Column::new() } }
}

#[test]
fn sizes_count_only_tagged_columns() {
    let s = state();
    // forward = Duo (2); reverse = scalar (1); backup contributes to neither.
    assert_eq!(FieldData::<F>::forward_size(&s), 2);
    assert_eq!(FieldData::<F>::reverse_size(&s), 1);
}

#[test]
fn resize_and_len_cover_all_columns() {
    let mut s = state();
    FieldData::<F>::resize(&mut s, 4);
    assert_eq!(FieldData::<F>::len(&s), 4);
    assert_eq!(s.first.values.len(), 4);
    assert_eq!(s.rest.first.values.len(), 4);
    assert_eq!(s.rest.rest.values.len(), 4);
}

#[test]
fn forward_is_overwrite() {
    let mut s = state();
    FieldData::<F>::resize(&mut s, 2);
    s.first.values[0] = Duo { a: 1.0, b: 2.0 };
    let mut buf: Vec<F> = Vec::new();
    s.pack_forward(0, &mut buf);
    assert_eq!(buf, wrap(&[1.0, 2.0]));
    // Pre-seed the destination to prove forward overwrites rather than adds.
    s.first.values[1] = Duo { a: 99.0, b: 99.0 };
    let consumed = s.unpack_forward(1, &buf);
    assert_eq!(consumed, 2);
    assert_eq!(s.first.values[1], Duo { a: 1.0, b: 2.0 });
}

#[test]
fn reverse_accumulates() {
    let mut s = state();
    FieldData::<F>::resize(&mut s, 2);
    s.rest.first.values[0] = F(5.0);
    let mut buf: Vec<F> = Vec::new();
    s.pack_reverse(0, &mut buf);
    assert_eq!(buf, wrap(&[5.0]));
    s.rest.first.values[1] = F(10.0);
    let consumed = s.unpack_reverse_add(1, &buf);
    assert_eq!(consumed, 1);
    assert_eq!(s.rest.first.values[1], F(15.0)); // 10 + 5, accumulate not overwrite
}

#[test]
fn zero_resets_only_zero_tagged_columns() {
    let mut s = state();
    FieldData::<F>::resize(&mut s, 1);
    s.first.values[0] = Duo { a: 7.0, b: 8.0 };
    s.rest.first.values[0] = F(42.0);
    FieldData::<F>::zero(&mut s, 1);
    assert_eq!(s.rest.first.values[0], F(0.0));
    assert_eq!(s.first.values[0], Duo { a: 7.0, b: 8.0 }); // untouched
}

#[test]
fn round_trips_through_the_registry() {
    let id = TypeId::of::<State>();
    let mut reg: FieldRegistry<F, State> = FieldRegistry::new();
    reg.register(id, state());
    reg.resize_all(3);
    reg.get_mut(id).unwrap().first.values[0] = Duo { a: 1.5, b: -2.5 };
    assert_eq!(reg.forward_size(), 2);
    let mut buf: Vec<F> = Vec::new();
    reg.pack_forward_all(0, &mut buf);
    assert_eq!(buf, wrap(&[1.5, -2.5]));
    let consumed = reg.unpack_forward_all(2, &buf);
    assert_eq!(consumed, 2);
    assert_eq!(reg.get(id).unwrap().first.values[2], Duo { a: 1.5, b: -2.5 });
}

#[test]
fn registered_stores_are_borrowed_by_identifier() {
    let a = TypeId::of::<u8>();
    let b = TypeId::of::<u16>();
    let mut reg: FieldRegistry<F, State> = FieldRegistry::default();
    assert!(reg.is_empty());
    reg.register(a, state());
    assert!(!reg.is_empty());
    assert!(reg.get(b).is_none());
    assert!(reg.get_mut(b).is_none());
    reg.register(b, state());
    reg.resize_all(2);
    reg.expect_mut(b, "test").rest.first.values[1] = F(4.0);
    assert_eq!(reg.expect(b, "test").rest.first.values[1], F(4.0));
    assert_eq!(reg.expect(a, "test").rest.first.values[1], F(0.0));
    assert_eq!(reg.reverse_size(), 2);
    let mut buf: Vec<F> = Vec::new();
    reg.pack_reverse_all(1, &mut buf);
    assert_eq!(buf, wrap(&[0.0, 4.0]));
    assert_eq!(reg.unpack_reverse_all(0, &buf), 2);
    assert_eq!(reg.expect(b, "test").rest.first.values[0], F(4.0));
}

#[test]
fn resizing_keeps_what_fits_and_blanks_the_rest() {
    let mut c: Column<F, true, false, false> = Column { values: wrap(&[1.0, 2.0, 3.0]) };
    FieldData::<F>::resize(&mut c, 2);
    assert_eq!(c.values, wrap(&[1.0, 2.0]));
    FieldData::<F>::resize(&mut c, 4);
    assert_eq!(c.values, wrap(&[1.0, 2.0, 0.0, 0.0]));
}

// Exchange between ranks, in one process.

type Cells = Column<F, true, true, false>;

type Step =
    fn(&HaloPlan, &mut FieldRegistry<F, Cells>, HaloEvent<F>) -> HaloAction<F>;

/// Run one exchange of two ranks that trade with each other.
fn exchange(plans: [&HaloPlan; 2], regs: &mut [FieldRegistry<F, Cells>; 2], step: Step) -> usize {
    let mut rounds = 0;
    let mut a = step(plans[0], &mut regs[0], HaloEvent::Begin);
    let mut b = step(plans[1], &mut regs[1], HaloEvent::Begin);
    loop {
        match (a, b) {
            (HaloAction::Done, HaloAction::Done) => return rounds,
            (
                HaloAction::SendRecv { link: la, rank: ra, send: sa },
                HaloAction::SendRecv { link: lb, rank: rb, send: sb },
            ) => {
                assert_eq!((ra, rb), (1, 0));
                rounds += 1;
                a = step(plans[0], &mut regs[0], HaloEvent::Received { link: la, data: &sb });
                b = step(plans[1], &mut regs[1], HaloEvent::Received { link: lb, data: &sa });
            }
            _ => panic!("the ranks disagree"),
        }
    }
}

fn halves() -> [UniformMesh<F>; 2] {
    let cfg = UniformMeshConfig {
        nx: 4,
        ny: 2,
        nz: 1,
        ng: 1,
        bounds_lo: [F(0.0); 3],
        bounds_hi: [F(4.0), F(2.0), F(1.0)],
        y_edges: None,
        z_edges: None,
    };
    [
        UniformMesh::from_config_decomposed(&cfg, [2, 1, 1], [0, 0, 0]),
        UniformMesh::from_config_decomposed(&cfg, [2, 1, 1], [1, 0, 0]),
    ]
}

fn registry(mesh: &UniformMesh<F>, value: fn([F; 3]) -> f64) -> FieldRegistry<F, Cells> {
    let mut reg: FieldRegistry<F, Cells> = FieldRegistry::new();
    reg.register(TypeId::of::<Cells>(), Column::new());
    reg.resize_all(mesh.n_cells_total());
    for c in 0..mesh.n_cells_total() {
        if mesh.is_local_cell(c) {
            reg.get_mut(TypeId::of::<Cells>()).unwrap().values[c] =
                F(value(mesh.cell_centroid(c)));
        }
    }
    reg
}

#[test]
fn a_forward_exchange_fills_ghosts_with_their_owners() {
    let m = halves();
    let at = |p: [F; 3]| 10.0 * p[0].0 + p[1].0;
    let mut regs = [registry(&m[0], at), registry(&m[1], at)];
    let plans = [m[0].halo_plan(), m[1].halo_plan()];
    assert_eq!(exchange(plans, &mut regs, halo_exchange_forward_all), 1);
    for r in 0..2 {
        let values = &regs[r].get(TypeId::of::<Cells>()).unwrap().values;
        for link in &plans[r].links {
            for &c in &link.recv_cells {
                assert_eq!(values[c], F(at(m[r].cell_centroid(c))));
            }
        }
    }
    // A cell that no link receives into keeps what it held.
    let corner = m[0].idx_raw(0, 0, 0);
    assert_eq!(regs[0].get(TypeId::of::<Cells>()).unwrap().values[corner], F(0.0));
}

#[test]
fn a_reverse_exchange_adds_ghosts_to_their_owners() {
    let m = halves();
    let mut regs = [registry(&m[0], |_| 1.0), registry(&m[1], |_| 1.0)];
    for r in 0..2 {
        for &c in &m[r].halo_plan().links[0].recv_cells {
            regs[r].get_mut(TypeId::of::<Cells>()).unwrap().values[c] = F(5.0);
        }
    }
    let plans = [m[0].halo_plan(), m[1].halo_plan()];
    assert_eq!(exchange(plans, &mut regs, halo_exchange_reverse_all), 1);
    let values = &regs[0].get(TypeId::of::<Cells>()).unwrap().values;
    assert_eq!(values[m[0].idx(1, 0, 0)], F(6.0));
    assert_eq!(values[m[0].idx(0, 0, 0)], F(1.0));
}

#[test]
fn a_serial_exchange_does_nothing() {
    let m = halves();
    let mut reg = registry(&m[0], |_| 1.0);
    let action = halo_exchange_forward_all(&HaloPlan::empty(), &mut reg, HaloEvent::Begin);
    assert!(matches!(action, HaloAction::Done));
    let mut nothing: FieldRegistry<F, Cells> = FieldRegistry::new();
    let action = halo_exchange_forward_all(m[0].halo_plan(), &mut nothing, HaloEvent::Begin);
    assert!(matches!(action, HaloAction::Done));
}

#[test]
fn a_single_store_is_exchanged_link_by_link() {
    let plan = HaloPlan {
        links: vec![
            HaloLink { rank: 3, send_cells: vec![1, 0], recv_cells: vec![2] },
            HaloLink { rank: 5, send_cells: vec![2], recv_cells: vec![3, 4] },
        ],
    };
    let mut c: Cells = Column { values: wrap(&[1.0, 2.0, 3.0, 4.0, 5.0]) };
    let first = halo_exchange_forward(&plan, &mut c, HaloEvent::Begin);
    match first {
        HaloAction::SendRecv { link, rank, send } => {
            assert_eq!((link, rank), (0, 3));
            assert_eq!(send, wrap(&[2.0, 1.0]));
        }
        HaloAction::Done => panic!("two links are open"),
    }
    let second =
        halo_exchange_forward(&plan, &mut c, HaloEvent::Received { link: 0, data: &wrap(&[30.0]) });
    match second {
        HaloAction::SendRecv { link, rank, send } => {
            assert_eq!((link, rank), (1, 5));
            // What arrived over the first link is what goes out over the second.
            assert_eq!(send, wrap(&[30.0]));
        }
        HaloAction::Done => panic!("one link is open"),
    }
    let data = wrap(&[40.0, 50.0]);
    let last = halo_exchange_forward(&plan, &mut c, HaloEvent::Received { link: 1, data: &data });
    assert!(matches!(last, HaloAction::Done));
    assert_eq!(c.values, wrap(&[1.0, 2.0, 30.0, 40.0, 50.0]));
    assert!(!plan.is_serial());
    assert!(HaloPlan::default().is_serial());
}

#[test]
fn a_whole_store_hands_its_forward_columns_over() {
    type Store = Columns<
        Column<Duo, true, false, false>,
        Columns<Column<F, false, true, true>, Column<bool, true, true, false>>,
    >;
    let mut s: Store = Columns {
        first: Column::new(),
        rest: Columns { first: Column::new(), rest: Column::new() },
    };
    FieldData::<F>::resize(&mut s, 3);
    s.first.values[0] = Duo { a: 1.5, b: -2.0 };
    s.rest.first.values[0] = F(9.0);
    s.rest.first.values[2] = F(4.0);
    s.rest.rest.values[0] = true;
    // The widths of the forward columns add up, in order.
    assert_eq!(FieldData::<F>::forward_size(&s), 3);
    let mut buf: Vec<F> = Vec::new();
    s.pack_forward(0, &mut buf);
    assert_eq!(buf, wrap(&[1.5, -2.0, 1.0]));
    assert_eq!(s.unpack_forward(2, &buf), 3);
    assert_eq!(s.first.values, vec![
        Duo { a: 1.5, b: -2.0 },
        Duo { a: 0.0, b: 0.0 },
        Duo { a: 1.5, b: -2.0 },
    ]);
    assert_eq!(s.rest.rest.values, vec![true, false, true]);
    assert_eq!(s.rest.first.values, wrap(&[9.0, 0.0, 4.0]));
    // The reverse columns accumulate.
    let mut back: Vec<F> = Vec::new();
    s.pack_reverse(0, &mut back);
    assert_eq!(back, wrap(&[9.0, 1.0]));
    assert_eq!(s.unpack_reverse_add(2, &back), 2);
    assert_eq!(s.rest.first.values, wrap(&[9.0, 0.0, 13.0]));
}
