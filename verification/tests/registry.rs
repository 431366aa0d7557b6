//! The type-keyed registry of field stores.

use field::field_data::FieldData;
use field::registry::{FieldRegistry, FieldRegistryError};
use field::scalar::Scalar;
use std::any::TypeId;

/// Double precision as a scalar.
#[derive(Clone, Copy, Debug, PartialEq)]
struct F(f64);

impl Scalar for F {
    fn zero() -> Self {
        F(0.0)
    }
    fn one() -> Self {
        F(1.0)
    }
    fn tiny() -> Self {
        F(1e-30)
    }
    fn slop() -> Self {
        F(1e-9)
    }
    fn from_count(n: usize) -> Self {
        F(n as f64)
    }
    fn from_signed(n: i64) -> Self {
        F(n as f64)
    }
    fn plus(self, rhs: Self) -> Self {
        F(self.0 + rhs.0)
    }
    fn minus(self, rhs: Self) -> Self {
        F(self.0 - rhs.0)
    }
    fn times(self, rhs: Self) -> Self {
        F(self.0 * rhs.0)
    }
    fn over(self, rhs: Self) -> Self {
        F(self.0 / rhs.0)
    }
    fn negated(self) -> Self {
        F(-self.0)
    }
    fn halved(self) -> Self {
        F(0.5 * self.0)
    }
    fn floored(self) -> Self {
        F(self.0.floor())
    }
    fn root(self) -> Self {
        F(self.0.sqrt())
    }
    fn to_index(self) -> usize {
        self.0 as usize
    }
    fn less(self, rhs: Self) -> bool {
        self.0 < rhs.0
    }
    fn at_most(self, rhs: Self) -> bool {
        self.0 <= rhs.0
    }
    fn equals(self, rhs: Self) -> bool {
        self.0 == rhs.0
    }
}

/// A forward-exchanged scalar with a separate accumulator.
struct ScalarStore {
    value: Vec<F>,
    accum: Vec<F>,
}

fn store(value: &[f64], accum: &[f64]) -> ScalarStore {
    ScalarStore {
        value: value.iter().map(|&x| F(x)).collect(),
        accum: accum.iter().map(|&x| F(x)).collect(),
    }
}

impl FieldData<F> for ScalarStore {
    type Cell = (F, F);
    fn len(&self) -> usize {
        self.value.len()
    }
    fn resize(&mut self, n: usize) {
        self.value.resize(n, F(0.0));
        self.accum.resize(n, F(0.0));
    }
    fn forward_size(&self) -> usize {
        1
    }
    fn pack_forward(&self, c: usize, buf: &mut Vec<F>) {
        buf.push(self.value[c]);
    }
    fn unpack_forward(&mut self, c: usize, buf: &[F]) -> usize {
        self.value[c] = buf[0];
        1
    }
    fn reverse_size(&self) -> usize {
        0
    }
    fn pack_reverse(&self, _c: usize, _buf: &mut Vec<F>) {}
    fn unpack_reverse_add(&mut self, _c: usize, _buf: &[F]) -> usize {
        0
    }
    fn zero_cell(&mut self, c: usize) {
        self.accum[c] = F(0.0);
    }
}

fn id() -> TypeId {
    TypeId::of::<ScalarStore>()
}

#[test]
fn register_and_borrow() {
    let mut reg: FieldRegistry<F, ScalarStore> = FieldRegistry::new();
    reg.register(id(), store(&[1.0, 2.0, 3.0], &[9.0; 3]));
    assert_eq!(reg.forward_size(), 1);
    reg.get_mut(id()).unwrap().value[1] = F(99.0);
    assert_eq!(reg.get(id()).unwrap().value[1], F(99.0));
    reg.resize_all(5);
    assert_eq!(reg.get(id()).unwrap().len(), 5);
}

#[test]
fn forward_pack_unpack_round_trip() {
    let mut reg: FieldRegistry<F, ScalarStore> = FieldRegistry::new();
    reg.register(id(), store(&[10.0, 20.0, 30.0], &[0.0; 3]));
    let mut buf = Vec::new();
    reg.pack_forward_all(1, &mut buf);
    assert_eq!(buf, vec![F(20.0)]);
    let consumed = reg.unpack_forward_all(0, &buf);
    assert_eq!(consumed, 1);
    assert_eq!(reg.get(id()).unwrap().value[0], F(20.0));
}

#[test]
fn try_register_rejects_duplicate_without_panicking() {
    let mut reg: FieldRegistry<F, ScalarStore> = FieldRegistry::new();
    assert!(reg.try_register(id(), store(&[1.0], &[0.0])).is_ok());
    let err = reg.try_register(id(), store(&[2.0], &[0.0])).unwrap_err();
    assert!(matches!(err, FieldRegistryError::AlreadyRegistered(t) if t == TypeId::of::<ScalarStore>()));
    assert_eq!(reg.get(id()).unwrap().value, vec![F(1.0)]);
}

#[test]
fn error_display_is_descriptive() {
    let e = FieldRegistryError::AlreadyRegistered(id());
    assert!(e.message().contains("already registered"));
    assert!(FieldRegistryError::RegistryMissing.message().contains("FieldRegistryPlugin"));
}

#[test]
fn zero_resets_only_accumulators() {
    let mut reg: FieldRegistry<F, ScalarStore> = FieldRegistry::new();
    reg.register(id(), store(&[1.0; 3], &[5.0; 3]));
    reg.zero_all(3);
    let s = reg.get(id()).unwrap();
    assert_eq!(s.accum, vec![F(0.0), F(0.0), F(0.0)]);
    assert_eq!(s.value, vec![F(1.0), F(1.0), F(1.0)]);
}

#[test]
fn the_message_names_the_type() {
    let e = FieldRegistryError::AlreadyRegistered(id());
    let text = format!("FieldRegistry: field type {:?} already registered", id());
    assert_eq!(e.message(), text);
    assert_ne!(FieldRegistryError::AlreadyRegistered(TypeId::of::<u8>()).message(), text);
}
