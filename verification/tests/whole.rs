//! Exact integer arithmetic as a scalar.

use field::scalar::Scalar;
use field::whole::Whole;

fn w(n: i64) -> Whole {
    Whole { n }
}

#[test]
fn sums_and_products_wrap_around() {
    assert_eq!(w(i64::MAX).plus(w(1)), w(i64::MIN));
    assert_eq!(w(3).minus(w(5)), w(-2));
    assert_eq!(w(1 << 40).times(w(1 << 40)), w(0));
    assert_eq!(w(5).negated().plus(w(5)), Whole::zero());
    assert_eq!(w(7).times(Whole::one()), w(7));
}

#[test]
fn comparisons_and_roots() {
    assert!(w(-1).less(w(0)));
    assert!(w(2).at_most(w(2)));
    assert!(w(2).equals(w(2)) && !w(2).equals(w(3)));
    assert_eq!(w(17).root(), w(4));
    assert_eq!(w(16).root(), w(4));
    assert_eq!(w(-3).root(), w(0));
    assert_eq!(w(9).floored(), w(9));
    assert_eq!(w(9).to_index(), 9);
    assert_eq!(w(-9).to_index(), 0);
    assert_eq!(Whole::from_count(12), w(12));
    assert_eq!(Whole::from_signed(-12), w(-12));
}
