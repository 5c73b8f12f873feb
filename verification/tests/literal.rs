use std::cmp::Ordering;

use drsat::cnf::{Literal, VariableId};

#[test]
fn literal_test1() {
    let lit = Literal::new(VariableId::from_usize(42), true);
    assert_eq!(lit.id(), VariableId::from_usize(42));
    assert!(lit.negated());
}

#[test]
fn literal_test2() {
    let lit = Literal::new(VariableId::from_usize(13), false);
    assert_eq!(lit.id().to_usize(), 13);
    assert!(!lit.negated());
}

#[test]
fn literal_order1() {
    let a = Literal::new(VariableId::from_usize(10), false);
    let b = Literal::new(VariableId::from_usize(12), false);
    assert!(a < b);
    assert!(a <= b);
    assert_eq!(a.partial_cmp(&b), Some(Ordering::Less));
    assert_eq!(a.partial_cmp(&a), Some(Ordering::Equal));
    assert_eq!(b.partial_cmp(&a), Some(Ordering::Greater));
    assert_eq!(a.cmp(&b), Ordering::Less);
    assert_eq!(a.cmp(&a), Ordering::Equal);
    assert_eq!(b.cmp(&a), Ordering::Greater);
}

#[test]
fn literal_order2() {
    let a = Literal::new(VariableId::from_usize(400), false);
    let b = Literal::new(VariableId::from_usize(400), true);
    assert!(a < b);
    assert!(a <= b);
    assert_eq!(a.partial_cmp(&b), Some(Ordering::Less));
    assert_eq!(a.partial_cmp(&a), Some(Ordering::Equal));
    assert_eq!(b.partial_cmp(&a), Some(Ordering::Greater));
    assert_eq!(a.cmp(&b), Ordering::Less);
    assert_eq!(a.cmp(&a), Ordering::Equal);
    assert_eq!(b.cmp(&a), Ordering::Greater);
}

#[test]
fn literal_round_trip() {
    for id in [0usize, 1, 2, 77, usize::MAX / 2 - 1, usize::MAX / 2] {
        for negated in [false, true] {
            let lit = Literal::new(VariableId::from_usize(id), negated);
            assert_eq!(lit.disassemble(), (VariableId::from_usize(id), negated));
        }
    }
}
