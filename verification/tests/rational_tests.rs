use autograd::rational::Rat;

#[test]
fn exact_arithmetic() {
    let a = Rat::new(1, 2);
    let b = Rat::new(1, 3);
    let s = a.checked_add(&b).unwrap();
    assert!(s.eq_rat(&Rat::new(5, 6)));
    let d = a.checked_sub(&b).unwrap();
    assert!(d.eq_rat(&Rat::new(1, 6)));
    let m = a.checked_mul(&b).unwrap();
    assert!(m.eq_rat(&Rat::new(1, 6)));
}

#[test]
fn addition_reduces() {
    let a = Rat::new(1, 4);
    let b = Rat::new(1, 4);
    let s = a.checked_add(&b).unwrap();
    assert!(s.eq_rat(&Rat::new(1, 2)));
    // the stored pair is in lower terms than the raw cross-multiplied sum
    assert!(s.den <= 8);
}

#[test]
fn overflow_is_reported() {
    let big = Rat::new(i64::MAX, 1);
    assert!(big.checked_add(&big).is_none());
    assert!(big.checked_mul(&big).is_none());
}

#[test]
fn reduced_keeps_the_value() {
    let a = Rat::new(42, 70);
    let r = a.reduced();
    assert!(r.eq_rat(&Rat::new(3, 5)));
    assert!(r.den <= a.den);
}

#[test]
fn order_and_sign() {
    assert!(Rat::new(1, 3).le_rat(&Rat::new(1, 2)));
    assert!(!Rat::new(1, 2).le_rat(&Rat::new(1, 3)));
    assert!(Rat::new(-7, 2).le_rat(&Rat::new(-7, 2)));
    assert!(Rat::new(1, 9).is_positive());
    assert!(!Rat::new(-1, 9).is_positive());
    assert!(!Rat::zero().is_positive());
    assert!(Rat::from_int(5).eq_rat(&Rat::new(10, 2)));
    assert!(Rat::one().eq_rat(&Rat::new(3, 3)));
}
