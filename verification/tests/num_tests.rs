use wfst::num::Num;

#[test]
fn extended_addition() {
    assert_eq!(Num::Finite(2).add(&Num::Finite(3)), Num::Finite(5));
    assert_eq!(Num::Finite(2).add(&Num::Infinite), Num::Infinite);
    assert_eq!(Num::NegInfinite.add(&Num::Finite(3)), Num::NegInfinite);
    assert_eq!(Num::Infinite.add(&Num::NegInfinite), Num::NotNumber);
    assert_eq!(Num::NotNumber.add(&Num::Finite(1)), Num::NotNumber);
    // a finite sum that leaves the range saturates into an infinity
    assert_eq!(Num::Finite(i64::MAX).add(&Num::Finite(1)), Num::Infinite);
    assert_eq!(Num::Finite(i64::MIN).add(&Num::Finite(-1)), Num::NegInfinite);
}

#[test]
fn extended_subtraction() {
    assert_eq!(Num::Finite(2).sub(&Num::Finite(3)), Num::Finite(-1));
    assert_eq!(Num::Infinite.sub(&Num::Infinite), Num::NotNumber);
    assert_eq!(Num::Infinite.sub(&Num::Finite(3)), Num::Infinite);
    assert_eq!(Num::Finite(3).sub(&Num::Infinite), Num::NegInfinite);
    assert_eq!(Num::Finite(i64::MIN).sub(&Num::Finite(1)), Num::NegInfinite);
}

#[test]
fn extended_order() {
    assert!(Num::NegInfinite.lt(&Num::Finite(0)));
    assert!(Num::Finite(0).lt(&Num::Infinite));
    assert!(Num::Finite(-1).lt(&Num::Finite(1)));
    assert!(!Num::NotNumber.lt(&Num::Finite(0)));
    assert!(!Num::Finite(0).lt(&Num::NotNumber));
    assert!(Num::Infinite.le(&Num::Infinite));
    assert!(!Num::NotNumber.le(&Num::NotNumber));
}

#[test]
fn quantize_rounds_to_multiples() {
    assert_eq!(Num::Finite(5).quantize(4), Num::Finite(4));
    assert_eq!(Num::Finite(6).quantize(4), Num::Finite(8));
    assert_eq!(Num::Finite(-5).quantize(4), Num::Finite(-4));
    assert_eq!(Num::Finite(-6).quantize(4), Num::Finite(-4));
    assert_eq!(Num::Finite(7).quantize(1), Num::Finite(7));
    assert_eq!(Num::Finite(7).quantize(0), Num::Finite(7));
    assert_eq!(Num::Infinite.quantize(4), Num::Infinite);
    assert_eq!(Num::NotNumber.quantize(4), Num::NotNumber);
}
