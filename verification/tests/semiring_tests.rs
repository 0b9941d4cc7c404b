use wfst::num::Num;
use wfst::semiring::{DivideType, Weight, power};
use wfst::weights::{MinmaxWeight, TropicalWeight};

fn trop(v: i64) -> TropicalWeight {
    TropicalWeight::new(Some(Num::Finite(v)))
}

fn mm(v: i64) -> MinmaxWeight {
    MinmaxWeight::new(Some(Num::Finite(v)))
}

#[test]
fn tropical_plus_times() {
    // min-plus semantics: plus picks the smaller cost, times adds
    assert!(trop(3).plus(&trop(5)).eq_weight(&trop(3)));
    assert!(trop(3).times(&trop(5)).eq_weight(&trop(8)));
}

#[test]
fn minmax_plus_times() {
    assert!(mm(2).plus(&mm(7)).eq_weight(&mm(2)));
    assert!(mm(2).times(&mm(7)).eq_weight(&mm(7)));
}

#[test]
fn closure_members() {
    assert!(trop(1).plus(&trop(2)).is_member());
    assert!(trop(1).times(&trop(2)).is_member());
    assert!(mm(1).plus(&mm(2)).is_member());
    assert!(mm(1).times(&mm(2)).is_member());
}

#[test]
fn associativity() {
    let (a, b, c) = (trop(2), trop(9), trop(4));
    assert!(a.plus(&b.plus(&c)).eq_weight(&a.plus(&b).plus(&c)));
    assert!(a.times(&b.times(&c)).eq_weight(&a.times(&b).times(&c)));
    let (a, b, c) = (mm(2), mm(9), mm(4));
    assert!(a.plus(&b.plus(&c)).eq_weight(&a.plus(&b).plus(&c)));
    assert!(a.times(&b.times(&c)).eq_weight(&a.times(&b).times(&c)));
}

#[test]
fn identities() {
    let a = trop(7);
    assert!(a.plus(&TropicalWeight::zero()).eq_weight(&a));
    assert!(TropicalWeight::zero().plus(&a).eq_weight(&a));
    assert!(a.times(&TropicalWeight::one()).eq_weight(&a));
    assert!(TropicalWeight::one().times(&a).eq_weight(&a));
    let b = mm(7);
    assert!(b.plus(&MinmaxWeight::zero()).eq_weight(&b));
    assert!(b.times(&MinmaxWeight::one()).eq_weight(&b));
    assert!(MinmaxWeight::one().times(&b).eq_weight(&b));
}

#[test]
fn annihilation() {
    let a = trop(7);
    assert!(a.times(&TropicalWeight::zero()).eq_weight(&TropicalWeight::zero()));
    assert!(TropicalWeight::zero().times(&a).eq_weight(&TropicalWeight::zero()));
    let b = mm(7);
    assert!(b.times(&MinmaxWeight::zero()).eq_weight(&MinmaxWeight::zero()));
    assert!(MinmaxWeight::zero().times(&b).eq_weight(&MinmaxWeight::zero()));
}

#[test]
fn none_propagation() {
    let a = trop(7);
    assert!(!TropicalWeight::none().is_member());
    assert!(!a.plus(&TropicalWeight::none()).is_member());
    assert!(!TropicalWeight::none().plus(&a).is_member());
    assert!(!a.times(&TropicalWeight::none()).is_member());
    assert!(!TropicalWeight::none().times(&a).is_member());
    assert!(!a.divide(&TropicalWeight::none(), None).is_member());
    assert!(!TropicalWeight::none().divide(&a, None).is_member());
}

#[test]
fn commutativity() {
    let (a, b) = (trop(2), trop(9));
    assert!(a.plus(&b).eq_weight(&b.plus(&a)));
    assert!(a.times(&b).eq_weight(&b.times(&a)));
    let (a, b) = (mm(2), mm(9));
    assert!(a.plus(&b).eq_weight(&b.plus(&a)));
    assert!(a.times(&b).eq_weight(&b.times(&a)));
}

#[test]
fn distributivity() {
    let (a, b, c) = (trop(2), trop(9), trop(4));
    assert!(c.times(&a.plus(&b)).eq_weight(&c.times(&a).plus(&c.times(&b))));
    assert!(a.plus(&b).times(&c).eq_weight(&a.times(&c).plus(&b.times(&c))));
    let (a, b, c) = (mm(2), mm(9), mm(4));
    assert!(c.times(&a.plus(&b)).eq_weight(&c.times(&a).plus(&c.times(&b))));
    assert!(a.plus(&b).times(&c).eq_weight(&a.times(&c).plus(&b.times(&c))));
}

#[test]
fn idempotent_and_path() {
    let (a, b) = (trop(2), trop(9));
    assert!(a.plus(&a).eq_weight(&a));
    let s = a.plus(&b);
    assert!(s.eq_weight(&a) || s.eq_weight(&b));
    let (a, b) = (mm(2), mm(9));
    assert!(a.plus(&a).eq_weight(&a));
    let s = a.plus(&b);
    assert!(s.eq_weight(&a) || s.eq_weight(&b));
}

#[test]
fn power_laws() {
    let w = trop(3);
    assert!(power(&w, 0).eq_weight(&TropicalWeight::one()));
    assert!(power(&w, 1).eq_weight(&w));
    assert!(power(&w, 3).eq_weight(&w.times(&w.times(&w))));
    assert!(power(&w, 3).eq_weight(&trop(9)));
}

#[test]
fn division_left_right() {
    let (w1, w2) = (trop(4), trop(6));
    let p = w1.times(&w2);
    let d = p.divide(&w1, Some(DivideType::Divleft));
    assert!(d.is_member());
    assert!(p.eq_weight(&w1.times(&d)));
    let d = p.divide(&w2, Some(DivideType::Divright));
    assert!(d.is_member());
    assert!(p.eq_weight(&d.times(&w2)));
    let (w1, w2) = (mm(4), mm(6));
    let p = w1.times(&w2);
    let d = p.divide(&w1, Some(DivideType::Divleft));
    assert!(d.is_member());
    assert!(p.eq_weight(&w1.times(&d)));
    // dividing a smaller by a larger min-max weight has no quotient
    assert!(!mm(4).divide(&mm(6), Some(DivideType::Divany)).is_member());
}

#[test]
fn reverse_laws() {
    let (a, b) = (trop(2), trop(9));
    assert!(a.reverse().reverse().eq_weight(&a));
    assert!(a.plus(&b).reverse().eq_weight(&a.reverse().plus(&b.reverse())));
    assert!(a.times(&b).reverse().eq_weight(&a.reverse().times(&b.reverse())));
}

#[test]
fn equality_relation() {
    let (a, b, c) = (trop(2), trop(2), trop(2));
    assert!(a.eq_weight(&a));
    assert_eq!(a.eq_weight(&b), b.eq_weight(&a));
    if a.eq_weight(&b) && b.eq_weight(&c) {
        assert!(a.eq_weight(&c));
    }
    // value equality is not reflexive on the non-member sentinel
    assert!(!TropicalWeight::none().eq_weight(&TropicalWeight::none()));
    assert!(TropicalWeight::none().same(&TropicalWeight::none()));
}

#[test]
fn approx_eq_and_quantize() {
    assert!(trop(5).approx_eq(&trop(5), None));
    assert!(!trop(5).approx_eq(&trop(6), None));
    assert!(trop(5).approx_eq(&trop(6), Some(1)));
    assert!(!trop(5).approx_eq(&TropicalWeight::none(), Some(10)));
    // a non-member operand yields false, even against itself
    let neg_inf = TropicalWeight::new(Some(Num::NegInfinite));
    assert!(!neg_inf.approx_eq(&neg_inf, Some(10)));
    assert!(!TropicalWeight::new(Some(Num::NotNumber)).approx_eq(&trop(5), Some(10)));
    // round to the nearest multiple of four, ties upward
    assert!(trop(5).quantize(Some(4)).eq_weight(&trop(4)));
    assert!(trop(6).quantize(Some(4)).eq_weight(&trop(8)));
    assert!(trop(-5).quantize(Some(4)).eq_weight(&trop(-4)));
    assert!(trop(7).quantize(None).eq_weight(&trop(7)));
    assert!(TropicalWeight::zero().quantize(Some(4)).eq_weight(&TropicalWeight::zero()));
}

#[test]
fn wtype_tags() {
    assert_eq!(TropicalWeight::wtype(), "tropical");
    assert_eq!(MinmaxWeight::wtype(), "minmax");
}

#[test]
fn tropical_nonmembers() {
    assert!(!TropicalWeight::new(Some(Num::NotNumber)).is_member());
    assert!(!TropicalWeight::new(Some(Num::NegInfinite)).is_member());
    assert!(TropicalWeight::new(Some(Num::Infinite)).is_member());
    // min-max admits both infinities and rejects only the undefined value
    assert!(MinmaxWeight::new(Some(Num::NegInfinite)).is_member());
    assert!(!MinmaxWeight::new(Some(Num::NotNumber)).is_member());
}
