use high_level_caiman::rational::Rational;

#[test]
fn test_rational() {
    assert_eq!(Rational::gcd(22, 104), 2);
    assert_eq!(Rational::gcd(96, 144), 48);
    assert_eq!(Rational::new(3, 9), Rational::new(1, 3));
    assert_eq!(Rational::new(1, 1), Rational::new(7, 7));
    assert_eq!(Rational::new(22, 121), Rational::new(2, 11));
    assert_ne!(Rational::new(1, 2), Rational::new(2, 2));
    assert!(Rational::new(3, 4) > Rational::new(5, 7));
    assert!(Rational::new(1, 2) < Rational::new(2, 1));
}

use high_level_caiman::fractional::FractionalMultiSet;

#[test]
fn gcd_of_zero_is_zero() {
    assert_eq!(Rational::gcd(0, 5), 0);
    assert_eq!(Rational::gcd(7, 0), 0);
    assert_eq!(Rational::gcd(17, 5), 1);
}

#[test]
fn new_reduces_to_lowest_terms() {
    let r = Rational::new(6, 4);
    assert_eq!(r, Rational(3, 2));
    assert_eq!(r.num(), 3);
    assert_eq!(r.den(), 2);
    assert_eq!(Rational::one(), Rational(1, 1));
}

#[test]
fn rational_order_and_min() {
    let a = Rational::new(1, 3);
    let b = Rational::new(1, 2);
    assert!(a.lt(b));
    assert!(a.le(b));
    assert!(!b.le(a));
    assert!(a.le(Rational::new(2, 6)));
    assert_eq!(a.min(b), a);
    assert_eq!(b.min(a), a);
}

#[test]
fn fractional_multiset_insert_and_subset() {
    let mut a = FractionalMultiSet::new();
    a.insert(String::from("x"));
    assert!(a.contains(&String::from("x")));
    assert!(!a.contains(&String::from("y")));
    let mut b = FractionalMultiSet::new();
    b.insert(String::from("x"));
    b.insert(String::from("x"));
    b.insert(String::from("y"));
    // a = {x: 1}, b = {x: 2, y: 1}
    assert!(a.subset(&b));
    assert!(!b.subset(&a));
    let i = b.clone().intersect(&a);
    assert!(i.contains(&String::from("x")));
    assert!(!i.contains(&String::from("y")));
    let mut c = b.clone();
    c.remove_all(&String::from("x"));
    assert!(!c.contains(&String::from("x")));
    assert!(c.contains(&String::from("y")));
}

#[test]
fn fractional_insert_frac_grows_the_denominator() {
    let mut a = FractionalMultiSet::new();
    a.insert_frac(String::from("x"));
    a.insert_frac(String::from("x"));
    // {x: 1/2} is a strict part of {x: 1}
    let mut b = FractionalMultiSet::new();
    b.insert(String::from("x"));
    assert!(a.subset(&b));
    assert!(!b.subset(&a));
}
