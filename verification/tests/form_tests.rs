use cl_hsm::bigint::BigInt;
use cl_hsm::error::Error;
use cl_hsm::form::{xgcd, ClassGroupElement};

fn big(x: i64) -> BigInt {
    BigInt::from_i64(x)
}

fn form(a: i64, b: i64, c: i64) -> ClassGroupElement {
    ClassGroupElement::new(big(a), big(b), big(c))
}

fn triple(f: &ClassGroupElement) -> (i64, i64, i64) {
    (f.a().to_i64().unwrap(), f.b().to_i64().unwrap(), f.c().to_i64().unwrap())
}

/// The fourteen primitive reduced forms of discriminant -1715.
fn classes() -> Vec<ClassGroupElement> {
    let all: [(i64, i64, i64); 14] = [
        (1, 1, 429),
        (3, -1, 143),
        (3, 1, 143),
        (5, 5, 87),
        (9, -7, 49),
        (9, 7, 49),
        (11, -1, 39),
        (11, 1, 39),
        (13, -1, 33),
        (13, 1, 33),
        (15, -5, 29),
        (15, 5, 29),
        (17, -11, 27),
        (17, 11, 27),
    ];
    all.iter().map(|t| form(t.0, t.1, t.2)).collect()
}

#[test]
fn xgcd_gives_bezout_coefficients() {
    let (g, u, v) = xgcd(&big(240), &big(46));
    assert_eq!(g.to_i64(), Some(2));
    assert_eq!(u.to_i64().unwrap() * 240 + v.to_i64().unwrap() * 46, 2);
    let (g, u, v) = xgcd(&big(-12), &big(0));
    assert_eq!((g.to_i64(), u.to_i64(), v.to_i64()), (Some(12), Some(-1), Some(0)));
    let (g, u, v) = xgcd(&big(17), &big(17));
    assert_eq!((g.to_i64(), u.to_i64(), v.to_i64()), (Some(17), Some(0), Some(1)));
}

#[test]
fn discriminant_of_a_form() {
    assert_eq!(form(9, -7, 49).discriminant().to_i64(), Some(-1715));
    assert_eq!(form(1, 0, 5).discriminant().to_i64(), Some(-20));
}

#[test]
fn reduce_reaches_the_canonical_form() {
    assert_eq!(triple(&form(49, 7, 9).reduce().unwrap()), (9, -7, 49));
    assert_eq!(triple(&form(143, 285, 145).reduce().unwrap()), (3, 1, 143));
    // a == c with negative b flips the sign of b
    assert_eq!(triple(&form(5, -2, 5).reduce().unwrap()), (5, 2, 5));
    // b == -a is moved to b == a
    assert_eq!(triple(&form(4, -4, 7).reduce().unwrap()), (4, 4, 7));
}

#[test]
fn reduce_keeps_a_reduced_form() {
    for x in classes() {
        assert!(x.is_reduced());
        assert!(x.reduce().unwrap().equals(&x));
    }
}

#[test]
fn reduce_refuses_what_is_not_positive_definite() {
    assert_eq!(form(0, 1, 1).reduce().err(), Some(Error::MalformedElement));
    assert_eq!(form(-1, 1, -5).reduce().err(), Some(Error::MalformedElement));
    assert_eq!(form(1, 5, 1).reduce().err(), Some(Error::MalformedElement));
}

#[test]
fn identity_is_the_principal_form() {
    assert_eq!(triple(&ClassGroupElement::identity(&big(-1715))), (1, 1, 429));
    assert_eq!(triple(&ClassGroupElement::identity(&big(-20))), (1, 0, 5));
    assert_eq!(triple(&ClassGroupElement::identity(&big(-3))), (1, 1, 1));
}

#[test]
fn is_element_checks_discriminant_reduction_and_content() {
    let delta = big(-1715);
    assert!(form(9, -7, 49).is_element(&delta));
    assert!(!form(49, 7, 9).is_element(&delta));
    assert!(!form(1, 0, 5).is_element(&delta));
    assert!(!form(9, -9, 49).is_reduced());
    assert!(!form(9, -1, 9).is_reduced());
    assert!(form(9, 9, 9).is_reduced());
    // reduced, of the right discriminant, but with content 7
    assert!(form(7, 7, 63).is_form(&delta));
    assert!(!form(7, 7, 63).is_primitive());
    assert!(!form(7, 7, 63).is_element(&delta));
    assert!(form(21, 7, 21).is_form(&delta));
    assert!(!form(21, 7, 21).is_element(&delta));
}

#[test]
fn is_primitive_looks_at_all_three_coefficients() {
    assert!(form(6, 10, 15).is_primitive());
    assert!(!form(6, 10, 14).is_primitive());
    assert!(form(1, 0, 0).is_primitive());
    assert!(!form(0, 0, 0).is_primitive());
    assert!(!form(0, 0, 5).is_primitive());
    assert!(form(0, 0, -1).is_primitive());
    assert!(!form(-4, 6, -8).is_primitive());
}

#[test]
fn compose_known_products() {
    let delta = big(-1715);
    assert_eq!(triple(&form(3, 1, 143).compose(&form(5, 5, 87), &delta).unwrap()), (15, -5, 29));
    assert_eq!(triple(&form(13, -1, 33).compose(&form(17, 11, 27), &delta).unwrap()), (15, -5, 29));
    assert_eq!(triple(&form(9, -7, 49).compose(&form(9, -7, 49), &delta).unwrap()), (11, -1, 39));
}

#[test]
fn compose_with_identity_is_neutral() {
    let delta = big(-1715);
    let e = ClassGroupElement::identity(&delta);
    for x in classes() {
        assert!(x.compose(&e, &delta).unwrap().equals(&x));
        assert!(e.compose(&x, &delta).unwrap().equals(&x));
    }
}

#[test]
fn compose_is_commutative() {
    let delta = big(-1715);
    let all = classes();
    for x in &all {
        for y in &all {
            let xy = x.compose(y, &delta).unwrap();
            let yx = y.compose(x, &delta).unwrap();
            assert!(xy.equals(&yx));
        }
    }
}

#[test]
fn compose_is_associative() {
    let delta = big(-1715);
    let all = classes();
    for x in &all {
        for y in &all {
            let xy = x.compose(y, &delta).unwrap();
            for z in &all {
                let left = xy.compose(z, &delta).unwrap();
                let right = x.compose(&y.compose(z, &delta).unwrap(), &delta).unwrap();
                assert!(left.equals(&right));
            }
        }
    }
}

#[test]
fn square_is_compose_with_itself() {
    let delta = big(-1715);
    for x in classes() {
        let sq = x.square(&delta).unwrap();
        assert!(sq.equals(&x.compose(&x, &delta).unwrap()));
        assert!(sq.is_element(&delta));
    }
    assert_eq!(triple(&form(9, -7, 49).square(&delta).unwrap()), (11, -1, 39));
}

#[test]
fn inverse_negates_the_middle_coefficient() {
    let delta = big(-1715);
    assert_eq!(triple(&form(3, 1, 143).inverse(&delta).unwrap()), (3, -1, 143));
    // a form with b == a is its own inverse
    assert_eq!(triple(&form(5, 5, 87).inverse(&delta).unwrap()), (5, 5, 87));
    let e = ClassGroupElement::identity(&delta);
    for x in classes() {
        let inv = x.inverse(&delta).unwrap();
        assert!(x.compose(&inv, &delta).unwrap().equals(&e));
    }
}

#[test]
fn malformed_operands_are_refused() {
    let delta = big(-1715);
    let good = form(9, -7, 49);
    let other_group = form(1, 0, 5);
    let unreduced = form(49, 7, 9);
    assert_eq!(good.compose(&other_group, &delta).err(), Some(Error::MalformedElement));
    assert_eq!(other_group.compose(&good, &delta).err(), Some(Error::MalformedElement));
    assert_eq!(unreduced.compose(&good, &delta).err(), Some(Error::MalformedElement));
    assert_eq!(unreduced.square(&delta).err(), Some(Error::MalformedElement));
    assert_eq!(other_group.inverse(&delta).err(), Some(Error::MalformedElement));
    let imprimitive = form(7, 7, 63);
    assert_eq!(good.compose(&imprimitive, &delta).err(), Some(Error::MalformedElement));
    assert_eq!(imprimitive.square(&delta).err(), Some(Error::MalformedElement));
    assert_eq!(imprimitive.inverse(&delta).err(), Some(Error::MalformedElement));
}

#[test]
fn equals_compares_all_three_coefficients() {
    assert!(form(3, 1, 143).equals(&form(3, 1, 143)));
    assert!(!form(3, 1, 143).equals(&form(3, -1, 143)));
    assert!(!form(3, 1, 143).equals(&form(3, 1, 144)));
    assert!(!form(3, 1, 143).equals(&form(5, 1, 143)));
}
