use cl_hsm::bigint::BigInt;
use cl_hsm::error::Error;
use cl_hsm::form::ClassGroupElement;
use cl_hsm::group::GroupContext;

fn big(x: i64) -> BigInt {
    BigInt::from_i64(x)
}

fn form(a: i64, b: i64, c: i64) -> ClassGroupElement {
    ClassGroupElement::new(big(a), big(b), big(c))
}

fn triple(f: &ClassGroupElement) -> (i64, i64, i64) {
    (f.a().to_i64().unwrap(), f.b().to_i64().unwrap(), f.c().to_i64().unwrap())
}

/// Discriminant -1715 = -5 * 7^3: the message subgroup has order 7.
fn small_context() -> GroupContext {
    GroupContext::new(big(-1715), big(7), big(1000), big(1000), form(9, -7, 49), form(3, 1, 143))
        .unwrap()
}

/// Discriminant -103 * 101^3: the message subgroup has order 101.
fn larger_context() -> GroupContext {
    GroupContext::new(
        big(-106121003),
        big(101),
        big(1 << 40),
        big(1 << 40),
        form(2601, -101, 10201),
        form(9, 7, 2947807),
    )
    .unwrap()
}

fn repeated(ctx: &GroupContext, base: &ClassGroupElement, n: u32) -> ClassGroupElement {
    let mut acc = ctx.identity();
    for _ in 0..n {
        acc = ctx.compose(&acc, base).unwrap();
    }
    acc
}

#[test]
fn context_keeps_its_parameters() {
    let ctx = small_context();
    assert_eq!(ctx.discriminant().to_i64(), Some(-1715));
    assert_eq!(ctx.cleartext_bound().to_i64(), Some(7));
    assert_eq!(ctx.encrypt_randomness_bound().to_i64(), Some(1000));
    assert_eq!(ctx.secret_key_bound().to_i64(), Some(1000));
    assert_eq!(triple(ctx.generator_f()), (9, -7, 49));
    assert_eq!(triple(ctx.generator_h()), (3, 1, 143));
    assert_eq!(triple(&ctx.identity()), (1, 1, 429));
}

#[test]
fn context_refuses_a_bound_that_is_not_positive() {
    let make = |m: i64, r: i64, s: i64| {
        GroupContext::new(big(-1715), big(m), big(r), big(s), form(9, -7, 49), form(3, 1, 143))
    };
    assert_eq!(make(0, 1000, 1000).err(), Some(Error::InvalidBound));
    assert_eq!(make(7, -1, 1000).err(), Some(Error::InvalidBound));
    assert_eq!(make(7, 1000, 0).err(), Some(Error::InvalidBound));
    // the bound is looked at before the generators
    let both = GroupContext::new(big(-1715), big(0), big(1), big(1), form(1, 0, 5), form(3, 1, 143));
    assert_eq!(both.err(), Some(Error::InvalidBound));
}

#[test]
fn context_refuses_a_generator_outside_the_group() {
    let wrong_f = GroupContext::new(big(-1715), big(7), big(10), big(10), form(1, 0, 5), form(3, 1, 143));
    assert_eq!(wrong_f.err(), Some(Error::MalformedElement));
    let unreduced_h = GroupContext::new(big(-1715), big(7), big(10), big(10), form(9, -7, 49), form(143, 285, 145));
    assert_eq!(unreduced_h.err(), Some(Error::MalformedElement));
    let imprimitive_h = GroupContext::new(big(-1715), big(7), big(10), big(10), form(9, -7, 49), form(7, 7, 63));
    assert_eq!(imprimitive_h.err(), Some(Error::MalformedElement));
}

#[test]
fn power_known_values() {
    let ctx = small_context();
    assert_eq!(triple(&ctx.power(ctx.generator_h(), &big(5)).unwrap()), (13, -1, 33));
    assert_eq!(triple(&ctx.power(ctx.generator_h(), &big(-3)).unwrap()), (17, -11, 27));
    assert_eq!(triple(&ctx.power_known_order(&big(3))), (15, -5, 29));
    assert_eq!(triple(&ctx.power(ctx.generator_h(), &big(0)).unwrap()), (1, 1, 429));
}

#[test]
fn power_is_repeated_composition() {
    let ctx = small_context();
    for base in [form(3, 1, 143), form(9, -7, 49), form(17, 11, 27), form(5, 5, 87), form(1, 1, 429)] {
        for n in 0..30u32 {
            let fast = ctx.power(&base, &big(n as i64)).unwrap();
            assert!(fast.equals(&repeated(&ctx, &base, n)));
        }
    }
    let ctx = larger_context();
    let h = form(9, 7, 2947807);
    for n in [0u32, 1, 2, 3, 17, 100, 255, 256] {
        assert!(ctx.power(&h, &big(n as i64)).unwrap().equals(&repeated(&ctx, &h, n)));
    }
}

#[test]
fn power_with_a_negative_exponent_raises_the_inverse() {
    let ctx = small_context();
    let h = form(3, 1, 143);
    for n in 1..20i64 {
        let down = ctx.power(&h, &big(-n)).unwrap();
        let up = ctx.power(&h, &big(n)).unwrap();
        assert!(ctx.compose(&down, &up).unwrap().equals(&ctx.identity()));
    }
}

#[test]
fn known_order_generator_has_the_order_of_the_message_space() {
    let ctx = small_context();
    assert!(ctx.power_known_order(&big(7)).equals(&ctx.identity()));
    for m in 1..7 {
        assert!(!ctx.power_known_order(&big(m)).equals(&ctx.identity()));
    }
    let ctx = larger_context();
    assert!(ctx.power_known_order(&big(101)).equals(&ctx.identity()));
    assert!(!ctx.power_known_order(&big(100)).equals(&ctx.identity()));
}

#[test]
fn power_unknown_order_is_power_of_the_given_base() {
    let ctx = small_context();
    let pk = form(13, -1, 33);
    let e = big(123456789);
    assert!(ctx.power_unknown_order(&e, &pk).unwrap().equals(&ctx.power(&pk, &e).unwrap()));
    // 123456789 = 1 modulo 14, the order of the class of (3, 1, 143)
    let h = form(3, 1, 143);
    assert!(ctx.power_unknown_order(&e, &h).unwrap().equals(&repeated(&ctx, &h, 1)));
}

#[test]
fn power_with_a_large_exponent() {
    let ctx = larger_context();
    let h = form(9, 7, 2947807);
    // exponents that differ by a multiple of the group order give one element
    let x = BigInt::from_u64(0xffff_ffff_ffff_ffff);
    let y = x.mul(&x);
    let first = ctx.power(&h, &y).unwrap();
    assert!(first.is_element(ctx.discriminant()));
    let again = ctx.power(&ctx.power(&h, &x).unwrap(), &x).unwrap();
    assert!(first.equals(&again));
}

#[test]
fn power_refuses_a_malformed_base() {
    let ctx = small_context();
    assert_eq!(ctx.power(&form(1, 0, 5), &big(3)).err(), Some(Error::MalformedElement));
    assert_eq!(ctx.power(&form(49, 7, 9), &big(0)).err(), Some(Error::MalformedElement));
    assert_eq!(ctx.power_unknown_order(&big(-2), &form(1, 0, 5)).err(), Some(Error::MalformedElement));
    assert_eq!(ctx.power(&form(7, 7, 63), &big(2)).err(), Some(Error::MalformedElement));
}

#[test]
fn multi_exp_known_value() {
    let ctx = small_context();
    let bases = vec![form(3, 1, 143), form(5, 5, 87), form(13, -1, 33)];
    let scalars = vec![big(5), big(-3), big(12)];
    assert_eq!(triple(&ctx.multi_exp(&bases, &scalars).unwrap()), (9, 7, 49));
}

#[test]
fn multi_exp_is_the_product_of_the_powers() {
    let ctx = small_context();
    let bases = vec![form(3, 1, 143), form(17, -11, 27), form(9, 7, 49), form(11, 1, 39)];
    let exponents: [[i64; 4]; 5] =
        [[0, 0, 0, 0], [1, 0, 0, 0], [5, 9, 2, 1], [1000, -77, 31, 6], [-1, -1, -1, -1]];
    for row in exponents {
        let scalars: Vec<BigInt> = row.iter().map(|e| big(*e)).collect();
        let mut expected = ctx.identity();
        for (b, e) in bases.iter().zip(scalars.iter()) {
            expected = ctx.compose(&expected, &ctx.power(b, e).unwrap()).unwrap();
        }
        assert!(ctx.multi_exp(&bases, &scalars).unwrap().equals(&expected));
    }
}

#[test]
fn multi_exp_with_one_base_is_power() {
    let ctx = larger_context();
    let h = form(9, 7, 2947807);
    for e in [0i64, 1, 2, 77, -77, 1 << 33] {
        let one = ctx.multi_exp(&vec![h.clone()], &vec![big(e)]).unwrap();
        assert!(one.equals(&ctx.power(&h, &big(e)).unwrap()));
    }
}

#[test]
fn multi_exp_refuses_mismatched_or_empty_input() {
    let ctx = small_context();
    let bases = vec![form(3, 1, 143), form(5, 5, 87)];
    assert_eq!(ctx.multi_exp(&bases, &vec![big(1)]).err(), Some(Error::LengthMismatch));
    assert_eq!(ctx.multi_exp(&Vec::new(), &Vec::new()).err(), Some(Error::LengthMismatch));
    assert_eq!(ctx.multi_exp(&Vec::new(), &vec![big(1)]).err(), Some(Error::LengthMismatch));
}

#[test]
fn multi_exp_refuses_a_malformed_base() {
    let ctx = small_context();
    let bases = vec![form(3, 1, 143), form(1, 0, 5)];
    assert_eq!(ctx.multi_exp(&bases, &vec![big(1), big(0)]).err(), Some(Error::MalformedElement));
    let bases = vec![form(21, 7, 21), form(3, 1, 143)];
    assert_eq!(ctx.multi_exp(&bases, &vec![big(-1), big(2)]).err(), Some(Error::MalformedElement));
}

#[test]
fn generator_order_is_checked_against_the_cleartext_bound() {
    assert!(small_context().generator_has_order());
    assert!(larger_context().generator_has_order());
    let with_bound = |bound: i64| {
        GroupContext::new(big(-1715), big(bound), big(10), big(10), form(9, -7, 49), form(3, 1, 143))
            .unwrap()
    };
    // the generator has order 7: 14 is a multiple, 5 is not
    assert!(!with_bound(14).generator_has_order());
    assert!(!with_bound(5).generator_has_order());
    assert!(with_bound(7).generator_has_order());
    // the class of (3, 1, 143) has order 14
    let other = GroupContext::new(big(-1715), big(14), big(10), big(10), form(3, 1, 143), form(9, -7, 49))
        .unwrap();
    assert!(other.generator_has_order());
}
