use cl_hsm::bigint::BigInt;
use cl_hsm::form::ClassGroupElement;
use cl_hsm::group::GroupContext;
use cl_hsm::rng::RandomnessSource;
use cl_hsm::scheme::{decrypt, encrypt, keygen, Cleartext};

fn decimal(text: &str) -> BigInt {
    let ten = BigInt::from_i64(10);
    let (negative, digits) = match text.strip_prefix('-') {
        Some(rest) => (true, rest),
        None => (false, text),
    };
    let mut acc = BigInt::zero();
    for ch in digits.chars() {
        acc = acc.mul(&ten).add(&BigInt::from_i64(ch.to_digit(10).unwrap() as i64));
    }
    if negative {
        acc.neg()
    } else {
        acc
    }
}

fn form(a: &str, b: &str, c: &str) -> ClassGroupElement {
    ClassGroupElement::new(decimal(a), decimal(b), decimal(c))
}

const DELTA: &str = "-1306061681065744980591454809543127807";

/// Discriminant -p * 101^3 with the prime p = 1267650600228229401496703205707
/// just above 2^100: the message subgroup has order 101.
fn context(same_generator: bool) -> GroupContext {
    let f = form("10201", "101", "32008177655762792387791755944102");
    let h = if same_generator {
        form("10201", "101", "32008177655762792387791755944102")
    } else {
        form("49", "-37", "6663580005437474390772728620118006")
    };
    let bound = decimal("1267650600228229401496703205376");
    GroupContext::new(decimal(DELTA), BigInt::from_i64(101), bound.clone(), bound, f, h).unwrap()
}

#[test]
fn large_power_known_values() {
    let ctx = context(false);
    let e1 = decimal("1017878568110080782349472477685");
    let e2 = decimal("315760150597478723061464004");
    let first = ctx.power(ctx.generator_h(), &e1).unwrap();
    assert!(first.equals(&form("534959054053338773", "-97208500174357649", "614771898710928424")));
    let second = ctx.power(&first, &e2).unwrap();
    assert!(second.equals(&form("151482882940554313", "24671711321255141", "2156465385792193094")));
    // the two exponents may be taken in either order
    let other = ctx.power(&ctx.power(ctx.generator_h(), &e2).unwrap(), &e1).unwrap();
    assert!(second.equals(&other));
    assert!(ctx.power_known_order(&BigInt::from_i64(101)).equals(&ctx.identity()));
}

#[test]
fn large_multi_exp_is_the_product_of_the_powers() {
    let ctx = context(false);
    let e1 = decimal("1017878568110080782349472477685");
    let e2 = decimal("-315760150597478723061464004");
    let bases = vec![ctx.generator_h().clone(), ctx.generator_f().clone()];
    let scalars = vec![e1.clone(), e2.clone()];
    let together = ctx.multi_exp(&bases, &scalars).unwrap();
    let apart = ctx
        .compose(&ctx.power(&bases[0], &e1).unwrap(), &ctx.power(&bases[1], &e2).unwrap())
        .unwrap();
    assert!(together.equals(&apart));
}

#[test]
fn large_keygen_and_encrypt_known_values() {
    let ctx = context(false);
    let mut rng = RandomnessSource::from_seed([4u8; 32]);
    let (sk, pk) = keygen(&ctx, &mut rng).unwrap();
    assert!(sk.scalar().equals(&decimal("143272063030118351569207064440")));
    assert!(pk.element().equals(&form(
        "417221601628589926",
        "194960537531657333",
        "805370148030391349"
    )));
    let (ct, r) = encrypt(&ctx, &mut rng, &pk, &Cleartext::new(&ctx, &BigInt::from_i64(77))).unwrap();
    assert!(r.equals(&decimal("245496003251562565666857576669")));
    assert!(ct.c1().equals(&form("10201", "4343", "32008177655762792387791755944564")));
    assert!(ct.c2().equals(&form(
        "473927825296793446",
        "-383702479000994097",
        "766619512447461124"
    )));
}

#[test]
fn large_round_trip_in_the_message_subgroup() {
    let ctx = context(true);
    let mut rng = RandomnessSource::from_seed([4u8; 32]);
    let (sk, pk) = keygen(&ctx, &mut rng).unwrap();
    assert!(pk.element().equals(&form("10201", "-4747", "32008177655762792387791755944654")));
    let (ct, _) = encrypt(&ctx, &mut rng, &pk, &Cleartext::new(&ctx, &BigInt::from_i64(77))).unwrap();
    assert!(ct.c2().equals(&form("10201", "-9797", "32008177655762792387791755946454")));
    assert_eq!(decrypt(&ctx, &sk, &ct).unwrap().to_i64(), Some(77));
}
