use cl_hsm::bigint::BigInt;
use cl_hsm::error::Error;
use cl_hsm::form::ClassGroupElement;
use cl_hsm::group::GroupContext;
use cl_hsm::rng::RandomnessSource;
use cl_hsm::scheme::{decrypt, encrypt, encrypt_all, encrypt_with, keygen, Ciphertext, Cleartext, PublicKey, SecretKey};

fn big(x: i64) -> BigInt {
    BigInt::from_i64(x)
}

fn form(a: i64, b: i64, c: i64) -> ClassGroupElement {
    ClassGroupElement::new(big(a), big(b), big(c))
}

fn triple(f: &ClassGroupElement) -> (i64, i64, i64) {
    (f.a().to_i64().unwrap(), f.b().to_i64().unwrap(), f.c().to_i64().unwrap())
}

fn same(x: &Ciphertext, y: &Ciphertext) -> bool {
    x.c1().equals(y.c1()) && x.c2().equals(y.c2())
}

/// Discriminant -1715, message space of order 7, and the class of
/// (3, 1, 143), of order 14, as second generator.
fn two_generators() -> GroupContext {
    GroupContext::new(big(-1715), big(7), big(1000), big(1000), form(9, -7, 49), form(3, 1, 143))
        .unwrap()
}

/// The same group with both generators in the message subgroup.
fn one_subgroup() -> GroupContext {
    GroupContext::new(big(-1715), big(7), big(1000), big(1000), form(9, -7, 49), form(9, -7, 49))
        .unwrap()
}

/// Discriminant -103 * 101^3 with both generators in the message subgroup
/// of order 101.
fn larger_subgroup() -> GroupContext {
    GroupContext::new(
        big(-106121003),
        big(101),
        big(1 << 30),
        big(1 << 30),
        form(2601, -101, 10201),
        form(2601, -101, 10201),
    )
    .unwrap()
}

fn source() -> RandomnessSource {
    RandomnessSource::from_seed([4u8; 32])
}

#[test]
fn cleartext_is_a_residue() {
    let ctx = two_generators();
    assert_eq!(Cleartext::new(&ctx, &big(5)).value().to_i64(), Some(5));
    assert_eq!(Cleartext::new(&ctx, &big(12)).value().to_i64(), Some(5));
    assert_eq!(Cleartext::new(&ctx, &big(-2)).value().to_i64(), Some(5));
    assert_eq!(Cleartext::new(&ctx, &big(7)).value().to_i64(), Some(0));
}

#[test]
fn keygen_known_values() {
    let ctx = two_generators();
    let mut rng = source();
    let (sk, pk) = keygen(&ctx, &mut rng).unwrap();
    assert_eq!(sk.scalar().to_i64(), Some(288));
    // 288 = 8 modulo 14
    assert_eq!(triple(pk.element()), (15, -5, 29));
    assert!(pk.element().equals(&ctx.power_unknown_order(sk.scalar(), ctx.generator_h()).unwrap()));
    assert!(pk.element().is_element(ctx.discriminant()));
    // the next key comes from the next sample
    let (sk2, _) = keygen(&ctx, &mut rng).unwrap();
    assert_eq!(sk2.scalar().to_i64(), Some(445));
}

#[test]
fn encrypt_known_values() {
    let ctx = two_generators();
    let mut rng = source();
    let (_, pk) = keygen(&ctx, &mut rng).unwrap();
    let (ct, r) = encrypt(&ctx, &mut rng, &pk, &Cleartext::new(&ctx, &big(5))).unwrap();
    assert_eq!(r.to_i64(), Some(445));
    assert_eq!(triple(ct.c1()), (15, 5, 29));
    assert_eq!(triple(ct.c2()), (15, -5, 29));
}

#[test]
fn encrypt_follows_its_formulas() {
    let ctx = two_generators();
    let pk = PublicKey::new(form(13, -1, 33));
    for r in [0i64, 1, 2, 13, 999] {
        for m in 0..7i64 {
            let ct = encrypt_with(&ctx, &pk, &Cleartext::new(&ctx, &big(m)), &big(r)).unwrap();
            assert!(ct.c1().equals(&ctx.power_known_order(&big(r))));
            let shared = ctx.power_unknown_order(&big(r), pk.element()).unwrap();
            let encoded = ctx.power_known_order(&big(m));
            assert!(ct.c2().equals(&ctx.compose(&shared, &encoded).unwrap()));
        }
    }
}

#[test]
fn round_trip() {
    for ctx in [one_subgroup(), larger_subgroup()] {
        let mut rng = source();
        let (sk, pk) = keygen(&ctx, &mut rng).unwrap();
        let top = ctx.cleartext_bound().to_i64().unwrap();
        for m in 0..top {
            let (ct, _) = encrypt(&ctx, &mut rng, &pk, &Cleartext::new(&ctx, &big(m))).unwrap();
            assert_eq!(decrypt(&ctx, &sk, &ct).unwrap().to_i64(), Some(m));
        }
    }
}

#[test]
fn round_trip_without_mask() {
    // with randomness zero the ciphertext is (1, f^m) under every key
    let ctx = two_generators();
    let mut rng = source();
    let (sk, pk) = keygen(&ctx, &mut rng).unwrap();
    for m in 0..7i64 {
        let ct = encrypt_with(&ctx, &pk, &Cleartext::new(&ctx, &big(m)), &big(0)).unwrap();
        assert!(ct.c1().equals(&ctx.identity()));
        assert_eq!(decrypt(&ctx, &sk, &ct).unwrap().to_i64(), Some(m));
    }
}

#[test]
fn sum_of_ciphertexts_decrypts_to_the_sum() {
    let ctx = larger_subgroup();
    let mut rng = source();
    let (sk, pk) = keygen(&ctx, &mut rng).unwrap();
    for (m1, m2) in [(0i64, 0i64), (1, 2), (50, 50), (100, 100), (37, 64)] {
        let (x, r1) = encrypt(&ctx, &mut rng, &pk, &Cleartext::new(&ctx, &big(m1))).unwrap();
        let (y, r2) = encrypt(&ctx, &mut rng, &pk, &Cleartext::new(&ctx, &big(m2))).unwrap();
        assert!(!r1.equals(&r2));
        let sum = x.combine(&y, &ctx).unwrap();
        assert_eq!(decrypt(&ctx, &sk, &sum).unwrap().to_i64(), Some((m1 + m2) % 101));
    }
}

#[test]
fn encrypt_all_with_one_receiver_is_encrypt() {
    let ctx = two_generators();
    let pk_element = form(13, -1, 33);
    for m in 0..7i64 {
        let mut first = source();
        let mut second = source();
        let (one, r1) =
            encrypt(&ctx, &mut first, &PublicKey::new(pk_element.clone()), &Cleartext::new(&ctx, &big(m)))
                .unwrap();
        let (all, r2) = encrypt_all(
            &ctx,
            &mut second,
            &vec![PublicKey::new(pk_element.clone())],
            &vec![Cleartext::new(&ctx, &big(m))],
        )
        .unwrap();
        assert!(r1.equals(&r2));
        assert_eq!(all.len(), 1);
        assert!(same(&one, &all[0]));
        // both moved their source by the same amount
        let bound = big(1 << 20);
        assert!(first.sample_uniform(&bound).unwrap().equals(&second.sample_uniform(&bound).unwrap()));
    }
}

#[test]
fn encrypt_all_shares_mask_and_randomness() {
    let ctx = one_subgroup();
    let mut rng = source();
    let mut sks: Vec<SecretKey> = Vec::new();
    let mut pks: Vec<PublicKey> = Vec::new();
    for _ in 0..5 {
        let (sk, pk) = keygen(&ctx, &mut rng).unwrap();
        sks.push(sk);
        pks.push(pk);
    }
    let ms: Vec<Cleartext> = (0..5).map(|m| Cleartext::new(&ctx, &big(m + 1))).collect();
    let (cts, r) = encrypt_all(&ctx, &mut rng, &pks, &ms).unwrap();
    assert_eq!(cts.len(), 5);
    let mask = ctx.power_known_order(&r);
    for i in 0..5 {
        assert!(cts[i].c1().equals(&mask));
        let alone = encrypt_with(&ctx, &pks[i], &ms[i], &r).unwrap();
        assert!(same(&alone, &cts[i]));
        assert_eq!(decrypt(&ctx, &sks[i], &cts[i]).unwrap().to_i64(), Some(i as i64 + 1));
    }
}

#[test]
fn encrypt_all_with_no_receiver() {
    let ctx = two_generators();
    let mut rng = source();
    let (cts, r) = encrypt_all(&ctx, &mut rng, &Vec::new(), &Vec::new()).unwrap();
    assert!(cts.is_empty());
    assert_eq!(r.to_i64(), Some(288));
}

#[test]
fn encrypt_all_refuses_mismatched_lengths() {
    let ctx = two_generators();
    let mut rng = source();
    let pks = vec![PublicKey::new(form(13, -1, 33)), PublicKey::new(form(3, 1, 143))];
    let ms = vec![Cleartext::new(&ctx, &big(1))];
    assert_eq!(encrypt_all(&ctx, &mut rng, &pks, &ms).err(), Some(Error::LengthMismatch));
    assert_eq!(encrypt_all(&ctx, &mut rng, &Vec::new(), &ms).err(), Some(Error::LengthMismatch));
    // nothing was drawn
    assert_eq!(rng.sample_uniform(&big(1000)).unwrap().to_i64(), Some(288));
}

#[test]
fn encryption_refuses_a_malformed_key() {
    let ctx = two_generators();
    let mut rng = source();
    let bad = PublicKey::new(form(1, 0, 5));
    let m = Cleartext::new(&ctx, &big(1));
    assert_eq!(encrypt(&ctx, &mut rng, &bad, &m).err(), Some(Error::MalformedElement));
    let pks = vec![PublicKey::new(form(13, -1, 33)), PublicKey::new(form(49, 7, 9))];
    let ms = vec![Cleartext::new(&ctx, &big(1)), Cleartext::new(&ctx, &big(2))];
    assert_eq!(encrypt_all(&ctx, &mut rng, &pks, &ms).err(), Some(Error::MalformedElement));
    assert_eq!(encrypt_with(&ctx, &bad, &m, &big(3)).err(), Some(Error::MalformedElement));
    let imprimitive = PublicKey::new(form(7, 7, 63));
    assert_eq!(encrypt(&ctx, &mut rng, &imprimitive, &m).err(), Some(Error::MalformedElement));
    // nothing was drawn
    assert_eq!(rng.sample_uniform(&big(1000)).unwrap().to_i64(), Some(288));
}

#[test]
fn same_seed_gives_the_same_keys_and_ciphertexts() {
    let ctx = larger_subgroup();
    let mut a = RandomnessSource::from_seed([21u8; 32]);
    let mut b = RandomnessSource::from_seed([21u8; 32]);
    for m in [3i64, 30, 100] {
        let (ska, pka) = keygen(&ctx, &mut a).unwrap();
        let (skb, pkb) = keygen(&ctx, &mut b).unwrap();
        assert!(ska.scalar().equals(skb.scalar()));
        assert!(pka.element().equals(pkb.element()));
        let (cta, ra) = encrypt(&ctx, &mut a, &pka, &Cleartext::new(&ctx, &big(m))).unwrap();
        let (ctb, rb) = encrypt(&ctx, &mut b, &pkb, &Cleartext::new(&ctx, &big(m))).unwrap();
        assert!(ra.equals(&rb));
        assert!(same(&cta, &ctb));
    }
}

#[test]
fn decrypt_refuses_a_ciphertext_of_another_group() {
    let ctx = one_subgroup();
    let other = larger_subgroup();
    let mut rng = source();
    let (sk, _) = keygen(&ctx, &mut rng).unwrap();
    let (_, other_pk) = keygen(&other, &mut rng).unwrap();
    let (foreign, _) = encrypt(&other, &mut rng, &other_pk, &Cleartext::new(&other, &big(3))).unwrap();
    assert_eq!(decrypt(&ctx, &sk, &foreign).err(), Some(Error::MalformedElement));
    // one component of the right group is not enough
    let mixed = Ciphertext::new(ctx.identity(), foreign.c2().clone());
    assert_eq!(decrypt(&ctx, &sk, &mixed).err(), Some(Error::MalformedElement));
}

#[test]
fn decrypt_fails_outside_the_message_subgroup() {
    let ctx = two_generators();
    let sk = SecretKey::new(big(5));
    let tampered = Ciphertext::new(ctx.identity(), form(3, 1, 143));
    assert_eq!(decrypt(&ctx, &sk, &tampered).err(), Some(Error::DecryptionFailure));
}

#[test]
fn combine_refuses_a_malformed_ciphertext() {
    let ctx = two_generators();
    let good = Ciphertext::new(form(9, -7, 49), form(3, 1, 143));
    let bad = Ciphertext::new(form(9, -7, 49), form(1, 0, 5));
    assert_eq!(good.combine(&bad, &ctx).err(), Some(Error::MalformedElement));
    let sum = good.combine(&good, &ctx).unwrap();
    assert_eq!(triple(sum.c1()), (11, -1, 39));
}

#[test]
fn an_exhausted_source_stops_key_generation_and_encryption() {
    let ctx = two_generators();
    let mut rng = RandomnessSource::from_seed_at([4u8; 32], u64::MAX);
    assert_eq!(keygen(&ctx, &mut rng).err(), Some(Error::RandomnessExhausted));
    let pk = PublicKey::new(form(13, -1, 33));
    let m = Cleartext::new(&ctx, &big(1));
    assert_eq!(encrypt(&ctx, &mut rng, &pk, &m).err(), Some(Error::RandomnessExhausted));
    let all = encrypt_all(&ctx, &mut rng, &vec![PublicKey::new(form(13, -1, 33))], &vec![Cleartext::new(&ctx, &big(1))]);
    assert_eq!(all.err(), Some(Error::RandomnessExhausted));
}
