use cl_hsm::bigint::BigInt;
use cl_hsm::error::Error;
use cl_hsm::rng::RandomnessSource;

fn big(x: i64) -> BigInt {
    BigInt::from_i64(x)
}

fn decimal(text: &str) -> BigInt {
    let ten = big(10);
    let mut acc = big(0);
    for ch in text.chars() {
        acc = acc.mul(&ten).add(&big(ch.to_digit(10).unwrap() as i64));
    }
    acc
}

#[test]
fn first_word_of_the_zero_key_stream() {
    let mut rng = RandomnessSource::from_seed([0u8; 32]);
    let bound = BigInt::from_u64(1 << 32);
    assert_eq!(rng.sample_uniform(&bound).unwrap().to_u64(), Some(0xade0_b876));
}

#[test]
fn samples_for_a_fixed_seed() {
    let mut rng = RandomnessSource::from_seed([4u8; 32]);
    let bound = big(1000);
    let drawn: Vec<i64> = (0..5).map(|_| rng.sample_uniform(&bound).unwrap().to_i64().unwrap()).collect();
    assert_eq!(drawn, vec![288, 445, 795, 887, 294]);
}

#[test]
fn samples_below_a_large_bound() {
    let mut rng = RandomnessSource::from_seed([4u8; 32]);
    let bound = decimal("1000000000000000000000000000000");
    let first = rng.sample_uniform(&bound).unwrap();
    assert!(first.equals(&decimal("286856390960077541171815675768")));
    assert_eq!(rng.sample_uniform(&big(7)).unwrap().to_i64(), Some(5));
}

#[test]
fn same_seed_gives_the_same_sequence() {
    let mut a = RandomnessSource::from_seed([9u8; 32]);
    let mut b = RandomnessSource::from_seed([9u8; 32]);
    let bounds = [big(2), big(1000), decimal("340282366920938463463374607431768211507"), big(1)];
    for bound in &bounds {
        for _ in 0..20 {
            let x = a.sample_uniform(bound).unwrap();
            let y = b.sample_uniform(bound).unwrap();
            assert!(x.equals(&y));
            assert!(!x.is_negative());
            assert!(x.less_than(bound));
        }
    }
}

#[test]
fn different_seeds_give_different_sequences() {
    let mut a = RandomnessSource::from_seed([1u8; 32]);
    let mut b = RandomnessSource::from_seed([2u8; 32]);
    let bound = decimal("340282366920938463463374607431768211507");
    assert!(!a.sample_uniform(&bound).unwrap().equals(&b.sample_uniform(&bound).unwrap()));
}

#[test]
fn a_bound_that_is_not_positive_is_refused() {
    let mut rng = RandomnessSource::from_seed([4u8; 32]);
    assert_eq!(rng.sample_uniform(&big(0)).err(), Some(Error::InvalidBound));
    assert_eq!(rng.sample_uniform(&big(-5)).err(), Some(Error::InvalidBound));
    // the refusals did not move the source
    assert_eq!(rng.sample_uniform(&big(1000)).unwrap().to_i64(), Some(288));
}

#[test]
fn a_bound_of_one_gives_zero() {
    let mut rng = RandomnessSource::from_seed([7u8; 32]);
    assert_eq!(rng.sample_uniform(&big(1)).unwrap().to_i64(), Some(0));
}

#[test]
fn an_exhausted_source_refuses() {
    let mut rng = RandomnessSource::from_seed_at([4u8; 32], u64::MAX);
    assert_eq!(rng.sample_uniform(&big(1000)).err(), Some(Error::RandomnessExhausted));
    assert_eq!(rng.counter(), u64::MAX);
    // the last block can still be used
    let mut rng = RandomnessSource::from_seed_at([4u8; 32], u64::MAX - 1);
    assert!(rng.sample_uniform(&big(1000)).is_ok());
    assert_eq!(rng.counter(), u64::MAX);
    assert_eq!(rng.sample_uniform(&big(1000)).err(), Some(Error::RandomnessExhausted));
}

#[test]
fn a_source_moves_by_the_blocks_it_uses() {
    let mut rng = RandomnessSource::from_seed([4u8; 32]);
    assert_eq!(rng.counter(), 0);
    rng.sample_uniform(&big(1000)).unwrap();
    assert_eq!(rng.counter(), 1);
    // a bound of thirteen limbs takes seventeen words, which is two blocks
    let wide = BigInt::from_limbs(false, vec![1; 13]);
    rng.sample_uniform(&wide).unwrap();
    assert_eq!(rng.counter(), 3);
    // a source placed there continues in the same way
    let mut resumed = RandomnessSource::from_seed_at([4u8; 32], 3);
    assert!(rng.sample_uniform(&wide).unwrap().equals(&resumed.sample_uniform(&wide).unwrap()));
}
