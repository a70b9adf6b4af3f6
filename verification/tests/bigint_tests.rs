use cl_hsm::bigint::BigInt;
use cl_hsm::natural::Sign;

fn big(x: i64) -> BigInt {
    BigInt::from_i64(x)
}

#[test]
fn conversions_round_trip() {
    for x in [0i64, 1, -1, 42, i64::MAX, i64::MIN, -0x1_0000_0000, 0xffff_ffff] {
        assert_eq!(big(x).to_i64(), Some(x));
    }
    assert_eq!(BigInt::from_u64(u64::MAX).to_u64(), Some(u64::MAX));
    assert_eq!(BigInt::from_u64(u64::MAX).to_i64(), None);
    assert_eq!(big(-1).to_u64(), None);
    assert_eq!(big(i64::MIN).sub(&big(1)).to_i64(), None);
    assert_eq!(BigInt::zero().to_i64(), Some(0));
    assert_eq!(BigInt::one().to_i64(), Some(1));
}

#[test]
fn from_limbs_takes_sign_and_magnitude() {
    assert_eq!(BigInt::from_limbs(true, vec![5, 0, 0]).to_i64(), Some(-5));
    assert_eq!(BigInt::from_limbs(false, vec![0, 1]).to_u64(), Some(1 << 32));
    // zero has no sign
    let zero = BigInt::from_limbs(true, vec![0, 0]);
    assert!(zero.is_zero());
    assert!(!zero.is_negative());
    assert_eq!(zero.signum(), Sign::Zero);
    assert_eq!(BigInt::from_limbs(true, vec![7, 9]).magnitude_limbs(), vec![7, 9]);
}

#[test]
fn add_and_sub_cross_zero() {
    assert_eq!(big(5).add(&big(-12)).to_i64(), Some(-7));
    assert_eq!(big(-5).sub(&big(-12)).to_i64(), Some(7));
    assert_eq!(big(i64::MIN).add(&big(0)).to_i64(), Some(i64::MIN));
    assert_eq!(big(-9).add(&big(9)).to_i64(), Some(0));
    assert_eq!(big(9).neg().to_i64(), Some(-9));
    assert_eq!(big(-9).magnitude().to_i64(), Some(9));
}

#[test]
fn add_assign_changes_the_receiver_only() {
    let mut x = big(40);
    let y = big(2);
    x.add_assign(&y);
    assert_eq!(x.to_i64(), Some(42));
    assert_eq!(y.to_i64(), Some(2));
    x.add_assign(&big(-50));
    assert_eq!(x.to_i64(), Some(-8));
}

#[test]
fn mul_carries_over_limbs() {
    let a = BigInt::from_u64(0xffff_ffff_ffff_ffff);
    let sq = a.mul(&a);
    // (2^64 - 1)^2 = 2^128 - 2^65 + 1
    assert_eq!(sq.magnitude_limbs(), vec![1, 0, 0xffff_fffe, 0xffff_ffff]);
    assert_eq!(sq.to_u64(), None);
    assert_eq!(big(-3).mul(&big(7)).to_i64(), Some(-21));
    assert_eq!(big(-3).mul(&big(-7)).to_i64(), Some(21));
    assert_eq!(big(0).mul(&big(-7)).to_i64(), Some(0));
}

#[test]
fn div_rem_is_euclidean() {
    let cases: [(i64, i64, i64, i64); 6] =
        [(7, 2, 3, 1), (-7, 2, -4, 1), (7, -2, -3, 1), (-7, -2, 4, 1), (-8, 2, -4, 0), (0, -5, 0, 0)];
    for (x, d, q, r) in cases {
        let (qq, rr) = big(x).div_rem(&big(d)).unwrap();
        assert_eq!(qq.to_i64(), Some(q));
        assert_eq!(rr.to_i64(), Some(r));
        assert_eq!(big(x).modulo(&big(d)).unwrap().to_i64(), Some(r));
    }
    assert!(big(7).div_rem(&big(0)).is_none());
    assert!(big(7).modulo(&big(0)).is_none());
}

#[test]
fn division_of_large_numbers() {
    let a = BigInt::from_u64(0xffff_ffff_ffff_fff1);
    let b = BigInt::from_u64(0xffff_fffe_0000_0003);
    let c = big(123456789);
    let n = a.mul(&b).add(&c);
    let (q, r) = n.div_rem(&b).unwrap();
    assert!(q.equals(&a));
    assert!(r.equals(&c));
    let (q, r) = n.neg().div_rem(&b).unwrap();
    assert!(q.equals(&a.neg().sub(&big(1))));
    assert!(r.equals(&b.sub(&c)));
}

#[test]
fn comparisons() {
    assert_eq!(big(3).compare(&big(5)), Sign::Negative);
    assert_eq!(big(5).compare(&big(5)), Sign::Zero);
    assert_eq!(big(5).compare(&big(-5)), Sign::Positive);
    assert!(big(-6).less_than(&big(-5)));
    assert!(!big(-5).less_than(&big(-5)));
    assert!(big(-5).equals(&big(-5)));
    assert!(!big(5).equals(&big(-5)));
    assert_eq!(big(-5).signum(), Sign::Negative);
    assert_eq!(big(5).signum(), Sign::Positive);
    assert!(big(-5).is_negative());
    assert!(!big(0).is_negative());
}

#[test]
fn parity_and_size() {
    assert!(big(7).is_odd());
    assert!(big(-7).is_odd());
    assert!(!big(8).is_odd());
    assert!(!big(0).is_odd());
    assert_eq!(big(0).limb_count(), 0);
    assert_eq!(big(1).limb_count(), 1);
    assert_eq!(BigInt::from_u64(1 << 32).limb_count(), 2);
    assert_eq!(big(-(1 << 40)).limb_count(), 2);
}

#[test]
fn magnitude_bits_read_from_the_top() {
    let bits = big(-11).magnitude_bits();
    let digits: String = bits.iter().map(|b| if *b { '1' } else { '0' }).collect();
    assert_eq!(digits.trim_start_matches('0'), "1011");
}

#[test]
fn clone_keeps_the_value() {
    let x = BigInt::from_u64(u64::MAX).mul(&big(-3));
    assert!(x.clone().equals(&x));
}
