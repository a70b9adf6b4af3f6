use cl_hsm::natural::{
    compare_limbs, nat_add, nat_div_rem, nat_mul, nat_mul_small_add, nat_sub, shift_limbs, to_bits,
    trim, trimmed_len, Sign,
};

fn value(limbs: &Vec<u32>) -> u128 {
    limbs.iter().rev().fold(0u128, |acc, l| (acc << 32) | (*l as u128))
}

fn limbs(x: u128) -> Vec<u32> {
    vec![x as u32, (x >> 32) as u32, (x >> 64) as u32, (x >> 96) as u32]
}

#[test]
fn trimmed_len_sets_high_zero_limbs_aside() {
    assert_eq!(trimmed_len(&vec![1, 0, 3, 0, 0]), 3);
    assert_eq!(trimmed_len(&vec![0, 0, 0]), 0);
    assert_eq!(trimmed_len(&Vec::new()), 0);
    assert_eq!(trim(vec![7, 0, 0]), vec![7]);
    assert_eq!(trim(vec![0, 0]), Vec::<u32>::new());
}

#[test]
fn compare_limbs_ignores_high_zero_limbs() {
    assert_eq!(compare_limbs(&vec![5, 0, 0], &vec![5]), Sign::Zero);
    assert_eq!(compare_limbs(&vec![5, 1], &vec![7]), Sign::Positive);
    assert_eq!(compare_limbs(&vec![9, 1], &vec![3, 2, 0]), Sign::Negative);
    assert_eq!(compare_limbs(&vec![3, 2], &vec![4, 2]), Sign::Negative);
    assert_eq!(compare_limbs(&Vec::new(), &vec![0]), Sign::Zero);
}

#[test]
fn nat_add_carries_into_a_new_limb() {
    assert_eq!(trim(nat_add(&vec![0xffff_ffff, 0xffff_ffff], &vec![1])), vec![0, 0, 1]);
    assert_eq!(value(&nat_add(&limbs(1 << 95), &limbs(12345))), (1 << 95) + 12345);
    assert_eq!(value(&nat_add(&Vec::new(), &Vec::new())), 0);
}

#[test]
fn nat_sub_borrows_across_limbs() {
    assert_eq!(trim(nat_sub(&vec![0, 0, 1], &vec![1])), vec![0xffff_ffff, 0xffff_ffff]);
    assert_eq!(value(&nat_sub(&limbs(1 << 100), &limbs((1 << 100) - 7))), 7);
    assert_eq!(value(&nat_sub(&vec![5, 0], &vec![5])), 0);
}

#[test]
fn nat_mul_small_add_is_a_times_m_plus_c() {
    assert_eq!(value(&nat_mul_small_add(&limbs(0xffff_ffff_ffff_ffff), 0xffff_ffff, 0xffff_ffff)),
        0xffff_ffff_ffff_ffffu128 * 0xffff_ffff + 0xffff_ffff);
    assert_eq!(value(&nat_mul_small_add(&Vec::new(), 9, 4)), 4);
    assert_eq!(value(&nat_mul_small_add(&vec![3], 0, 0)), 0);
}

#[test]
fn shift_limbs_multiplies_by_a_power_of_the_radix() {
    assert_eq!(shift_limbs(&vec![7, 1], 2), vec![0, 0, 7, 1]);
    assert_eq!(shift_limbs(&vec![7], 0), vec![7]);
}

#[test]
fn nat_mul_is_the_product() {
    let a = 0xdead_beef_0123_4567u128;
    let b = 0xfedc_ba98_7654_3210u128;
    assert_eq!(value(&nat_mul(&limbs(a), &limbs(b))), a * b);
    assert_eq!(value(&nat_mul(&limbs(a), &Vec::new())), 0);
}

#[test]
fn nat_div_rem_is_quotient_and_remainder() {
    let a = 0xdead_beef_0123_4567_89ab_cdef_0f1e_2d3cu128;
    for b in [1u128, 2, 3, 0xffff_ffff, 0x1_0000_0000, 0x1234_5678_9abc_def0_1111, a, a + 1] {
        let (q, r) = nat_div_rem(&limbs(a), &limbs(b));
        assert_eq!(value(&q), a / b);
        assert_eq!(value(&r), a % b);
    }
}

#[test]
fn to_bits_reads_from_the_top() {
    let bits = to_bits(&vec![0b1011, 0]);
    let digits: String = bits.iter().map(|b| if *b { '1' } else { '0' }).collect();
    assert_eq!(digits.trim_start_matches('0'), "1011");
    assert!(to_bits(&Vec::new()).iter().all(|b| !*b));
    let wide = to_bits(&vec![1, 1]);
    let digits: String = wide.iter().map(|b| if *b { '1' } else { '0' }).collect();
    assert_eq!(digits.trim_start_matches('0'), format!("1{}1", "0".repeat(31)));
}
