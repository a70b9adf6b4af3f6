//! Signed integers of arbitrary size.
//!
//! A `BigInt` stands for a mathematical integer, its view. Every operation
//! is exact and leaves its operands as they were.

use vstd::prelude::*;
use vstd::arithmetic::div_mod::lemma_fundamental_div_mod_converse;
use crate::natural::{
    Sign, sign_of, limbs_value, bits_value, compare_limbs, nat_add, nat_sub, nat_mul,
    nat_div_rem, to_bits, trim, trimmed_len, lemma_value_low_limb, lemma_value_push, lemma_weight,
    weight,
};

verus! {

/// A signed integer of arbitrary size.
#[derive(Debug)]
pub struct BigInt {
    negative: bool,
    magnitude: Vec<u32>,
}

/// The integer with the given sign flag and absolute value.
pub open spec fn signed(negative: bool, magnitude: nat) -> int {
    if negative {
        -(magnitude as int)
    } else {
        magnitude as int
    }
}

/// The absolute value of an integer.
pub open spec fn abs(x: int) -> nat {
    if x < 0 {
        (-x) as nat
    } else {
        x as nat
    }
}

impl View for BigInt {
    type V = int;

    closed spec fn view(&self) -> int {
        signed(self.negative, limbs_value(self.magnitude@))
    }
}

/// The number of 32-bit limbs of a natural number.
pub open spec fn limb_count(x: nat) -> nat
    decreases x,
{
    if x == 0 {
        0
    } else {
        1 + limb_count(x / 0x1_0000_0000)
    }
}

/// A limb sequence without a zero limb at its high end has as many limbs as
/// its value.
pub proof fn lemma_limb_count(s: Seq<u32>)
    requires
        s.len() > 0 ==> s.last() != 0,
    ensures
        limb_count(limbs_value(s)) == s.len(),
    decreases s.len(),
{
    if s.len() > 0 {
        lemma_value_low_limb(s);
        crate::natural::lemma_value_top(s);
        lemma_weight((s.len() - 1) as nat);
        let t = s.drop_first();
        if t.len() > 0 {
            assert(t.last() == s.last());
        }
        lemma_limb_count(t);
        let v = limbs_value(t);
        let x = s[0] as nat;
        assert((x + 0x1_0000_0000 * v) / 0x1_0000_0000 == v) by (nonlinear_arith)
            requires
                x < 0x1_0000_0000,
        ;
    }
}

/// Euclidean division by a negative number, in terms of division by its
/// absolute value.
pub proof fn lemma_div_rem_negative_divisor(x: int, d: int)
    requires
        d < 0,
    ensures
        x / d == -(x / (-d)),
        x % d == x % (-d),
{
    let q = x / (-d);
    let r = x % (-d);
    assert(x == q * (-d) + r && 0 <= r < -d) by (nonlinear_arith)
        requires
            d < 0,
            q == x / (-d),
            r == x % (-d),
    ;
    assert(x / d == -q && x % d == r) by (nonlinear_arith)
        requires
            d < 0,
            x == q * (-d) + r,
            0 <= r < -d,
    ;
}

fn copy_limbs(a: &Vec<u32>) -> (r: Vec<u32>)
    ensures
        r@ == a@,
{
    let mut r: Vec<u32> = Vec::new();
    let mut i: usize = 0;
    while i < a.len()
        invariant
            i <= a.len(),
            r@ =~= a@.take(i as int),
        decreases a.len() - i,
    {
        r.push(a[i]);
        i = i + 1;
    }
    proof {
        assert(a@.take(a.len() as int) =~= a@);
    }
    r
}

impl Clone for BigInt {
    fn clone(&self) -> (r: Self)
        ensures
            r@ == self@,
    {
        BigInt { negative: self.negative, magnitude: copy_limbs(&self.magnitude) }
    }
}

impl BigInt {
    /// The integer with the given sign and little-endian 32-bit limbs.
    pub fn from_limbs(negative: bool, limbs: Vec<u32>) -> (r: BigInt)
        ensures
            r@ == signed(negative, limbs_value(limbs@)),
    {
        BigInt { negative, magnitude: trim(limbs) }
    }

    /// Whether the integer is below zero.
    pub fn is_negative(&self) -> (b: bool)
        ensures
            b == (self@ < 0),
    {
        self.negative && !self.is_zero()
    }

    /// The little-endian 32-bit limbs of the absolute value.
    pub fn magnitude_limbs(&self) -> (r: Vec<u32>)
        ensures
            limbs_value(r@) == abs(self@),
    {
        copy_limbs(&self.magnitude)
    }

    /// The integer zero.
    pub fn zero() -> (r: BigInt)
        ensures
            r@ == 0,
    {
        BigInt { negative: false, magnitude: Vec::new() }
    }

    /// The integer one.
    pub fn one() -> (r: BigInt)
        ensures
            r@ == 1,
    {
        BigInt::from_u64(1)
    }

    /// The integer with the value of a `u64`.
    pub fn from_u64(x: u64) -> (r: BigInt)
        ensures
            r@ == x,
    {
        let lo: u32 = (x % 0x1_0000_0000) as u32;
        let hi: u32 = (x / 0x1_0000_0000) as u32;
        let mut limbs: Vec<u32> = Vec::new();
        limbs.push(lo);
        limbs.push(hi);
        proof {
            let s0 = Seq::<u32>::empty();
            lemma_value_push(s0, lo);
            lemma_value_push(s0.push(lo), hi);
            lemma_weight(0);
            let w0 = weight(0);
            let w1 = weight(1);
            assert(lo * w0 + hi * w1 == lo + hi * 0x1_0000_0000) by (nonlinear_arith)
                requires
                    w0 == 1,
                    w1 == 0x1_0000_0000,
            ;
            assert(limbs@ =~= s0.push(lo).push(hi));
        }
        BigInt::from_limbs(false, limbs)
    }

    /// The integer with the value of an `i64`.
    pub fn from_i64(x: i64) -> (r: BigInt)
        ensures
            r@ == x,
    {
        if x >= 0 {
            BigInt::from_u64(x as u64)
        } else if x == i64::MIN {
            BigInt::from_u64(0x8000_0000_0000_0000).neg()
        } else {
            BigInt::from_u64((-x) as u64).neg()
        }
    }

    /// The value as a `u64`, where it is one.
    pub fn to_u64(&self) -> (r: Option<u64>)
        ensures
            r is Some <==> 0 <= self@ <= u64::MAX,
            r matches Some(x) ==> x == self@,
    {
        if self.is_negative() {
            return None;
        }
        let limit: BigInt = BigInt::from_u64(u64::MAX);
        match compare_limbs(&self.magnitude, &limit.magnitude) {
            Sign::Positive => None,
            _ => {
                let m: Vec<u32> = trim(copy_limbs(&self.magnitude));
                let lo: u64 = if m.len() > 0 { m[0] as u64 } else { 0 };
                let hi: u64 = if m.len() > 1 { m[1] as u64 } else { 0 };
                proof {
                    lemma_weight(0);
                    lemma_weight(1);
                    if m.len() > 0 {
                        lemma_value_low_limb(m@);
                        let t = m@.drop_first();
                        if t.len() > 0 {
                            lemma_value_low_limb(t);
                            let u = t.drop_first();
                            if u.len() > 0 {
                                crate::natural::lemma_value_top(m@);
                                crate::natural::lemma_weight_monotonic(2, (m.len() - 1) as nat);
                                crate::natural::lemma_weight(1);
                                assert(weight(2) == 0x1_0000_0000 * 0x1_0000_0000);
                            }
                        }
                    }
                }
                Some(lo + hi * 0x1_0000_0000)
            },
        }
    }

    /// The value as an `i64`, where it is one.
    pub fn to_i64(&self) -> (r: Option<i64>)
        ensures
            r is Some <==> i64::MIN <= self@ <= i64::MAX,
            r matches Some(x) ==> x == self@,
    {
        if self.is_negative() {
            match self.neg().to_u64() {
                Some(m) => if m <= 0x7fff_ffff_ffff_ffff {
                    Some(-(m as i64))
                } else if m == 0x8000_0000_0000_0000 {
                    Some(i64::MIN)
                } else {
                    None
                },
                None => None,
            }
        } else {
            match self.to_u64() {
                Some(m) => if m <= 0x7fff_ffff_ffff_ffff {
                    Some(m as i64)
                } else {
                    None
                },
                None => None,
            }
        }
    }

    /// Whether the integer is zero.
    pub fn is_zero(&self) -> (b: bool)
        ensures
            b == (self@ == 0),
    {
        let none: Vec<u32> = Vec::new();
        match compare_limbs(&self.magnitude, &none) {
            Sign::Zero => true,
            _ => false,
        }
    }

    /// The sign of the integer.
    pub fn signum(&self) -> (s: Sign)
        ensures
            s == sign_of(self@),
    {
        if self.is_zero() {
            Sign::Zero
        } else if self.negative {
            Sign::Negative
        } else {
            Sign::Positive
        }
    }

    /// Whether the integer is odd.
    pub fn is_odd(&self) -> (b: bool)
        ensures
            b == (self@ % 2 != 0),
    {
        if self.magnitude.len() == 0 {
            return false;
        }
        proof {
            lemma_value_low_limb(self.magnitude@);
        }
        self.magnitude[0] % 2 == 1
    }

    /// The negated integer.
    pub fn neg(&self) -> (r: BigInt)
        ensures
            r@ == -self@,
    {
        BigInt { negative: !self.negative, magnitude: copy_limbs(&self.magnitude) }
    }

    /// The absolute value.
    pub fn magnitude(&self) -> (r: BigInt)
        ensures
            r@ == abs(self@),
    {
        BigInt { negative: false, magnitude: copy_limbs(&self.magnitude) }
    }

    /// The sum.
    pub fn add(&self, other: &BigInt) -> (r: BigInt)
        ensures
            r@ == self@ + other@,
    {
        if self.negative == other.negative {
            BigInt::from_limbs(self.negative, nat_add(&self.magnitude, &other.magnitude))
        } else {
            match compare_limbs(&self.magnitude, &other.magnitude) {
                Sign::Negative => BigInt::from_limbs(
                    other.negative,
                    nat_sub(&other.magnitude, &self.magnitude),
                ),
                _ => BigInt::from_limbs(self.negative, nat_sub(&self.magnitude, &other.magnitude)),
            }
        }
    }

    /// The difference.
    pub fn sub(&self, other: &BigInt) -> (r: BigInt)
        ensures
            r@ == self@ - other@,
    {
        let minus: BigInt = other.neg();
        self.add(&minus)
    }

    /// The product.
    pub fn mul(&self, other: &BigInt) -> (r: BigInt)
        ensures
            r@ == self@ * other@,
    {
        let product: Vec<u32> = nat_mul(&self.magnitude, &other.magnitude);
        proof {
            let a = limbs_value(self.magnitude@) as int;
            let b = limbs_value(other.magnitude@) as int;
            assert((-a) * b == -(a * b) && a * (-b) == -(a * b) && (-a) * (-b) == a * b)
                by (nonlinear_arith);
        }
        BigInt::from_limbs(self.negative != other.negative, product)
    }

    /// Euclidean quotient and remainder: the remainder is never negative.
    /// There is none for a zero divisor.
    pub fn div_rem(&self, divisor: &BigInt) -> (r: Option<(BigInt, BigInt)>)
        ensures
            r is None <==> divisor@ == 0,
            r matches Some((q, m)) ==> q@ == self@ / divisor@ && m@ == self@ % divisor@,
    {
        if divisor.is_zero() {
            return None;
        }
        let (q0, r0) = nat_div_rem(&self.magnitude, &divisor.magnitude);
        let none: Vec<u32> = Vec::new();
        let exact: bool = match compare_limbs(&r0, &none) {
            Sign::Zero => true,
            _ => false,
        };
        let ghost a = limbs_value(self.magnitude@) as int;
        let ghost d = limbs_value(divisor.magnitude@) as int;
        let ghost qv = limbs_value(q0@) as int;
        let ghost rv = limbs_value(r0@) as int;
        proof {
            assert(a == qv * d + rv && 0 <= rv < d) by (nonlinear_arith)
                requires
                    d > 0,
                    qv == a / d,
                    rv == a % d,
            ;
        }
        let (qm, rm) = if !self.negative || exact {
            (q0, r0)
        } else {
            let unit: Vec<u32> = vec![1u32];
            proof {
                lemma_value_push(Seq::<u32>::empty(), 1u32);
                lemma_weight(0);
                assert(unit@ =~= Seq::<u32>::empty().push(1u32));
            }
            (nat_add(&q0, &unit), nat_sub(&divisor.magnitude, &r0))
        };
        proof {
            let x = self@;
            let qs = if self.negative { -(limbs_value(qm@) as int) } else { limbs_value(qm@) as int };
            let rs = limbs_value(rm@) as int;
            assert(x == qs * d + rs) by (nonlinear_arith)
                requires
                    a == qv * d + rv,
                    x == if self.negative { -a } else { a },
                    (!self.negative || rv == 0) ==> qs == (if self.negative { -qv } else { qv }) && rs == rv,
                    !(!self.negative || rv == 0) ==> qs == -(qv + 1) && rs == d - rv,
            ;
            lemma_fundamental_div_mod_converse(x, d, qs, rs);
            if divisor.negative {
                lemma_div_rem_negative_divisor(x, divisor@);
            }
        }
        Some((BigInt::from_limbs(self.negative != divisor.negative, qm), BigInt::from_limbs(false, rm)))
    }

    /// The residue modulo `modulus`, which is never negative. There is
    /// none for a zero modulus.
    pub fn modulo(&self, modulus: &BigInt) -> (r: Option<BigInt>)
        ensures
            r is None <==> modulus@ == 0,
            r matches Some(m) ==> m@ == self@ % modulus@ && 0 <= m@ < abs(modulus@),
    {
        match self.div_rem(modulus) {
            Some((_, m)) => {
                proof {
                    let x = self@;
                    let d = modulus@;
                    assert(0 <= x % d < abs(d)) by (nonlinear_arith)
                        requires
                            d != 0,
                    ;
                }
                Some(m)
            },
            None => None,
        }
    }

    /// Adds `other` to this integer in place: only `self` changes.
    pub fn add_assign(&mut self, other: &BigInt)
        ensures
            final(self)@ == old(self)@ + other@,
    {
        let sum: BigInt = self.add(other);
        self.negative = sum.negative;
        self.magnitude = sum.magnitude;
    }

    /// Compares two integers.
    pub fn compare(&self, other: &BigInt) -> (s: Sign)
        ensures
            s == sign_of(self@ - other@),
    {
        self.sub(other).signum()
    }

    /// Whether the two integers are equal.
    pub fn equals(&self, other: &BigInt) -> (b: bool)
        ensures
            b == (self@ == other@),
    {
        match self.compare(other) {
            Sign::Zero => true,
            _ => false,
        }
    }

    /// Whether this integer is below the other.
    pub fn less_than(&self, other: &BigInt) -> (b: bool)
        ensures
            b == (self@ < other@),
    {
        match self.compare(other) {
            Sign::Negative => true,
            _ => false,
        }
    }

    /// The number of 32-bit limbs of the absolute value.
    pub fn limb_count(&self) -> (n: usize)
        ensures
            n == limb_count(abs(self@)),
    {
        let n: usize = trimmed_len(&self.magnitude);
        proof {
            lemma_limb_count(self.magnitude@.take(n as int));
        }
        n
    }

    /// The bits of the absolute value, most significant first.
    pub fn magnitude_bits(&self) -> (bits: Vec<bool>)
        ensures
            bits_value(bits@) == abs(self@),
    {
        to_bits(&self.magnitude)
    }
}

} // verus!
