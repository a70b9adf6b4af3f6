//! Natural numbers held as little-endian vectors of 32-bit limbs.
//!
//! A vector may carry zero limbs at its high end; every operation accepts
//! such input and speaks only of the number the limbs stand for.

use vstd::prelude::*;
use vstd::arithmetic::power2::{pow2, lemma_pow2_adds, lemma_pow2_pos, lemma2_to64, lemma_pow2_strictly_increases, lemma_pow2_unfold};
use vstd::arithmetic::div_mod::lemma_fundamental_div_mod_converse;

verus! {

/// The radix of one limb.
pub open spec fn radix() -> nat {
    0x1_0000_0000
}

/// The weight of the limb at position `n`, that is `radix()` to the `n`.
pub open spec fn weight(n: nat) -> nat {
    pow2(32 * n)
}

/// The number that a little-endian limb sequence stands for.
pub open spec fn limbs_value(s: Seq<u32>) -> nat
    decreases s.len(),
{
    if s.len() == 0 {
        0
    } else {
        limbs_value(s.drop_last()) + (s.last() as nat) * weight((s.len() - 1) as nat)
    }
}

/// The limb at position `i`, reading zero beyond the end.
pub open spec fn limb_at(s: Seq<u32>, i: int) -> nat {
    if 0 <= i < s.len() {
        s[i] as nat
    } else {
        0
    }
}

/// The number formed by the limbs below position `i`.
pub open spec fn low_part(s: Seq<u32>, i: int) -> nat {
    limbs_value(s.take(if i <= s.len() { i } else { s.len() as int }))
}

/// The number that a most-significant-first bit sequence stands for.
pub open spec fn bits_value(s: Seq<bool>) -> nat
    decreases s.len(),
{
    if s.len() == 0 {
        0
    } else {
        2 * bits_value(s.drop_last()) + if s.last() { 1nat } else { 0nat }
    }
}

/// The weights are positive and grow by the radix from one position to
/// the next.
pub proof fn lemma_weight(n: nat)
    ensures
        weight(n + 1) == weight(n) * radix(),
        weight(n) > 0,
        weight(0) == 1,
        weight(1) == radix(),
{
    lemma_pow2_adds(32 * n, 32);
    lemma_pow2_adds(0, 32);
    lemma2_to64();
    lemma_pow2_pos(32 * n);
}

/// The weight of a higher position is not smaller.
pub proof fn lemma_weight_monotonic(m: nat, n: nat)
    requires
        m <= n,
    ensures
        weight(m) <= weight(n),
{
    if m < n {
        lemma_pow2_strictly_increases(32 * m, 32 * n);
    }
}

/// A limb added at the high end adds its value times the weight of its
/// position.
pub proof fn lemma_value_push(s: Seq<u32>, x: u32)
    ensures
        limbs_value(s.push(x)) == limbs_value(s) + (x as nat) * weight(s.len()),
{
    assert(s.push(x).drop_last() =~= s);
}

/// A number is below the weight of the position after its last limb.
pub proof fn lemma_value_bound(s: Seq<u32>)
    ensures
        limbs_value(s) < weight(s.len()),
    decreases s.len(),
{
    if s.len() == 0 {
        lemma_weight(0);
    } else {
        let n = (s.len() - 1) as nat;
        lemma_value_bound(s.drop_last());
        lemma_weight(n);
        let w = weight(n);
        let x = s.last() as nat;
        assert(x * w + w <= w * 0x1_0000_0000) by (nonlinear_arith)
            requires
                x <= 0xffff_ffff,
                w > 0,
        ;
    }
}

/// The value of a concatenation: the high part is scaled by the weight of
/// the low part's length.
pub proof fn lemma_value_concat(a: Seq<u32>, b: Seq<u32>)
    ensures
        limbs_value(a + b) == limbs_value(a) + weight(a.len()) * limbs_value(b),
    decreases b.len(),
{
    if b.len() == 0 {
        assert(a + b =~= a);
    } else {
        let n = (b.len() - 1) as nat;
        lemma_value_concat(a, b.drop_last());
        assert((a + b).drop_last() =~= a + b.drop_last());
        lemma_pow2_adds(32 * a.len(), 32 * n);
        let wa = weight(a.len());
        let wn = weight(n);
        let x = b.last() as nat;
        let v = limbs_value(b.drop_last());
        assert(wa * (v + x * wn) == wa * v + x * (wa * wn)) by (nonlinear_arith);
    }
}

/// A number is its low part plus its high part times the weight of the
/// position at which it is split.
pub proof fn lemma_value_split(s: Seq<u32>, i: int)
    requires
        0 <= i <= s.len(),
    ensures
        limbs_value(s) == limbs_value(s.take(i)) + weight(i as nat) * limbs_value(s.skip(i)),
{
    assert(s.take(i) + s.skip(i) =~= s);
    lemma_value_concat(s.take(i), s.skip(i));
}

/// Unfolding at the low end.
pub proof fn lemma_value_low_limb(s: Seq<u32>)
    requires
        s.len() > 0,
    ensures
        limbs_value(s) == (s[0] as nat) + radix() * limbs_value(s.drop_first()),
{
    lemma_value_split(s, 1);
    lemma_weight(0);
    assert(s.take(1) =~= Seq::<u32>::empty().push(s[0]));
    lemma_value_push(Seq::<u32>::empty(), s[0]);
    assert(s.skip(1) =~= s.drop_first());
    let x = s[0] as nat;
    let w0 = weight(0);
    let w1 = weight(1);
    let v = limbs_value(s.drop_first());
    assert(x * w0 == x && w1 * v == 0x1_0000_0000 * v) by (nonlinear_arith)
        requires
            w0 == 1,
            w1 == 0x1_0000_0000,
    ;
}

/// The low part grows by one limb at a time, and is the whole number once
/// it has passed the last limb.
pub proof fn lemma_low_part_step(s: Seq<u32>, i: int)
    requires
        0 <= i,
    ensures
        low_part(s, i + 1) == low_part(s, i) + limb_at(s, i) * weight(i as nat),
        i >= s.len() ==> low_part(s, i) == limbs_value(s),
        low_part(s, 0) == 0,
{
    if i < s.len() {
        assert(s.take(i + 1).drop_last() =~= s.take(i));
    } else {
        assert(s.take(s.len() as int) =~= s);
    }
}

/// A zero limb at the high end does not change the value.
pub proof fn lemma_value_drop_zero(s: Seq<u32>)
    requires
        s.len() > 0,
        s.last() == 0,
    ensures
        limbs_value(s) == limbs_value(s.drop_last()),
{
    let w = weight((s.len() - 1) as nat);
    let x = s.last() as nat;
    assert(x * w == 0) by (nonlinear_arith)
        requires
            x == 0,
    ;
}

/// A sequence of zero limbs stands for zero.
pub proof fn lemma_value_zeros(s: Seq<u32>)
    requires
        forall|i: int| 0 <= i < s.len() ==> s[i] == 0,
    ensures
        limbs_value(s) == 0,
    decreases s.len(),
{
    if s.len() > 0 {
        lemma_value_zeros(s.drop_last());
        lemma_value_drop_zero(s);
    }
}

/// The number of limbs that remain once zero limbs at the high end are set
/// aside.
pub fn trimmed_len(a: &Vec<u32>) -> (n: usize)
    ensures
        n <= a.len(),
        limbs_value(a@.take(n as int)) == limbs_value(a@),
        n > 0 ==> a[n - 1] != 0,
        forall|k: int| n <= k < a.len() ==> a[k] == 0,
{
    let mut n: usize = a.len();
    assert(a@.take(n as int) =~= a@);
    while n > 0 && a[n - 1] == 0
        invariant
            n <= a.len(),
            limbs_value(a@.take(n as int)) == limbs_value(a@),
            forall|k: int| n <= k < a.len() ==> a[k] == 0,
        decreases n,
    {
        proof {
            assert(a@.take(n as int).drop_last() =~= a@.take(n - 1));
            lemma_value_drop_zero(a@.take(n as int));
        }
        n = n - 1;
    }
    n
}


/// The sign of an integer, or of a difference when two numbers are compared.
#[derive(Clone, Copy, PartialEq, Eq, Structural, Debug)]
pub enum Sign {
    Negative,
    Zero,
    Positive,
}

/// The sign of an integer.
pub open spec fn sign_of(x: int) -> Sign {
    if x < 0 {
        Sign::Negative
    } else if x == 0 {
        Sign::Zero
    } else {
        Sign::Positive
    }
}

/// A nonzero limb at the high end bounds the value from below.
pub proof fn lemma_value_top(s: Seq<u32>)
    requires
        s.len() > 0,
        s.last() != 0,
    ensures
        limbs_value(s) >= weight((s.len() - 1) as nat),
{
    let w = weight((s.len() - 1) as nat);
    let x = s.last() as nat;
    assert(x * w >= w) by (nonlinear_arith)
        requires
            x >= 1,
    ;
}

/// Two sequences of one length that agree above position `j` compare as
/// their limbs at `j` do.
pub proof fn lemma_value_differs_at(a: Seq<u32>, b: Seq<u32>, j: int)
    requires
        a.len() == b.len(),
        0 <= j < a.len(),
        forall|k: int| j < k < a.len() ==> a[k] == b[k],
        a[j] > b[j],
    ensures
        limbs_value(a) > limbs_value(b),
{
    lemma_value_split(a, j);
    lemma_value_split(b, j);
    lemma_value_low_limb(a.skip(j));
    lemma_value_low_limb(b.skip(j));
    assert(a.skip(j).drop_first() =~= b.skip(j).drop_first());
    lemma_value_bound(b.take(j));
    lemma_weight(j as nat);
    let w = weight(j as nat);
    let v = limbs_value(a.skip(j).drop_first());
    let x = a[j] as nat;
    let y = b[j] as nat;
    assert(w * (x + 0x1_0000_0000 * v) >= w * (y + 0x1_0000_0000 * v) + w) by (nonlinear_arith)
        requires
            x >= y + 1,
            w > 0,
    ;
}

/// Compares two numbers.
pub fn compare_limbs(a: &Vec<u32>, b: &Vec<u32>) -> (s: Sign)
    ensures
        s == sign_of(limbs_value(a@) - limbs_value(b@)),
{
    let na: usize = trimmed_len(a);
    let nb: usize = trimmed_len(b);
    if na > nb {
        proof {
            lemma_value_top(a@.take(na as int));
            lemma_value_bound(b@.take(nb as int));
            lemma_weight_monotonic(nb as nat, (na - 1) as nat);
        }
        return Sign::Positive;
    }
    if na < nb {
        proof {
            lemma_value_top(b@.take(nb as int));
            lemma_value_bound(a@.take(na as int));
            lemma_weight_monotonic(na as nat, (nb - 1) as nat);
        }
        return Sign::Negative;
    }
    let mut i: usize = na;
    while i > 0
        invariant
            i <= na,
            na == nb,
            na <= a.len(),
            nb <= b.len(),
            limbs_value(a@.take(na as int)) == limbs_value(a@),
            limbs_value(b@.take(nb as int)) == limbs_value(b@),
            forall|k: int| i <= k < na ==> a[k] == b[k],
        decreases i,
    {
        i = i - 1;
        if a[i] > b[i] {
            proof {
                lemma_value_differs_at(a@.take(na as int), b@.take(nb as int), i as int);
            }
            return Sign::Positive;
        }
        if a[i] < b[i] {
            proof {
                lemma_value_differs_at(b@.take(nb as int), a@.take(na as int), i as int);
            }
            return Sign::Negative;
        }
    }
    proof {
        assert(a@.take(na as int) =~= b@.take(nb as int));
    }
    Sign::Zero
}

/// The sum of two numbers.
pub fn nat_add(a: &Vec<u32>, b: &Vec<u32>) -> (r: Vec<u32>)
    ensures
        limbs_value(r@) == limbs_value(a@) + limbs_value(b@),
{
    let n: usize = if a.len() > b.len() { a.len() } else { b.len() };
    let mut r: Vec<u32> = Vec::new();
    let mut carry: u64 = 0;
    let mut i: usize = 0;
    proof {
        lemma_low_part_step(a@, 0);
        lemma_low_part_step(b@, 0);
        let w = weight(0);
        assert(0 * w == 0) by (nonlinear_arith);
    }
    while i < n
        invariant
            i <= n,
            n >= a.len(),
            n >= b.len(),
            carry <= 1,
            r.len() == i,
            limbs_value(r@) + carry * weight(i as nat) == low_part(a@, i as int) + low_part(
                b@,
                i as int,
            ),
        decreases n - i,
    {
        let x: u64 = if i < a.len() { a[i] as u64 } else { 0 };
        let y: u64 = if i < b.len() { b[i] as u64 } else { 0 };
        let t: u64 = x + y + carry;
        let lo: u32 = (t % 0x1_0000_0000) as u32;
        let hi: u64 = t / 0x1_0000_0000;
        proof {
            lemma_low_part_step(a@, i as int);
            lemma_low_part_step(b@, i as int);
            lemma_value_push(r@, lo);
            lemma_weight(i as nat);
            let w = weight(i as nat);
            let w1 = weight((i + 1) as nat);
            assert(lo * w + hi * w1 == x * w + y * w + carry * w) by (nonlinear_arith)
                requires
                    w1 == w * 0x1_0000_0000,
                    lo + hi * 0x1_0000_0000 == x + y + carry,
            ;
        }
        r.push(lo);
        carry = hi;
        i = i + 1;
    }
    proof {
        lemma_low_part_step(a@, n as int);
        lemma_low_part_step(b@, n as int);
        lemma_value_push(r@, carry as u32);
    }
    if carry != 0 {
        r.push(carry as u32);
    } else {
        proof {
            let w = weight(n as nat);
            assert(carry * w == 0) by (nonlinear_arith)
                requires
                    carry == 0,
            ;
        }
    }
    r
}

/// The difference of two numbers, the first being at least the second.
pub fn nat_sub(a: &Vec<u32>, b: &Vec<u32>) -> (r: Vec<u32>)
    requires
        limbs_value(a@) >= limbs_value(b@),
    ensures
        limbs_value(r@) == limbs_value(a@) - limbs_value(b@),
{
    let n: usize = if a.len() > b.len() { a.len() } else { b.len() };
    let mut r: Vec<u32> = Vec::new();
    let mut borrow: u64 = 0;
    let mut i: usize = 0;
    proof {
        lemma_low_part_step(a@, 0);
        lemma_low_part_step(b@, 0);
        let w = weight(0);
        assert(0 * w == 0) by (nonlinear_arith);
    }
    while i < n
        invariant
            i <= n,
            n >= a.len(),
            n >= b.len(),
            borrow <= 1,
            r.len() == i,
            limbs_value(r@) + low_part(b@, i as int) == low_part(a@, i as int) + borrow * weight(
                i as nat,
            ),
        decreases n - i,
    {
        let x: u64 = if i < a.len() { a[i] as u64 } else { 0 };
        let y: u64 = if i < b.len() { b[i] as u64 } else { 0 };
        let taken: u64 = y + borrow;
        let next: u64 = if x >= taken { 0 } else { 1 };
        let lo: u32 = if x >= taken { (x - taken) as u32 } else { (x + 0x1_0000_0000 - taken) as u32 };
        proof {
            lemma_low_part_step(a@, i as int);
            lemma_low_part_step(b@, i as int);
            lemma_value_push(r@, lo);
            lemma_weight(i as nat);
            let w = weight(i as nat);
            let w1 = weight((i + 1) as nat);
            assert(lo * w + y * w + borrow * w == x * w + next * w1) by (nonlinear_arith)
                requires
                    w1 == w * 0x1_0000_0000,
                    lo + y + borrow == x + next * 0x1_0000_0000,
            ;
        }
        r.push(lo);
        borrow = next;
        i = i + 1;
    }
    proof {
        lemma_low_part_step(a@, n as int);
        lemma_low_part_step(b@, n as int);
        lemma_value_bound(r@);
        let w = weight(n as nat);
        assert(borrow == 0 ==> borrow * w == 0) by (nonlinear_arith);
        assert(borrow == 1 ==> borrow * w == w) by (nonlinear_arith);
    }
    r
}

/// The number `a * m + c` for a one-limb factor and a one-limb addend.
pub fn nat_mul_small_add(a: &Vec<u32>, m: u32, c: u32) -> (r: Vec<u32>)
    ensures
        limbs_value(r@) == limbs_value(a@) * m + c,
{
    let mut r: Vec<u32> = Vec::new();
    let mut carry: u64 = c as u64;
    let mut i: usize = 0;
    proof {
        lemma_low_part_step(a@, 0);
        lemma_weight(0);
        let w = weight(0);
        let z = low_part(a@, 0);
        assert(carry * w == carry && z * m == 0) by (nonlinear_arith)
            requires
                w == 1,
                z == 0,
        ;
    }
    while i < a.len()
        invariant
            i <= a.len(),
            carry < 0x1_0000_0000,
            r.len() == i,
            limbs_value(r@) + carry * weight(i as nat) == low_part(a@, i as int) * m + c,
        decreases a.len() - i,
    {
        let x: u64 = a[i] as u64;
        let f: u64 = m as u64;
        assert(x * f + carry <= 0xffff_ffff_0000_0000) by (nonlinear_arith)
            requires
                x <= 0xffff_ffff,
                f <= 0xffff_ffff,
                carry <= 0xffff_ffff,
        ;
        let t: u64 = x * f + carry;
        let lo: u32 = (t % 0x1_0000_0000) as u32;
        let hi: u64 = t / 0x1_0000_0000;
        proof {
            lemma_low_part_step(a@, i as int);
            lemma_value_push(r@, lo);
            lemma_weight(i as nat);
            let w = weight(i as nat);
            let w1 = weight((i + 1) as nat);
            let z = low_part(a@, i as int);
            assert(lo * w + hi * w1 + z * m == carry * w + (z + x * w) * m) by (nonlinear_arith)
                requires
                    w1 == w * 0x1_0000_0000,
                    lo + hi * 0x1_0000_0000 == x * f + carry,
                    f == m,
            ;
        }
        r.push(lo);
        carry = hi;
        i = i + 1;
    }
    proof {
        lemma_low_part_step(a@, a.len() as int);
        lemma_value_push(r@, carry as u32);
    }
    if carry != 0 {
        r.push(carry as u32);
    } else {
        proof {
            let w = weight(a.len() as nat);
            assert(carry * w == 0) by (nonlinear_arith)
                requires
                    carry == 0,
            ;
        }
    }
    r
}

/// The number `a` moved up by `k` limbs.
pub fn shift_limbs(a: &Vec<u32>, k: usize) -> (r: Vec<u32>)
    ensures
        limbs_value(r@) == limbs_value(a@) * weight(k as nat),
{
    let mut r: Vec<u32> = Vec::new();
    let mut j: usize = 0;
    while j < k
        invariant
            j <= k,
            r.len() == j,
            forall|t: int| 0 <= t < r.len() ==> r[t] == 0,
        decreases k - j,
    {
        r.push(0);
        j = j + 1;
    }
    let ghost zeros = r@;
    let mut i: usize = 0;
    while i < a.len()
        invariant
            i <= a.len(),
            r@ =~= zeros + a@.take(i as int),
        decreases a.len() - i,
    {
        r.push(a[i]);
        i = i + 1;
    }
    proof {
        assert(a@.take(a.len() as int) =~= a@);
        lemma_value_concat(zeros, a@);
        lemma_value_zeros(zeros);
        let w = weight(k as nat);
        let v = limbs_value(a@);
        assert(w * v == v * w) by (nonlinear_arith);
    }
    r
}

/// The product of two numbers.
pub fn nat_mul(a: &Vec<u32>, b: &Vec<u32>) -> (r: Vec<u32>)
    ensures
        limbs_value(r@) == limbs_value(a@) * limbs_value(b@),
{
    let mut acc: Vec<u32> = Vec::new();
    let mut j: usize = 0;
    proof {
        lemma_low_part_step(b@, 0);
        let v = limbs_value(a@);
        let z = low_part(b@, 0);
        assert(v * z == 0) by (nonlinear_arith)
            requires
                z == 0,
        ;
    }
    while j < b.len()
        invariant
            j <= b.len(),
            limbs_value(acc@) == limbs_value(a@) * low_part(b@, j as int),
        decreases b.len() - j,
    {
        let partial: Vec<u32> = nat_mul_small_add(a, b[j], 0);
        let shifted: Vec<u32> = shift_limbs(&partial, j);
        proof {
            lemma_low_part_step(b@, j as int);
            let v = limbs_value(a@);
            let z = low_part(b@, j as int);
            let w = weight(j as nat);
            let x = b[j as int];
            assert(v * z + (v * x + 0) * w == v * (z + x * w)) by (nonlinear_arith);
        }
        acc = nat_add(&acc, &shifted);
        j = j + 1;
    }
    proof {
        lemma_low_part_step(b@, b.len() as int);
    }
    acc
}


/// A bit added at the low end doubles the number and adds the bit.
pub proof fn lemma_bits_push(s: Seq<bool>, b: bool)
    ensures
        bits_value(s.push(b)) == 2 * bits_value(s) + if b { 1nat } else { 0nat },
{
    assert(s.push(b).drop_last() =~= s);
}

/// The number of the leading `i + 1` bits is twice the number of the
/// leading `i` bits, plus the next bit.
pub proof fn lemma_bits_take_step(s: Seq<bool>, i: int)
    requires
        0 <= i < s.len(),
    ensures
        bits_value(s.take(i + 1)) == 2 * bits_value(s.take(i)) + if s[i] { 1nat } else { 0nat },
{
    assert(s.take(i + 1).drop_last() =~= s.take(i));
}

/// The bits of a number, most significant first.
pub fn to_bits(a: &Vec<u32>) -> (bits: Vec<bool>)
    ensures
        bits_value(bits@) == limbs_value(a@),
{
    let n: usize = trimmed_len(a);
    let mut bits: Vec<bool> = Vec::new();
    let mut k: usize = n;
    proof {
        assert(a@.subrange(n as int, n as int) =~= Seq::<u32>::empty());
    }
    while k > 0
        invariant
            k <= n,
            n <= a.len(),
            bits_value(bits@) == limbs_value(a@.subrange(k as int, n as int)),
        decreases k,
    {
        k = k - 1;
        let w: u64 = a[k] as u64;
        let mut j: u64 = 32;
        let ghost high = limbs_value(a@.subrange(k + 1, n as int));
        let ghost mut scale: nat = 1;
        proof {
            lemma2_to64();
            assert(w >> 32 == 0) by (bit_vector)
                requires
                    w < 0x1_0000_0000,
            ;
            assert(high * scale == high) by (nonlinear_arith)
                requires
                    scale == 1,
            ;
        }
        while j > 0
            invariant
                j <= 32,
                w < 0x1_0000_0000,
                scale == pow2((32 - j) as nat),
                bits_value(bits@) == high * scale + (w >> j),
            decreases j,
        {
            let ghost above = w >> j;
            j = j - 1;
            let bit: bool = (w >> j) & 1 == 1;
            proof {
                assert(w >> j == 2 * (w >> ((j + 1) as u64)) + ((w >> j) & 1) && ((w >> j) & 1) <= 1)
                    by (bit_vector)
                    requires
                        j < 32,
                        w < 0x1_0000_0000,
                ;
                lemma_bits_push(bits@, bit);
                lemma_pow2_unfold((32 - j) as nat);
                assert(high * (2 * scale) == 2 * (high * scale)) by (nonlinear_arith);
                scale = 2 * scale;
            }
            bits.push(bit);
        }
        proof {
            let s = a@.subrange(k as int, n as int);
            lemma_value_low_limb(s);
            assert(s.drop_first() =~= a@.subrange(k + 1, n as int));
            lemma2_to64();
            assert(w >> 0 == w) by (bit_vector);
            assert(high * scale == 0x1_0000_0000 * high) by (nonlinear_arith)
                requires
                    scale == 0x1_0000_0000,
            ;
        }
    }
    proof {
        assert(a@.subrange(0, n as int) =~= a@.take(n as int));
    }
    bits
}

/// Quotient and remainder of a division by a nonzero number.
pub fn nat_div_rem(a: &Vec<u32>, b: &Vec<u32>) -> (qr: (Vec<u32>, Vec<u32>))
    requires
        limbs_value(b@) > 0,
    ensures
        limbs_value(qr.0@) == limbs_value(a@) / limbs_value(b@),
        limbs_value(qr.1@) == limbs_value(a@) % limbs_value(b@),
{
    let bits: Vec<bool> = to_bits(a);
    let mut q: Vec<u32> = Vec::new();
    let mut r: Vec<u32> = Vec::new();
    let mut i: usize = 0;
    proof {
        assert(bits@.take(0) =~= Seq::<bool>::empty());
        let d = limbs_value(b@);
        assert(0 * d == 0) by (nonlinear_arith);
    }
    while i < bits.len()
        invariant
            i <= bits.len(),
            limbs_value(b@) > 0,
            limbs_value(r@) < limbs_value(b@),
            bits_value(bits@.take(i as int)) == limbs_value(q@) * limbs_value(b@) + limbs_value(r@),
        decreases bits.len() - i,
    {
        let bit: u32 = if bits[i] { 1 } else { 0 };
        let doubled: Vec<u32> = nat_mul_small_add(&r, 2, bit);
        let fits: bool = match compare_limbs(&doubled, b) {
            Sign::Negative => false,
            _ => true,
        };
        let digit: u32 = if fits { 1 } else { 0 };
        proof {
            lemma_bits_take_step(bits@, i as int);
            let d = limbs_value(b@);
            let qv = limbs_value(q@);
            assert((qv * 2 + digit) * d == 2 * (qv * d) + digit * d) by (nonlinear_arith);
            assert(digit * d == if fits { d } else { 0 }) by (nonlinear_arith)
                requires
                    digit == if fits { 1int } else { 0int },
            ;
        }
        if fits {
            r = nat_sub(&doubled, b);
        } else {
            r = doubled;
        }
        q = nat_mul_small_add(&q, 2, digit);
        i = i + 1;
    }
    proof {
        assert(bits@.take(bits.len() as int) =~= bits@);
        lemma_fundamental_div_mod_converse(
            limbs_value(a@) as int,
            limbs_value(b@) as int,
            limbs_value(q@) as int,
            limbs_value(r@) as int,
        );
    }
    (q, r)
}

/// The same number without zero limbs at the high end.
pub fn trim(a: Vec<u32>) -> (r: Vec<u32>)
    ensures
        limbs_value(r@) == limbs_value(a@),
        r.len() > 0 ==> r[r.len() - 1] != 0,
{
    let n: usize = trimmed_len(&a);
    let mut r: Vec<u32> = a;
    r.truncate(n);
    r
}

} // verus!
