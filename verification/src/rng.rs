//! A randomness source that is a function of its seed: a keyed block
//! generator in counter mode, and the sampling of integers below a bound.

use vstd::prelude::*;
use crate::bigint::{BigInt, abs, limb_count};
use crate::error::Error;
use crate::natural::{limbs_value, weight, lemma_weight};

verus! {

/// Addition modulo 2^32.
pub open spec fn add32(x: u32, y: u32) -> u32 {
    ((x + y) % 0x1_0000_0000) as u32
}

/// Rotation to the left by `n` bits, for `0 < n < 32`.
pub open spec fn rotl32(x: u32, n: u32) -> u32 {
    (x << n) | (x >> ((32 - n) as u32))
}

/// One quarter round on the words at positions `a`, `b`, `c`, `d`.
pub open spec fn quarter_spec(s: Seq<u32>, a: int, b: int, c: int, d: int) -> Seq<u32> {
    let s1 = s.update(a, add32(s[a], s[b]));
    let s2 = s1.update(d, rotl32(s1[d] ^ s1[a], 16));
    let s3 = s2.update(c, add32(s2[c], s2[d]));
    let s4 = s3.update(b, rotl32(s3[b] ^ s3[c], 12));
    let s5 = s4.update(a, add32(s4[a], s4[b]));
    let s6 = s5.update(d, rotl32(s5[d] ^ s5[a], 8));
    let s7 = s6.update(c, add32(s6[c], s6[d]));
    s7.update(b, rotl32(s7[b] ^ s7[c], 7))
}

/// A column round followed by a diagonal round.
pub open spec fn double_round_spec(s: Seq<u32>) -> Seq<u32> {
    let c1 = quarter_spec(s, 0, 4, 8, 12);
    let c2 = quarter_spec(c1, 1, 5, 9, 13);
    let c3 = quarter_spec(c2, 2, 6, 10, 14);
    let c4 = quarter_spec(c3, 3, 7, 11, 15);
    let d1 = quarter_spec(c4, 0, 5, 10, 15);
    let d2 = quarter_spec(d1, 1, 6, 11, 12);
    let d3 = quarter_spec(d2, 2, 7, 8, 13);
    quarter_spec(d3, 3, 4, 9, 14)
}

/// `n` double rounds.
pub open spec fn rounds_spec(s: Seq<u32>, n: nat) -> Seq<u32>
    decreases n,
{
    if n == 0 {
        s
    } else {
        double_round_spec(rounds_spec(s, (n - 1) as nat))
    }
}

/// The sixteen input words of a block: four constants, the eight key words,
/// the block counter in two words, and two zero words.
pub open spec fn block_input(key: Seq<u32>, counter: u64) -> Seq<u32> {
    seq![0x6170_7865u32, 0x3320_646eu32, 0x7962_2d32u32, 0x6b20_6574u32]
        + key.take(8)
        + seq![(counter % 0x1_0000_0000) as u32, (counter / 0x1_0000_0000) as u32, 0u32, 0u32]
}

/// The sixteen output words of the block with the given counter: ten double
/// rounds on the input, then the input added word by word.
pub open spec fn block_spec(key: Seq<u32>, counter: u64) -> Seq<u32> {
    let input = block_input(key, counter);
    let mixed = rounds_spec(input, 10);
    Seq::new(16, |i: int| add32(mixed[i], input[i]))
}

/// The output words of `count` blocks in a row, starting at `counter`.
pub open spec fn stream_spec(key: Seq<u32>, counter: int, count: nat) -> Seq<u32>
    decreases count,
{
    if count == 0 {
        Seq::empty()
    } else {
        stream_spec(key, counter, (count - 1) as nat) + block_spec(
            key,
            (counter + count - 1) as u64,
        )
    }
}

/// The eight key words of a 32-byte seed, each from four bytes, low byte
/// first.
pub open spec fn key_spec(seed: Seq<u8>) -> Seq<u32> {
    Seq::new(
        8,
        |i: int|
            (seed[4 * i] + 0x100 * seed[4 * i + 1] + 0x1_0000 * seed[4 * i + 2] + 0x100_0000
                * seed[4 * i + 3]) as u32,
    )
}

/// The state of a randomness source: its key and the counter of the next
/// block.
pub struct SourceModel {
    pub key: Seq<u32>,
    pub counter: int,
}

/// The most limbs that a sampling bound may have.
pub open spec fn limb_limit() -> nat {
    0x0fff_ffff
}

/// The words drawn for a sample below `bound`: as many as the bound has
/// limbs, and four more, so that the residue is within 2^-128 of uniform.
pub open spec fn words_needed(bound: int) -> nat {
    limb_count(abs(bound)) + 4
}

/// The blocks drawn for a sample below `bound`.
pub open spec fn blocks_needed(bound: int) -> nat {
    (words_needed(bound) + 15) / 16
}

/// Whether the source cannot serve a sample below `bound`: the bound is
/// beyond the limb limit, or the block counter would pass its last value.
pub open spec fn exhausts(m: SourceModel, bound: int) -> bool {
    limb_count(abs(bound)) > limb_limit() || m.counter + blocks_needed(bound) > u64::MAX
}

/// The sample below a positive `bound` from a source in state `m`.
pub open spec fn sample_spec(m: SourceModel, bound: int) -> int {
    let drawn = stream_spec(m.key, m.counter, blocks_needed(bound)).take(words_needed(bound) as int);
    (limbs_value(drawn) as int) % bound
}

/// The state of the source after a sample below `bound`.
pub open spec fn advance_spec(m: SourceModel, bound: int) -> SourceModel {
    SourceModel { key: m.key, counter: m.counter + blocks_needed(bound) }
}

/// The words drawn for a sample stand for a number below a range that is
/// at least 2^128 times the bound: taken modulo the bound, no residue is
/// met by more than one part in 2^128 more draws than another.
pub proof fn law_sample_range(bound: int)
    requires
        bound > 0,
    ensures
        weight(words_needed(bound)) >= bound * 0x1_0000_0000_0000_0000_0000_0000_0000_0000,
{
    let n = limb_count(abs(bound));
    lemma_limb_count_bound(abs(bound));
    lemma_weight(n);
    lemma_weight(n + 1);
    lemma_weight(n + 2);
    lemma_weight(n + 3);
    let (w0, w4) = (weight(n), weight(n + 4));
    assert(w4 == w0 * 0x1_0000_0000_0000_0000_0000_0000_0000_0000) by (nonlinear_arith)
        requires
            weight(n + 1) == w0 * 0x1_0000_0000,
            weight(n + 2) == weight(n + 1) * 0x1_0000_0000,
            weight(n + 3) == weight(n + 2) * 0x1_0000_0000,
            w4 == weight(n + 3) * 0x1_0000_0000,
    ;
    assert(w0 * 0x1_0000_0000_0000_0000_0000_0000_0000_0000 >= bound
        * 0x1_0000_0000_0000_0000_0000_0000_0000_0000) by (nonlinear_arith)
        requires
            w0 > bound,
    ;
}

/// A natural number is below the weight of its number of limbs.
proof fn lemma_limb_count_bound(x: nat)
    ensures
        x < weight(limb_count(x)),
    decreases x,
{
    if x == 0 {
        lemma_weight(0);
    } else {
        let q = x / 0x1_0000_0000;
        lemma_limb_count_bound(q);
        lemma_weight(limb_count(q));
        let w = weight(limb_count(q));
        assert(x < w * 0x1_0000_0000) by (nonlinear_arith)
            requires
                q == x / 0x1_0000_0000,
                q < w,
        ;
    }
}

fn plus32(x: u32, y: u32) -> (r: u32)
    ensures
        r == add32(x, y),
{
    ((x as u64 + y as u64) % 0x1_0000_0000) as u32
}

fn rotate(x: u32, n: u32) -> (r: u32)
    requires
        0 < n < 32,
    ensures
        r == rotl32(x, n),
{
    (x << n) | (x >> (32 - n))
}

fn quarter(s: &mut Vec<u32>, a: usize, b: usize, c: usize, d: usize)
    requires
        old(s).len() == 16,
        a < 16,
        b < 16,
        c < 16,
        d < 16,
    ensures
        final(s)@ == quarter_spec(old(s)@, a as int, b as int, c as int, d as int),
{
    let v: u32 = plus32(s[a], s[b]);
    s.set(a, v);
    let v: u32 = rotate(s[d] ^ s[a], 16);
    s.set(d, v);
    let v: u32 = plus32(s[c], s[d]);
    s.set(c, v);
    let v: u32 = rotate(s[b] ^ s[c], 12);
    s.set(b, v);
    let v: u32 = plus32(s[a], s[b]);
    s.set(a, v);
    let v: u32 = rotate(s[d] ^ s[a], 8);
    s.set(d, v);
    let v: u32 = plus32(s[c], s[d]);
    s.set(c, v);
    let v: u32 = rotate(s[b] ^ s[c], 7);
    s.set(b, v);
}

fn double_round(s: &mut Vec<u32>)
    requires
        old(s).len() == 16,
    ensures
        final(s)@ == double_round_spec(old(s)@),
{
    quarter(s, 0, 4, 8, 12);
    quarter(s, 1, 5, 9, 13);
    quarter(s, 2, 6, 10, 14);
    quarter(s, 3, 7, 11, 15);
    quarter(s, 0, 5, 10, 15);
    quarter(s, 1, 6, 11, 12);
    quarter(s, 2, 7, 8, 13);
    quarter(s, 3, 4, 9, 14);
}

fn block(key: &Vec<u32>, counter: u64) -> (r: Vec<u32>)
    requires
        key.len() == 8,
    ensures
        r@ == block_spec(key@, counter),
{
    let mut input: Vec<u32> = Vec::new();
    input.push(0x6170_7865);
    input.push(0x3320_646e);
    input.push(0x7962_2d32);
    input.push(0x6b20_6574);
    let mut i: usize = 0;
    while i < 8
        invariant
            i <= 8,
            key.len() == 8,
            input@ =~= seq![0x6170_7865u32, 0x3320_646eu32, 0x7962_2d32u32, 0x6b20_6574u32]
                + key@.take(i as int),
        decreases 8 - i,
    {
        input.push(key[i]);
        i = i + 1;
    }
    input.push((counter % 0x1_0000_0000) as u32);
    input.push((counter / 0x1_0000_0000) as u32);
    input.push(0);
    input.push(0);
    assert(input@ =~= block_input(key@, counter));
    let mut state: Vec<u32> = Vec::new();
    let mut i: usize = 0;
    while i < 16
        invariant
            i <= 16,
            input.len() == 16,
            state@ =~= input@.take(i as int),
        decreases 16 - i,
    {
        state.push(input[i]);
        i = i + 1;
    }
    assert(state@ =~= input@);
    let mut n: usize = 0;
    while n < 10
        invariant
            n <= 10,
            state.len() == 16,
            input.len() == 16,
            state@ == rounds_spec(input@, n as nat),
        decreases 10 - n,
    {
        double_round(&mut state);
        n = n + 1;
    }
    let mut out: Vec<u32> = Vec::new();
    let mut i: usize = 0;
    while i < 16
        invariant
            i <= 16,
            state.len() == 16,
            input.len() == 16,
            out.len() == i,
            forall|k: int| 0 <= k < i ==> out[k] == add32(state[k], input[k]),
        decreases 16 - i,
    {
        out.push(plus32(state[i], input[i]));
        i = i + 1;
    }
    assert(out@ =~= block_spec(key@, counter));
    out
}

/// A deterministic randomness source. Two sources made from one seed give
/// the same samples in the same order.
#[derive(Debug)]
pub struct RandomnessSource {
    key: Vec<u32>,
    counter: u64,
}

impl View for RandomnessSource {
    type V = SourceModel;

    closed spec fn view(&self) -> SourceModel {
        SourceModel { key: self.key@, counter: self.counter as int }
    }
}

impl RandomnessSource {
    #[verifier::type_invariant]
    spec fn keyed(self) -> bool {
        self.key.len() == 8
    }

    /// A source from 32 bytes of seed, at the start of its output.
    pub fn from_seed(seed: [u8; 32]) -> (r: RandomnessSource)
        ensures
            r@ == (SourceModel { key: key_spec(seed@), counter: 0 }),
    {
        RandomnessSource::from_seed_at(seed, 0)
    }

    /// A source from 32 bytes of seed, placed before the block with the
    /// given counter: what a source from this seed is after it has used
    /// that many blocks.
    pub fn from_seed_at(seed: [u8; 32], counter: u64) -> (r: RandomnessSource)
        ensures
            r@ == (SourceModel { key: key_spec(seed@), counter: counter as int }),
    {
        let mut key: Vec<u32> = Vec::new();
        let mut i: usize = 0;
        while i < 8
            invariant
                i <= 8,
                key.len() == i,
                forall|k: int| 0 <= k < i ==> key[k] == key_spec(seed@)[k],
            decreases 8 - i,
        {
            let w: u32 = seed[4 * i] as u32 + 0x100 * (seed[4 * i + 1] as u32) + 0x1_0000 * (seed[4
                * i + 2] as u32) + 0x100_0000 * (seed[4 * i + 3] as u32);
            key.push(w);
            i = i + 1;
        }
        assert(key@ =~= key_spec(seed@));
        RandomnessSource { key, counter }
    }

    /// The counter of the next block.
    pub fn counter(&self) -> (r: u64)
        ensures
            r == self@.counter,
    {
        self.counter
    }

    /// An integer in `[0, bound)`: a function of the state of the source and
    /// of the bound, which moves the source past the blocks it used. A
    /// bound that is not positive is refused, and so is a sample that the
    /// source has no fresh output for; either way the source stays as it
    /// was.
    pub fn sample_uniform(&mut self, bound: &BigInt) -> (r: Result<BigInt, Error>)
        ensures
            bound@ <= 0 ==> r == Err::<BigInt, Error>(Error::InvalidBound) && final(self)@ == old(
                self,
            )@,
            bound@ > 0 && exhausts(old(self)@, bound@) ==> r == Err::<BigInt, Error>(
                Error::RandomnessExhausted,
            ) && final(self)@ == old(self)@,
            bound@ > 0 && !exhausts(old(self)@, bound@) ==> r is Ok && r->Ok_0@ == sample_spec(
                old(self)@,
                bound@,
            ) && 0 <= r->Ok_0@ < bound@ && final(self)@ == advance_spec(old(self)@, bound@),
    {
        proof {
            use_type_invariant(&*self);
        }
        if bound.is_negative() || bound.is_zero() {
            return Err(Error::InvalidBound);
        }
        let limbs: usize = bound.limb_count();
        if limbs > 0x0fff_ffff {
            return Err(Error::RandomnessExhausted);
        }
        let words: usize = limbs + 4;
        let blocks: u64 = ((words + 15) / 16) as u64;
        if blocks > u64::MAX - self.counter {
            return Err(Error::RandomnessExhausted);
        }
        let mut drawn: Vec<u32> = Vec::new();
        let mut t: u64 = 0;
        while t < blocks
            invariant
                t <= blocks,
                self.key.len() == 8,
                self.counter + blocks <= u64::MAX,
                drawn@ == stream_spec(self.key@, self.counter as int, t as nat),
                drawn.len() == 16 * t,
                blocks <= 0x0fff_ffff,
            decreases blocks - t,
        {
            let mut fresh: Vec<u32> = block(&self.key, self.counter + t);
            drawn.append(&mut fresh);
            t = t + 1;
        }
        drawn.truncate(words);
        let value: BigInt = BigInt::from_limbs(false, drawn);
        self.counter = self.counter + blocks;
        Ok(value.modulo(bound).unwrap())
    }
}

} // verus!
