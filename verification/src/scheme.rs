//! The encryption scheme: key generation, encryption for one receiver and
//! for many, the combination of ciphertexts, and decryption.
//!
//! Every operation is a function of its arguments, of the context and of
//! the state of the randomness source; the contracts say which.

use vstd::prelude::*;
use crate::bigint::BigInt;
use crate::error::Error;
use crate::form::{ClassGroupElement, FormModel, is_element, compose_spec, inverse_spec};
use crate::group::{GroupContext, ContextModel, pow_spec, all_elements};
use crate::rng::{RandomnessSource, SourceModel, exhausts, sample_spec, advance_spec};

verus! {

/// A secret key: the exponent of the public key.
#[derive(Debug)]
pub struct SecretKey {
    scalar: BigInt,
}

/// A public key: the generator of the subgroup of unknown order, raised to
/// the secret key.
#[derive(Debug)]
pub struct PublicKey {
    element: ClassGroupElement,
}

/// A message: a residue modulo the order of the message subgroup.
#[derive(Debug)]
pub struct Cleartext {
    value: BigInt,
}

/// A ciphertext: the mask `c1` and the blinded message `c2`.
#[derive(Debug)]
pub struct Ciphertext {
    c1: ClassGroupElement,
    c2: ClassGroupElement,
}

/// The two components of a ciphertext.
pub struct CiphertextModel {
    pub c1: FormModel,
    pub c2: FormModel,
}

impl View for SecretKey {
    type V = int;

    closed spec fn view(&self) -> int {
        self.scalar@
    }
}

impl View for PublicKey {
    type V = FormModel;

    closed spec fn view(&self) -> FormModel {
        self.element@
    }
}

impl View for Cleartext {
    type V = int;

    closed spec fn view(&self) -> int {
        self.value@
    }
}

impl View for Ciphertext {
    type V = CiphertextModel;

    closed spec fn view(&self) -> CiphertextModel {
        CiphertextModel { c1: self.c1@, c2: self.c2@ }
    }
}

/// The models of a sequence of public keys.
pub open spec fn key_models(keys: Seq<PublicKey>) -> Seq<FormModel> {
    Seq::new(keys.len(), |i: int| keys[i]@)
}

/// The values of a sequence of cleartexts.
pub open spec fn cleartext_values(ms: Seq<Cleartext>) -> Seq<int> {
    Seq::new(ms.len(), |i: int| ms[i]@)
}

/// The models of a sequence of ciphertexts.
pub open spec fn ciphertext_models(cts: Seq<Ciphertext>) -> Seq<CiphertextModel> {
    Seq::new(cts.len(), |i: int| cts[i]@)
}

/// Both components are elements of the group of the context.
pub open spec fn is_ciphertext(ctx: ContextModel, ct: CiphertextModel) -> bool {
    is_element(ctx.delta, ct.c1) && is_element(ctx.delta, ct.c2)
}

/// The encryption of `m` under `pk` with randomness `r`: the mask is the
/// known-order generator raised to `r`, and the message, encoded as a power
/// of that generator, is blinded by the key raised to `r`.
pub open spec fn encrypt_spec(ctx: ContextModel, pk: FormModel, m: int, r: int) -> CiphertextModel {
    CiphertextModel {
        c1: pow_spec(ctx.delta, ctx.f, r),
        c2: compose_spec(ctx.delta, pow_spec(ctx.delta, pk, r), pow_spec(ctx.delta, ctx.f, m)),
    }
}

/// The encryptions of the messages `ms` under the keys `pks`, one for one,
/// all with the randomness `r`.
pub open spec fn encrypt_all_spec(ctx: ContextModel, pks: Seq<FormModel>, ms: Seq<int>, r: int)
    -> Seq<CiphertextModel> {
    Seq::new(pks.len(), |i: int| encrypt_spec(ctx, pks[i], ms[i], r))
}

/// What key generation returns from a source in state `src`: it fails only
/// where the source is exhausted.
pub open spec fn keygen_outcome(ctx: ContextModel, src: SourceModel) -> Result<
    (int, FormModel),
    Error,
> {
    if exhausts(src, ctx.secret_key_bound) {
        Err(Error::RandomnessExhausted)
    } else {
        let sk = sample_spec(src, ctx.secret_key_bound);
        Ok((sk, pow_spec(ctx.delta, ctx.h, sk)))
    }
}

/// What encryption for one receiver returns from a source in state `src`.
pub open spec fn encrypt_outcome(ctx: ContextModel, src: SourceModel, pk: FormModel, m: int)
    -> Result<(CiphertextModel, int), Error> {
    if !is_element(ctx.delta, pk) {
        Err(Error::MalformedElement)
    } else if exhausts(src, ctx.encrypt_randomness_bound) {
        Err(Error::RandomnessExhausted)
    } else {
        let r = sample_spec(src, ctx.encrypt_randomness_bound);
        Ok((encrypt_spec(ctx, pk, m, r), r))
    }
}

/// What encryption for many receivers returns from a source in state
/// `src`: one ciphertext per receiver, all with the same randomness.
pub open spec fn encrypt_all_outcome(
    ctx: ContextModel,
    src: SourceModel,
    pks: Seq<FormModel>,
    ms: Seq<int>,
) -> Result<(Seq<CiphertextModel>, int), Error> {
    if pks.len() != ms.len() {
        Err(Error::LengthMismatch)
    } else if !all_elements(ctx.delta, pks) {
        Err(Error::MalformedElement)
    } else if exhausts(src, ctx.encrypt_randomness_bound) {
        Err(Error::RandomnessExhausted)
    } else {
        let r = sample_spec(src, ctx.encrypt_randomness_bound);
        Ok((encrypt_all_spec(ctx, pks, ms, r), r))
    }
}

/// The state of the source after an operation that draws one sample below
/// `bound`, unless it refuses its input first: the source moves exactly
/// when the sample is drawn.
pub open spec fn source_after(src: SourceModel, accepted: bool, bound: int) -> SourceModel {
    if accepted && !exhausts(src, bound) {
        advance_spec(src, bound)
    } else {
        src
    }
}

/// The element that decryption looks up in the message subgroup: `c2`
/// composed with the inverse of `c1` raised to the secret key.
pub open spec fn blinded_spec(ctx: ContextModel, sk: int, ct: CiphertextModel) -> FormModel {
    compose_spec(ctx.delta, ct.c2, inverse_spec(pow_spec(ctx.delta, ct.c1, sk)))
}

/// Whether `m` is a cleartext whose encoding is `target`.
pub open spec fn is_log(ctx: ContextModel, m: int, target: FormModel) -> bool {
    0 <= m < ctx.cleartext_bound && pow_spec(ctx.delta, ctx.f, m) == target
}

/// Whether `m` is the least cleartext whose encoding is `target`.
pub open spec fn is_least_log(ctx: ContextModel, m: int, target: FormModel) -> bool {
    is_log(ctx, m, target) && forall|k: int| 0 <= k < m ==> !is_log(ctx, k, target)
}

/// The discrete logarithm of `target` in the message subgroup: the least
/// cleartext whose encoding it is, where there is one.
pub open spec fn discrete_log_spec(ctx: ContextModel, target: FormModel) -> Option<int> {
    if exists|m: int| is_least_log(ctx, m, target) {
        Some(choose|m: int| is_least_log(ctx, m, target))
    } else {
        None
    }
}

/// What decryption returns: a malformed ciphertext is refused; otherwise
/// the discrete logarithm of the unblinded element, and a failure where
/// that element is outside the message subgroup.
pub open spec fn decrypt_outcome(ctx: ContextModel, sk: int, ct: CiphertextModel) -> Result<
    int,
    Error,
> {
    if !is_ciphertext(ctx, ct) {
        Err(Error::MalformedElement)
    } else {
        match discrete_log_spec(ctx, blinded_spec(ctx, sk, ct)) {
            Some(m) => Ok(m),
            None => Err(Error::DecryptionFailure),
        }
    }
}

/// The componentwise composition of two ciphertexts.
pub open spec fn combine_spec(ctx: ContextModel, x: CiphertextModel, y: CiphertextModel)
    -> CiphertextModel {
    CiphertextModel {
        c1: compose_spec(ctx.delta, x.c1, y.c1),
        c2: compose_spec(ctx.delta, x.c2, y.c2),
    }
}

/// The model of what key generation returns.
pub open spec fn key_pair_view(r: Result<(SecretKey, PublicKey), Error>) -> Result<
    (int, FormModel),
    Error,
> {
    match r {
        Ok((sk, pk)) => Ok((sk@, pk@)),
        Err(e) => Err(e),
    }
}

/// The model of what encryption for one receiver returns.
pub open spec fn encryption_view(r: Result<(Ciphertext, BigInt), Error>) -> Result<
    (CiphertextModel, int),
    Error,
> {
    match r {
        Ok((ct, rand)) => Ok((ct@, rand@)),
        Err(e) => Err(e),
    }
}

/// The model of what encryption for many receivers returns.
pub open spec fn encryptions_view(r: Result<(Vec<Ciphertext>, BigInt), Error>) -> Result<
    (Seq<CiphertextModel>, int),
    Error,
> {
    match r {
        Ok((cts, rand)) => Ok((ciphertext_models(cts@), rand@)),
        Err(e) => Err(e),
    }
}

/// The model of what decryption returns.
pub open spec fn cleartext_view(r: Result<BigInt, Error>) -> Result<int, Error> {
    match r {
        Ok(m) => Ok(m@),
        Err(e) => Err(e),
    }
}

/// Whether an outcome is the ciphertext `value` where the operands are
/// `valid`, and the refusal of a malformed element where they are not.
pub open spec fn yields_ciphertext(r: Result<Ciphertext, Error>, valid: bool, value: CiphertextModel)
    -> bool {
    if valid {
        r is Ok && r->Ok_0@ == value
    } else {
        r == Err::<Ciphertext, Error>(Error::MalformedElement)
    }
}

/// The least logarithm is unique, so it is the discrete logarithm.
pub proof fn lemma_least_log(ctx: ContextModel, m: int, target: FormModel)
    requires
        is_least_log(ctx, m, target),
    ensures
        discrete_log_spec(ctx, target) == Some(m),
{
    let c = choose|k: int| is_least_log(ctx, k, target);
    assert(is_least_log(ctx, c, target));
    if c < m {
        assert(!is_log(ctx, c, target));
    }
    if m < c {
        assert(!is_log(ctx, m, target));
    }
}

impl SecretKey {
    /// A secret key from its scalar.
    pub fn new(scalar: BigInt) -> (r: SecretKey)
        ensures
            r@ == scalar@,
    {
        SecretKey { scalar }
    }

    /// The scalar of the key.
    pub fn scalar(&self) -> (r: &BigInt)
        ensures
            r@ == self@,
    {
        &self.scalar
    }
}

impl PublicKey {
    /// A public key from its element.
    pub fn new(element: ClassGroupElement) -> (r: PublicKey)
        ensures
            r@ == element@,
    {
        PublicKey { element }
    }

    /// The element of the key.
    pub fn element(&self) -> (r: &ClassGroupElement)
        ensures
            r@ == self@,
    {
        &self.element
    }
}

impl Cleartext {
    /// The cleartext of `value` in the message space of `ctx`: its residue
    /// modulo the order of the message subgroup.
    pub fn new(ctx: &GroupContext, value: &BigInt) -> (r: Cleartext)
        ensures
            r@ == value@ % ctx@.cleartext_bound,
            0 <= r@ < ctx@.cleartext_bound,
    {
        let bound: &BigInt = ctx.cleartext_bound();
        let _delta: &BigInt = ctx.discriminant();
        Cleartext { value: value.modulo(bound).unwrap() }
    }

    /// The residue.
    pub fn value(&self) -> (r: &BigInt)
        ensures
            r@ == self@,
    {
        &self.value
    }
}

impl Clone for Ciphertext {
    fn clone(&self) -> (r: Self)
        ensures
            r@ == self@,
    {
        Ciphertext { c1: self.c1.clone(), c2: self.c2.clone() }
    }
}

impl Ciphertext {
    /// A ciphertext from its two components.
    pub fn new(c1: ClassGroupElement, c2: ClassGroupElement) -> (r: Ciphertext)
        ensures
            r@ == (CiphertextModel { c1: c1@, c2: c2@ }),
    {
        Ciphertext { c1, c2 }
    }

    /// The mask.
    pub fn c1(&self) -> (r: &ClassGroupElement)
        ensures
            r@ == self@.c1,
    {
        &self.c1
    }

    /// The blinded message.
    pub fn c2(&self) -> (r: &ClassGroupElement)
        ensures
            r@ == self@.c2,
    {
        &self.c2
    }

    /// The componentwise composition with another ciphertext, which stands
    /// for the sum of the two messages. It is refused where a component of
    /// either is no element of the group, and only there.
    pub fn combine(&self, other: &Ciphertext, ctx: &GroupContext) -> (r: Result<Ciphertext, Error>)
        ensures
            yields_ciphertext(
                r,
                is_ciphertext(ctx@, self@) && is_ciphertext(ctx@, other@),
                combine_spec(ctx@, self@, other@),
            ),
    {
        let c1: ClassGroupElement = match ctx.compose(&self.c1, &other.c1) {
            Ok(z) => z,
            Err(e) => {
                return Err(Error::MalformedElement);
            },
        };
        let c2: ClassGroupElement = match ctx.compose(&self.c2, &other.c2) {
            Ok(z) => z,
            Err(e) => {
                return Err(Error::MalformedElement);
            },
        };
        Ok(Ciphertext { c1, c2 })
    }
}

/// The ciphertext of `m` under `pk` around a mask that was computed before.
fn blind(
    ctx: &GroupContext,
    c1: &ClassGroupElement,
    pk: &PublicKey,
    m: &Cleartext,
    randomness: &BigInt,
) -> (r: Ciphertext)
    requires
        c1@ == pow_spec(ctx@.delta, ctx@.f, randomness@),
        is_element(ctx@.delta, pk@),
    ensures
        r@ == encrypt_spec(ctx@, pk@, m@, randomness@),
        is_ciphertext(ctx@, r@),
{
    let delta: &BigInt = ctx.discriminant();
    proof {
        crate::group::lemma_pow_is_element(ctx@.delta, ctx@.f, randomness@);
    }
    let encoded: ClassGroupElement = ctx.power_known_order(&m.value);
    let shared: ClassGroupElement = ctx.power_element(&pk.element, randomness);
    Ciphertext { c1: c1.clone(), c2: shared.compose_elements(&encoded, ctx.discriminant()) }
}

/// Encryption of `m` under `pk` with the randomness `randomness`. A key
/// that is no element of the group is refused, and nothing else is.
pub fn encrypt_with(ctx: &GroupContext, pk: &PublicKey, m: &Cleartext, randomness: &BigInt) -> (r:
    Result<Ciphertext, Error>)
    ensures
        yields_ciphertext(
            r,
            is_element(ctx@.delta, pk@),
            encrypt_spec(ctx@, pk@, m@, randomness@),
        ),
{
    if !pk.element.is_element(ctx.discriminant()) {
        return Err(Error::MalformedElement);
    }
    let c1: ClassGroupElement = ctx.power_known_order(randomness);
    Ok(blind(ctx, &c1, pk, m, randomness))
}

/// A fresh key pair: a secret key drawn below the secret-key bound, and the
/// unknown-order generator raised to it. It fails only where the source is
/// exhausted.
pub fn keygen(ctx: &GroupContext, rng: &mut RandomnessSource) -> (r: Result<
    (SecretKey, PublicKey),
    Error,
>)
    ensures
        key_pair_view(r) == keygen_outcome(ctx@, old(rng)@),
        final(rng)@ == source_after(old(rng)@, true, ctx@.secret_key_bound),
{
    let _delta: &BigInt = ctx.discriminant();
    let scalar: BigInt = match rng.sample_uniform(ctx.secret_key_bound()) {
        Ok(s) => s,
        Err(e) => {
            return Err(Error::RandomnessExhausted);
        },
    };
    let element: ClassGroupElement = ctx.power_element(ctx.generator_h(), &scalar);
    Ok((SecretKey { scalar }, PublicKey { element }))
}

/// Encryption for one receiver, with fresh randomness, which is returned
/// beside the ciphertext. A malformed key is refused before anything is
/// drawn.
pub fn encrypt(ctx: &GroupContext, rng: &mut RandomnessSource, pk: &PublicKey, m: &Cleartext) -> (r:
    Result<(Ciphertext, BigInt), Error>)
    ensures
        encryption_view(r) == encrypt_outcome(ctx@, old(rng)@, pk@, m@),
        final(rng)@ == source_after(
            old(rng)@,
            is_element(ctx@.delta, pk@),
            ctx@.encrypt_randomness_bound,
        ),
{
    let delta: &BigInt = ctx.discriminant();
    if !pk.element.is_element(delta) {
        return Err(Error::MalformedElement);
    }
    let randomness: BigInt = match rng.sample_uniform(ctx.encrypt_randomness_bound()) {
        Ok(s) => s,
        Err(e) => {
            return Err(Error::RandomnessExhausted);
        },
    };
    let c1: ClassGroupElement = ctx.power_known_order(&randomness);
    let ct: Ciphertext = blind(ctx, &c1, pk, m, &randomness);
    Ok((ct, randomness))
}

/// Encryption for many receivers: one message per public key, all under
/// one randomness, which is returned beside the ciphertexts. The mask is
/// computed once and shared by all of them. Sequences of different
/// lengths are refused first, then a malformed key, both before anything
/// is drawn.
pub fn encrypt_all(
    ctx: &GroupContext,
    rng: &mut RandomnessSource,
    pks: &Vec<PublicKey>,
    ms: &Vec<Cleartext>,
) -> (r: Result<(Vec<Ciphertext>, BigInt), Error>)
    ensures
        encryptions_view(r) == encrypt_all_outcome(
            ctx@,
            old(rng)@,
            key_models(pks@),
            cleartext_values(ms@),
        ),
        final(rng)@ == source_after(
            old(rng)@,
            pks.len() == ms.len() && all_elements(ctx@.delta, key_models(pks@)),
            ctx@.encrypt_randomness_bound,
        ),
{
    let delta: &BigInt = ctx.discriminant();
    let ghost keys = key_models(pks@);
    let ghost values = cleartext_values(ms@);
    if pks.len() != ms.len() {
        return Err(Error::LengthMismatch);
    }
    let mut i: usize = 0;
    while i < pks.len()
        invariant
            i <= pks.len(),
            pks.len() == ms.len(),
            keys == key_models(pks@),
            delta@ == ctx@.delta,
            forall|j: int| 0 <= j < i ==> is_element(ctx@.delta, #[trigger] keys[j]),
        decreases pks.len() - i,
    {
        if !pks[i].element.is_element(delta) {
            proof {
                assert(!is_element(ctx@.delta, keys[i as int]));
            }
            return Err(Error::MalformedElement);
        }
        i = i + 1;
    }
    let randomness: BigInt = match rng.sample_uniform(ctx.encrypt_randomness_bound()) {
        Ok(s) => s,
        Err(e) => {
            return Err(Error::RandomnessExhausted);
        },
    };
    let c1: ClassGroupElement = ctx.power_known_order(&randomness);
    let mut out: Vec<Ciphertext> = Vec::new();
    let mut i: usize = 0;
    while i < pks.len()
        invariant
            i <= pks.len(),
            pks.len() == ms.len(),
            keys == key_models(pks@),
            values == cleartext_values(ms@),
            out.len() == i,
            all_elements(ctx@.delta, keys),
            c1@ == pow_spec(ctx@.delta, ctx@.f, randomness@),
            forall|j: int|
                0 <= j < i ==> (#[trigger] out[j])@ == encrypt_spec(
                    ctx@,
                    keys[j],
                    values[j],
                    randomness@,
                ),
        decreases pks.len() - i,
    {
        proof {
            assert(is_element(ctx@.delta, keys[i as int]));
        }
        let ct: Ciphertext = blind(ctx, &c1, &pks[i], &ms[i], &randomness);
        out.push(ct);
        i = i + 1;
    }
    proof {
        assert(ciphertext_models(out@) =~= encrypt_all_spec(ctx@, keys, values, randomness@));
    }
    Ok((out, randomness))
}

/// Decryption: removes the blinding with the secret key, then looks the
/// result up in the message subgroup, from zero upwards, with one
/// composition for each cleartext that it passes.
pub fn decrypt(ctx: &GroupContext, sk: &SecretKey, ct: &Ciphertext) -> (r: Result<BigInt, Error>)
    ensures
        cleartext_view(r) == decrypt_outcome(ctx@, sk@, ct@),
{
    let delta: &BigInt = ctx.discriminant();
    if !ct.c1.is_element(delta) || !ct.c2.is_element(delta) {
        return Err(Error::MalformedElement);
    }
    let shared: ClassGroupElement = ctx.power_element(&ct.c1, &sk.scalar);
    let unmask: ClassGroupElement = shared.inverse_element(delta);
    let target: ClassGroupElement = ct.c2.compose_elements(&unmask, delta);
    let one: BigInt = BigInt::one();
    let mut m: BigInt = BigInt::zero();
    let mut encoded: ClassGroupElement = ctx.identity();
    while m.less_than(ctx.cleartext_bound())
        invariant
            0 <= m@,
            one@ == 1,
            delta@ == ctx@.delta,
            is_ciphertext(ctx@, ct@),
            crate::group::is_context(ctx@),
            blinded_spec(ctx@, sk@, ct@) == target@,
            encoded@ == pow_spec(ctx@.delta, ctx@.f, m@),
            is_element(ctx@.delta, encoded@),
            forall|k: int| 0 <= k < m@ ==> !is_log(ctx@, k, target@),
        decreases ctx@.cleartext_bound - m@,
    {
        if encoded.equals(&target) {
            proof {
                lemma_least_log(ctx@, m@, target@);
            }
            return Ok(m);
        }
        proof {
            crate::laws::lemma_next_power(ctx@.delta, ctx@.f, m@);
        }
        encoded = encoded.compose_elements(ctx.generator_f(), delta);
        m.add_assign(&one);
    }
    proof {
        assert(forall|k: int| !is_least_log(ctx@, k, target@));
    }
    Err(Error::DecryptionFailure)
}

} // verus!
