//! The parameters of one class group and exponentiation in it.

use vstd::prelude::*;
use crate::bigint::{BigInt, abs};
use crate::error::Error;
use crate::form::{
    ClassGroupElement, FormModel, is_discriminant, identity_spec, inverse_spec,
    compose_spec, square_spec, yields, is_element, law_identity_is_neutral, lemma_identity_is_form,
    lemma_identity_is_element, law_inverse_cancels, law_composition_is_closed,
    lemma_form_discriminant,
};
use crate::natural::{Sign, bits_value, lemma_bits_take_step};

verus! {

/// What a `GroupContext` holds, as plain mathematics.
pub struct ContextModel {
    /// The discriminant of the class group.
    pub delta: int,
    /// The order of the message subgroup: cleartexts are residues modulo it.
    pub cleartext_bound: int,
    /// The bound below which encryption randomness is drawn.
    pub encrypt_randomness_bound: int,
    /// The bound below which secret keys are drawn.
    pub secret_key_bound: int,
    /// The generator of the subgroup of known order.
    pub f: FormModel,
    /// The generator of the subgroup of unknown order.
    pub h: FormModel,
}

/// The parameters are coherent: a discriminant, positive bounds, and two
/// generators that are elements of the group.
pub open spec fn is_context(m: ContextModel) -> bool {
    &&& is_discriminant(m.delta)
    &&& m.cleartext_bound > 0
    &&& m.encrypt_randomness_bound > 0
    &&& m.secret_key_bound > 0
    &&& is_element(m.delta, m.f)
    &&& is_element(m.delta, m.h)
}

/// The known-order generator has the order of the message space: its
/// power to the cleartext bound is the neutral element, and no power to a
/// positive exponent below the bound is.
pub open spec fn has_message_order(m: ContextModel) -> bool {
    &&& pow_spec(m.delta, m.f, m.cleartext_bound) == identity_spec(m.delta)
    &&& forall|k: int|
        0 < k < m.cleartext_bound ==> #[trigger] pow_spec(m.delta, m.f, k) != identity_spec(m.delta)
}

/// Exponentiation by a natural number, by squaring and multiplying from the
/// most significant binary digit of the exponent down.
pub open spec fn pow_nat_spec(delta: int, base: FormModel, n: nat) -> FormModel
    decreases n,
{
    if n == 0 {
        identity_spec(delta)
    } else {
        let q = square_spec(delta, pow_nat_spec(delta, base, n / 2));
        if n % 2 == 1 {
            compose_spec(delta, q, base)
        } else {
            q
        }
    }
}

/// Exponentiation of an element by an integer; a negative exponent raises
/// the inverse.
pub open spec fn pow_spec(delta: int, base: FormModel, n: int) -> FormModel {
    if n >= 0 {
        pow_nat_spec(delta, base, n as nat)
    } else {
        pow_nat_spec(delta, inverse_spec(base), (-n) as nat)
    }
}

/// The product of `n` copies of `base`, composed one after the other.
pub open spec fn repeated_spec(delta: int, base: FormModel, n: nat) -> FormModel
    decreases n,
{
    if n == 0 {
        identity_spec(delta)
    } else {
        compose_spec(delta, repeated_spec(delta, base, (n - 1) as nat), base)
    }
}

/// A natural power of an element is an element.
pub proof fn lemma_pow_nat_is_element(delta: int, base: FormModel, n: nat)
    requires
        is_discriminant(delta),
        is_element(delta, base),
    ensures
        is_element(delta, pow_nat_spec(delta, base, n)),
    decreases n,
{
    if n == 0 {
        lemma_identity_is_element(delta);
    } else {
        lemma_pow_nat_is_element(delta, base, n / 2);
        let half = pow_nat_spec(delta, base, n / 2);
        law_composition_is_closed(delta, half, half);
        law_composition_is_closed(delta, square_spec(delta, half), base);
    }
}

/// A power of an element is an element.
pub proof fn lemma_pow_is_element(delta: int, base: FormModel, n: int)
    requires
        is_discriminant(delta),
        is_element(delta, base),
    ensures
        is_element(delta, pow_spec(delta, base, n)),
{
    if n >= 0 {
        lemma_pow_nat_is_element(delta, base, n as nat);
    } else {
        law_inverse_cancels(delta, base);
        lemma_pow_nat_is_element(delta, inverse_spec(base), (-n) as nat);
    }
}

/// One step of square-and-multiply: from the power for the leading `j`
/// bits to the power for the leading `j + 1` bits.
proof fn lemma_pow_step(delta: int, base: FormModel, bits: Seq<bool>, j: int)
    requires
        0 <= j < bits.len(),
        is_discriminant(delta),
    ensures
        pow_nat_spec(delta, base, bits_value(bits.take(j + 1))) == ({
            let q = square_spec(delta, pow_nat_spec(delta, base, bits_value(bits.take(j))));
            if bits[j] {
                compose_spec(delta, q, base)
            } else {
                q
            }
        }),
{
    lemma_bits_take_step(bits, j);
    let p = bits_value(bits.take(j));
    let p1 = bits_value(bits.take(j + 1));
    if p1 == 0 {
        let id = identity_spec(delta);
        lemma_identity_is_form(delta);
        law_identity_is_neutral(delta, id);
    } else {
        assert(p1 / 2 == p && p1 % 2 == if bits[j] { 1nat } else { 0nat });
    }
}

/// The sum of a sequence of natural numbers.
pub open spec fn seq_total(s: Seq<nat>) -> nat
    decreases s.len(),
{
    if s.len() == 0 {
        0
    } else {
        seq_total(s.drop_last()) + s.last()
    }
}

/// Every exponent without its last binary digit.
pub open spec fn halves(s: Seq<nat>) -> Seq<nat> {
    Seq::new(s.len(), |i: int| s[i] / 2)
}

/// Every exponent is zero.
pub open spec fn all_zero(s: Seq<nat>) -> bool {
    forall|i: int| 0 <= i < s.len() ==> s[i] == 0
}

/// Halving the exponents does not raise their sum, and lowers it where
/// one of them is not zero.
pub proof fn lemma_halves_total(s: Seq<nat>)
    ensures
        seq_total(halves(s)) <= seq_total(s),
        !all_zero(s) ==> seq_total(halves(s)) < seq_total(s),
    decreases s.len(),
{
    if s.len() > 0 {
        lemma_halves_total(s.drop_last());
        assert(halves(s).drop_last() =~= halves(s.drop_last()));
        if !all_zero(s) && s.last() == 0 {
            let i = choose|i: int| 0 <= i < s.len() && s[i] != 0;
            assert(s.drop_last()[i] != 0);
        }
    }
}

/// Composes onto `acc`, in the order of their positions, the bases below
/// position `k` whose exponent is odd.
pub open spec fn multiply_odd(
    delta: int,
    acc: FormModel,
    bases: Seq<FormModel>,
    exps: Seq<nat>,
    k: nat,
) -> FormModel
    decreases k,
{
    if k == 0 {
        acc
    } else {
        let p = multiply_odd(delta, acc, bases, exps, (k - 1) as nat);
        if exps[k - 1] % 2 == 1 {
            compose_spec(delta, p, bases[k - 1])
        } else {
            p
        }
    }
}

/// The product of the bases raised to their exponents, with the binary
/// digits of all exponents read together from the most significant down:
/// one squaring for each digit position, then one composition for each
/// exponent that has a one there.
pub open spec fn multi_pow_nat_spec(delta: int, bases: Seq<FormModel>, exps: Seq<nat>) -> FormModel
    decreases seq_total(exps),
{
    if all_zero(exps) {
        identity_spec(delta)
    } else {
        proof {
            lemma_halves_total(exps);
        }
        multiply_odd(
            delta,
            square_spec(delta, multi_pow_nat_spec(delta, bases, halves(exps))),
            bases,
            exps,
            bases.len(),
        )
    }
}

/// The bases of a multi-exponentiation, each inverted where its scalar is
/// negative.
pub open spec fn signed_bases(bases: Seq<FormModel>, scalars: Seq<int>) -> Seq<FormModel> {
    Seq::new(bases.len(), |i: int| if scalars[i] < 0 { inverse_spec(bases[i]) } else { bases[i] })
}

/// The absolute values of the scalars.
pub open spec fn magnitudes(scalars: Seq<int>) -> Seq<nat> {
    Seq::new(scalars.len(), |i: int| abs(scalars[i]))
}

/// Multi-exponentiation of elements by integers.
pub open spec fn multi_exp_spec(delta: int, bases: Seq<FormModel>, scalars: Seq<int>) -> FormModel {
    multi_pow_nat_spec(delta, signed_bases(bases, scalars), magnitudes(scalars))
}

/// The product of a sequence of forms, composed one after the other.
pub open spec fn product_spec(delta: int, s: Seq<FormModel>) -> FormModel
    decreases s.len(),
{
    if s.len() == 0 {
        identity_spec(delta)
    } else {
        compose_spec(delta, product_spec(delta, s.drop_last()), s.last())
    }
}

/// The powers of the bases to their scalars, one for one.
pub open spec fn powers_spec(delta: int, bases: Seq<FormModel>, scalars: Seq<int>) -> Seq<FormModel> {
    Seq::new(bases.len(), |i: int| pow_spec(delta, bases[i], scalars[i]))
}

/// Every form of the sequence is an element of the group.
pub open spec fn all_elements(delta: int, s: Seq<FormModel>) -> bool {
    forall|i: int| 0 <= i < s.len() ==> is_element(delta, #[trigger] s[i])
}



/// The models of a sequence of elements.
pub open spec fn element_models(s: Seq<ClassGroupElement>) -> Seq<FormModel> {
    Seq::new(s.len(), |i: int| s[i]@)
}

/// The values of a sequence of integers.
pub open spec fn scalar_values(s: Seq<BigInt>) -> Seq<int> {
    Seq::new(s.len(), |i: int| s[i]@)
}

/// The number formed by the digits of `bits` that lie among the leading
/// `p` positions, when `bits` is padded on the left to `width` digits.
pub open spec fn prefix_value(bits: Seq<bool>, width: int, p: int) -> nat {
    let pad = width - bits.len();
    if p <= pad {
        0
    } else {
        bits_value(bits.take(p - pad))
    }
}

/// The digit of `bits` at position `p`, when padded to `width` digits.
pub open spec fn digit_at(bits: Seq<bool>, width: int, p: int) -> bool {
    let pad = width - bits.len();
    p >= pad && bits[p - pad]
}

/// The numbers formed by the leading `p` digits of every exponent.
pub open spec fn prefixes(digits: Seq<Vec<bool>>, width: int, p: int) -> Seq<nat> {
    Seq::new(digits.len(), |j: int| prefix_value(digits[j]@, width, p))
}

proof fn lemma_prefix_step(bits: Seq<bool>, width: int, p: int)
    requires
        bits.len() <= width,
        0 <= p < width,
    ensures
        prefix_value(bits, width, p + 1) == 2 * prefix_value(bits, width, p) + if digit_at(
            bits,
            width,
            p,
        ) { 1nat } else { 0nat },
{
    let pad = width - bits.len();
    assert(bits.take(0) =~= Seq::<bool>::empty());
    if p >= pad {
        lemma_bits_take_step(bits, p - pad);
    }
}

proof fn lemma_prefix_ends(bits: Seq<bool>, width: int)
    requires
        bits.len() <= width,
    ensures
        prefix_value(bits, width, 0) == 0,
        prefix_value(bits, width, width) == bits_value(bits),
{
    assert(bits.take(0) =~= Seq::<bool>::empty());
    assert(bits.take(bits.len() as int) =~= bits);
}

proof fn lemma_prefixes_step(digits: Seq<Vec<bool>>, width: int, p: int)
    requires
        forall|j: int| 0 <= j < digits.len() ==> (#[trigger] digits[j]).len() <= width,
        0 <= p < width,
    ensures
        halves(prefixes(digits, width, p + 1)) =~= prefixes(digits, width, p),
        forall|j: int|
            0 <= j < digits.len() ==> (#[trigger] prefixes(digits, width, p + 1)[j]) % 2 == if digit_at(
                digits[j]@,
                width,
                p,
            ) { 1nat } else { 0nat },
        all_zero(prefixes(digits, width, p + 1)) ==> all_zero(prefixes(digits, width, p)),
{
    assert forall|j: int| 0 <= j < digits.len() implies (#[trigger] prefixes(digits, width, p + 1)[j])
        / 2 == prefixes(digits, width, p)[j] && prefixes(digits, width, p + 1)[j] % 2 == if digit_at(
        digits[j]@,
        width,
        p,
    ) { 1nat } else { 0nat } by {
        lemma_prefix_step(digits[j]@, width, p);
    }
    if all_zero(prefixes(digits, width, p + 1)) {
        assert forall|j: int| 0 <= j < digits.len() implies prefixes(digits, width, p)[j] == 0 by {
            assert(prefixes(digits, width, p + 1)[j] == 0);
            lemma_prefix_step(digits[j]@, width, p);
        }
    }
}

/// Nothing is composed where every exponent is even.
proof fn lemma_multiply_odd_none(
    delta: int,
    acc: FormModel,
    bases: Seq<FormModel>,
    exps: Seq<nat>,
    k: nat,
)
    requires
        k <= exps.len(),
        all_zero(exps),
    ensures
        multiply_odd(delta, acc, bases, exps, k) == acc,
    decreases k,
{
    if k > 0 {
        lemma_multiply_odd_none(delta, acc, bases, exps, (k - 1) as nat);
    }
}

/// One digit position of a multi-exponentiation.
proof fn lemma_multi_pow_step(
    delta: int,
    bases: Seq<FormModel>,
    digits: Seq<Vec<bool>>,
    width: int,
    p: int,
)
    requires
        is_discriminant(delta),
        bases.len() == digits.len(),
        forall|j: int| 0 <= j < digits.len() ==> (#[trigger] digits[j]).len() <= width,
        0 <= p < width,
    ensures
        multi_pow_nat_spec(delta, bases, prefixes(digits, width, p + 1)) == multiply_odd(
            delta,
            square_spec(delta, multi_pow_nat_spec(delta, bases, prefixes(digits, width, p))),
            bases,
            prefixes(digits, width, p + 1),
            bases.len(),
        ),
{
    lemma_prefixes_step(digits, width, p);
    let next = prefixes(digits, width, p + 1);
    if all_zero(next) {
        let id = identity_spec(delta);
        lemma_identity_is_form(delta);
        law_identity_is_neutral(delta, id);
        lemma_multiply_odd_none(delta, id, bases, next, bases.len());
    }
}

/// The parameters of one class group: its discriminant, the bounds for
/// cleartexts, encryption randomness and secret keys, and the generators of
/// the subgroups of known and of unknown order. It does not change once
/// made.
#[derive(Debug)]
pub struct GroupContext {
    delta: BigInt,
    cleartext_bound: BigInt,
    encrypt_randomness_bound: BigInt,
    secret_key_bound: BigInt,
    f: ClassGroupElement,
    h: ClassGroupElement,
}

impl View for GroupContext {
    type V = ContextModel;

    closed spec fn view(&self) -> ContextModel {
        ContextModel {
            delta: self.delta@,
            cleartext_bound: self.cleartext_bound@,
            encrypt_randomness_bound: self.encrypt_randomness_bound@,
            secret_key_bound: self.secret_key_bound@,
            f: self.f@,
            h: self.h@,
        }
    }
}

impl GroupContext {
    #[verifier::type_invariant]
    spec fn coherent(self) -> bool {
        is_context(self@)
    }

    /// A context from its parameters. A bound that is not positive is
    /// refused first, then a generator that is not a reduced primitive form
    /// of the discriminant.
    pub fn new(
        delta: BigInt,
        cleartext_bound: BigInt,
        encrypt_randomness_bound: BigInt,
        secret_key_bound: BigInt,
        f: ClassGroupElement,
        h: ClassGroupElement,
    ) -> (r: Result<GroupContext, Error>)
        ensures
            cleartext_bound@ <= 0 || encrypt_randomness_bound@ <= 0 || secret_key_bound@ <= 0 ==> r
                == Err::<GroupContext, Error>(Error::InvalidBound),
            cleartext_bound@ > 0 && encrypt_randomness_bound@ > 0 && secret_key_bound@ > 0 && !(
            is_element(delta@, f@) && is_element(delta@, h@)) ==> r == Err::<GroupContext, Error>(
                Error::MalformedElement,
            ),
            cleartext_bound@ > 0 && encrypt_randomness_bound@ > 0 && secret_key_bound@ > 0
                && is_element(delta@, f@) && is_element(delta@, h@) ==> r is Ok && r->Ok_0@ == (
            ContextModel {
                delta: delta@,
                cleartext_bound: cleartext_bound@,
                encrypt_randomness_bound: encrypt_randomness_bound@,
                secret_key_bound: secret_key_bound@,
                f: f@,
                h: h@,
            }),
            r is Ok ==> is_context(r->Ok_0@),
    {
        let positive: bool = match (
            cleartext_bound.signum(),
            encrypt_randomness_bound.signum(),
            secret_key_bound.signum(),
        ) {
            (Sign::Positive, Sign::Positive, Sign::Positive) => true,
            _ => false,
        };
        if !positive {
            return Err(Error::InvalidBound);
        }
        if !f.is_element(&delta) || !h.is_element(&delta) {
            return Err(Error::MalformedElement);
        }
        proof {
            lemma_form_discriminant(delta@, f@);
        }
        Ok(GroupContext { delta, cleartext_bound, encrypt_randomness_bound, secret_key_bound, f, h })
    }

    /// The discriminant of the class group.
    pub fn discriminant(&self) -> (r: &BigInt)
        ensures
            r@ == self@.delta,
            is_context(self@),
    {
        proof {
            use_type_invariant(self);
        }
        &self.delta
    }

    /// The order of the message subgroup.
    pub fn cleartext_bound(&self) -> (r: &BigInt)
        ensures
            r@ == self@.cleartext_bound,
    {
        &self.cleartext_bound
    }

    /// The bound below which encryption randomness is drawn.
    pub fn encrypt_randomness_bound(&self) -> (r: &BigInt)
        ensures
            r@ == self@.encrypt_randomness_bound,
    {
        &self.encrypt_randomness_bound
    }

    /// The bound below which secret keys are drawn.
    pub fn secret_key_bound(&self) -> (r: &BigInt)
        ensures
            r@ == self@.secret_key_bound,
    {
        &self.secret_key_bound
    }

    /// The generator of the subgroup of known order.
    pub fn generator_f(&self) -> (r: &ClassGroupElement)
        ensures
            r@ == self@.f,
    {
        &self.f
    }

    /// The generator of the subgroup of unknown order.
    pub fn generator_h(&self) -> (r: &ClassGroupElement)
        ensures
            r@ == self@.h,
    {
        &self.h
    }

    /// Whether the known-order generator has the order of the message
    /// space, by going through its powers below the cleartext bound.
    pub fn generator_has_order(&self) -> (r: bool)
        ensures
            r == has_message_order(self@),
    {
        proof {
            use_type_invariant(self);
        }
        let unit: ClassGroupElement = ClassGroupElement::identity(&self.delta);
        let one: BigInt = BigInt::one();
        let mut k: BigInt = BigInt::one();
        let mut power: ClassGroupElement = self.f.clone();
        proof {
            crate::laws::lemma_next_power(self@.delta, self@.f, 0);
            lemma_identity_is_element(self@.delta);
            law_identity_is_neutral(self@.delta, self@.f);
        }
        while k.less_than(&self.cleartext_bound)
            invariant
                0 < k@ <= self@.cleartext_bound,
                one@ == 1,
                is_context(self@),
                unit@ == identity_spec(self@.delta),
                self.cleartext_bound@ == self@.cleartext_bound,
                self.delta@ == self@.delta,
                self.f@ == self@.f,
                power@ == pow_spec(self@.delta, self@.f, k@),
                is_element(self@.delta, power@),
                forall|j: int|
                    0 < j < k@ ==> #[trigger] pow_spec(self@.delta, self@.f, j) != identity_spec(
                        self@.delta,
                    ),
            decreases self@.cleartext_bound - k@,
        {
            if power.equals(&unit) {
                return false;
            }
            proof {
                crate::laws::lemma_next_power(self@.delta, self@.f, k@);
            }
            power = power.compose_elements(&self.f, &self.delta);
            k.add_assign(&one);
        }
        power.equals(&unit)
    }

    /// The neutral element of the group.
    pub fn identity(&self) -> (r: ClassGroupElement)
        ensures
            r@ == identity_spec(self@.delta),
            is_element(self@.delta, r@),
    {
        proof {
            use_type_invariant(self);
        }
        ClassGroupElement::identity(&self.delta)
    }

    /// The group law in this group.
    pub fn compose(&self, x: &ClassGroupElement, y: &ClassGroupElement) -> (r: Result<
        ClassGroupElement,
        Error,
    >)
        ensures
            yields(
                r,
                is_element(self@.delta, x@) && is_element(self@.delta, y@),
                compose_spec(self@.delta, x@, y@),
            ),
            r is Ok ==> is_element(self@.delta, r->Ok_0@),
    {
        x.compose(y, &self.delta)
    }

    /// Raises `base` to `exponent` by squaring and multiplying, from the
    /// most significant bit of the exponent down. The result is the
    /// product of as many copies of the base as the exponent says, or of
    /// its inverse for a negative exponent. A base that is no element of
    /// the group is refused, and nothing else is.
    pub fn power(&self, base: &ClassGroupElement, exponent: &BigInt) -> (r: Result<
        ClassGroupElement,
        Error,
    >)
        ensures
            yields(r, is_element(self@.delta, base@), pow_spec(self@.delta, base@, exponent@)),
            r is Ok ==> is_element(self@.delta, r->Ok_0@),
            r is Ok && exponent@ >= 0 ==> r->Ok_0@ == repeated_spec(
                self@.delta,
                base@,
                exponent@ as nat,
            ),
    {
        proof {
            use_type_invariant(self);
        }
        if !base.is_element(&self.delta) {
            return Err(Error::MalformedElement);
        }
        proof {
            if exponent@ >= 0 {
                crate::laws::law_power_is_repeated_composition(
                    self@.delta,
                    base@,
                    exponent@ as nat,
                );
            }
        }
        Ok(self.power_element(base, exponent))
    }

    /// A power of what is known to be an element.
    pub(crate) fn power_element(&self, base: &ClassGroupElement, exponent: &BigInt) -> (r:
        ClassGroupElement)
        requires
            is_element(self@.delta, base@),
        ensures
            r@ == pow_spec(self@.delta, base@, exponent@),
            is_element(self@.delta, r@),
    {
        proof {
            use_type_invariant(self);
        }
        let b: ClassGroupElement = if exponent.is_negative() {
            base.inverse_element(&self.delta)
        } else {
            base.clone()
        };
        let bits: Vec<bool> = exponent.magnitude_bits();
        let mut acc: ClassGroupElement = ClassGroupElement::identity(&self.delta);
        let mut i: usize = 0;
        proof {
            assert(bits@.take(0) =~= Seq::<bool>::empty());
        }
        while i < bits.len()
            invariant
                i <= bits.len(),
                is_discriminant(self@.delta),
                self.delta@ == self@.delta,
                is_element(self@.delta, b@),
                is_element(self@.delta, acc@),
                acc@ == pow_nat_spec(self@.delta, b@, bits_value(bits@.take(i as int))),
            decreases bits.len() - i,
        {
            proof {
                lemma_pow_step(self@.delta, b@, bits@, i as int);
            }
            let squared: ClassGroupElement = acc.square_element(&self.delta);
            if bits[i] {
                acc = squared.compose_elements(&b, &self.delta);
            } else {
                acc = squared;
            }
            i = i + 1;
        }
        proof {
            assert(bits@.take(bits.len() as int) =~= bits@);
        }
        acc
    }

    /// A power of the generator of the subgroup of known order.
    pub fn power_known_order(&self, scalar: &BigInt) -> (r: ClassGroupElement)
        ensures
            r@ == pow_spec(self@.delta, self@.f, scalar@),
            is_element(self@.delta, r@),
    {
        proof {
            use_type_invariant(self);
        }
        self.power_element(&self.f, scalar)
    }

    /// A power in the subgroup of unknown order: of its generator, or of a
    /// public key. A base that is no element of the group is refused.
    pub fn power_unknown_order(&self, scalar: &BigInt, base: &ClassGroupElement) -> (r: Result<
        ClassGroupElement,
        Error,
    >)
        ensures
            yields(r, is_element(self@.delta, base@), pow_spec(self@.delta, base@, scalar@)),
            r is Ok ==> is_element(self@.delta, r->Ok_0@),
    {
        self.power(base, scalar)
    }

    /// Composes onto `start` the prepared bases whose exponent has a one at
    /// digit position `p`.
    fn multiply_selected(
        &self,
        start: ClassGroupElement,
        prepared: &Vec<ClassGroupElement>,
        digits: &Vec<Vec<bool>>,
        width: usize,
        p: usize,
    ) -> (r: ClassGroupElement)
        requires
            prepared.len() == digits.len(),
            forall|j: int| 0 <= j < digits.len() ==> (#[trigger] digits[j]).len() <= width,
            p < width,
            is_element(self@.delta, start@),
            all_elements(self@.delta, element_models(prepared@)),
        ensures
            r@ == multiply_odd(
                self@.delta,
                start@,
                element_models(prepared@),
                prefixes(digits@, width as int, p + 1),
                prepared.len() as nat,
            ),
            is_element(self@.delta, r@),
    {
        let ghost bases = element_models(prepared@);
        let ghost exps = prefixes(digits@, width as int, p + 1);
        let mut acc: ClassGroupElement = start;
        let mut j: usize = 0;
        proof {
            lemma_prefixes_step(digits@, width as int, p as int);
        }
        while j < prepared.len()
            invariant
                j <= prepared.len(),
                prepared.len() == digits.len(),
                bases == element_models(prepared@),
                exps == prefixes(digits@, width as int, p + 1),
                p < width,
                all_elements(self@.delta, bases),
                is_element(self@.delta, acc@),
                self.delta@ == self@.delta,
                forall|t: int| 0 <= t < digits.len() ==> (#[trigger] digits[t]).len() <= width,
                forall|t: int|
                    0 <= t < digits.len() ==> (#[trigger] exps[t]) % 2 == if digit_at(
                        digits[t]@,
                        width as int,
                        p as int,
                    ) { 1nat } else { 0nat },
                acc@ == multiply_odd(self@.delta, start@, bases, exps, j as nat),
            decreases prepared.len() - j,
        {
            let bits: &Vec<bool> = &digits[j];
            let pad: usize = width - bits.len();
            proof {
                assert(exps[j as int] % 2 == if digit_at(digits[j as int]@, width as int, p as int) {
                    1nat
                } else {
                    0nat
                });
                assert(is_element(self@.delta, bases[j as int]));
            }
            if p >= pad && bits[p - pad] {
                acc = acc.compose_elements(&prepared[j], &self.delta);
            }
            j = j + 1;
        }
        acc
    }

    /// The product of the powers of the bases to their scalars, computed
    /// with one squaring for each bit position shared by all bases and one
    /// composition for each bit that is set. The two sequences must have
    /// one length, which is not zero; then a base that is no element of
    /// the group is refused, and nothing else is.
    pub fn multi_exp(&self, bases: &Vec<ClassGroupElement>, scalars: &Vec<BigInt>) -> (r: Result<
        ClassGroupElement,
        Error,
    >)
        ensures
            bases.len() != scalars.len() || bases.len() == 0 ==> r == Err::<ClassGroupElement, Error>(
                Error::LengthMismatch,
            ),
            bases.len() == scalars.len() && bases.len() > 0 ==> yields(
                r,
                all_elements(self@.delta, element_models(bases@)),
                product_spec(
                    self@.delta,
                    powers_spec(self@.delta, element_models(bases@), scalar_values(scalars@)),
                ),
            ),
            r is Ok ==> r->Ok_0@ == multi_exp_spec(
                self@.delta,
                element_models(bases@),
                scalar_values(scalars@),
            ),
            r is Ok ==> is_element(self@.delta, r->Ok_0@),
    {
        proof {
            use_type_invariant(self);
            if bases.len() == scalars.len() && all_elements(self@.delta, element_models(bases@)) {
                crate::laws::law_multi_exp_is_product(
                    self@.delta,
                    element_models(bases@),
                    scalar_values(scalars@),
                );
            }
        }
        if bases.len() != scalars.len() || bases.len() == 0 {
            return Err(Error::LengthMismatch);
        }
        let ghost models = element_models(bases@);
        let ghost values = scalar_values(scalars@);
        let mut prepared: Vec<ClassGroupElement> = Vec::new();
        let mut digits: Vec<Vec<bool>> = Vec::new();
        let mut width: usize = 0;
        let mut i: usize = 0;
        while i < bases.len()
            invariant
                i <= bases.len(),
                bases.len() == scalars.len(),
                bases.len() > 0,
                models == element_models(bases@),
                values == scalar_values(scalars@),
                self.delta@ == self@.delta,
                prepared.len() == i,
                digits.len() == i,
                forall|j: int| 0 <= j < i ==> is_element(self@.delta, #[trigger] models[j]),
                forall|j: int|
                    0 <= j < i ==> (#[trigger] prepared[j])@ == signed_bases(models, values)[j],
                forall|j: int| 0 <= j < i ==> is_element(self@.delta, (#[trigger] prepared[j])@),
                forall|j: int|
                    0 <= j < i ==> bits_value((#[trigger] digits[j])@) == magnitudes(values)[j],
                forall|j: int| 0 <= j < i ==> (#[trigger] digits[j]).len() <= width,
            decreases bases.len() - i,
        {
            if !bases[i].is_element(&self.delta) {
                proof {
                    assert(!is_element(self@.delta, models[i as int]));
                }
                return Err(Error::MalformedElement);
            }
            proof {
                assert(is_element(self@.delta, models[i as int]));
            }
            let b: ClassGroupElement = if scalars[i].is_negative() {
                bases[i].inverse_element(&self.delta)
            } else {
                bases[i].clone()
            };
            let bits: Vec<bool> = scalars[i].magnitude_bits();
            if bits.len() > width {
                width = bits.len();
            }
            prepared.push(b);
            digits.push(bits);
            i = i + 1;
        }
        let ghost signed = signed_bases(models, values);
        proof {
            assert(element_models(prepared@) =~= signed);
            assert forall|j: int| 0 <= j < digits.len() implies prefixes(
                digits@,
                width as int,
                width as int,
            )[j] == magnitudes(values)[j] && prefixes(digits@, width as int, 0)[j] == 0 by {
                lemma_prefix_ends(digits[j]@, width as int);
            }
            assert(prefixes(digits@, width as int, width as int) =~= magnitudes(values));
            assert(all_elements(self@.delta, models));
            assert forall|j: int| 0 <= j < signed.len() implies is_element(
                self@.delta,
                #[trigger] signed[j],
            ) by {
                assert(prepared[j]@ == signed[j]);
            }
        }
        let mut acc: ClassGroupElement = ClassGroupElement::identity(&self.delta);
        let mut p: usize = 0;
        while p < width
            invariant
                p <= width,
                is_discriminant(self@.delta),
                self.delta@ == self@.delta,
                prepared.len() == digits.len(),
                element_models(prepared@) == signed,
                all_elements(self@.delta, signed),
                is_element(self@.delta, acc@),
                forall|j: int| 0 <= j < digits.len() ==> (#[trigger] digits[j]).len() <= width,
                acc@ == multi_pow_nat_spec(
                    self@.delta,
                    signed,
                    prefixes(digits@, width as int, p as int),
                ),
            decreases width - p,
        {
            proof {
                lemma_multi_pow_step(self@.delta, signed, digits@, width as int, p as int);
            }
            let squared: ClassGroupElement = acc.square_element(&self.delta);
            acc = self.multiply_selected(squared, &prepared, &digits, width, p);
            p = p + 1;
        }
        Ok(acc)
    }
}

} // verus!
