//! Laws of the library that relate several of its operations: what holds
//! of encryption for one receiver and for many, of two sources made from
//! one seed, of powers and of products of powers, and of decryption after
//! encryption.

use vstd::prelude::*;
use crate::error::Error;
use crate::associative::law_composition_is_associative;
use crate::form::{
    FormModel, is_element, is_discriminant, compose_spec, square_spec, identity_spec,
    inverse_spec, law_identity_is_neutral, law_composition_commutes, law_inverse_cancels,
    lemma_identity_is_element, law_composition_is_closed,
};
use crate::group::{
    ContextModel, is_context, has_message_order, product_spec, powers_spec, pow_spec,
    pow_nat_spec, repeated_spec, multi_exp_spec, multi_pow_nat_spec, signed_bases, magnitudes,
    all_elements, lemma_pow_is_element,
};
use crate::rng::{SourceModel, key_spec, exhausts, sample_spec, advance_spec};
use crate::scheme::{
    CiphertextModel, encrypt_spec, encrypt_all_spec, encrypt_outcome, encrypt_all_outcome,
    keygen_outcome, source_after, decrypt_outcome, blinded_spec, is_ciphertext, is_log,
    discrete_log_spec, combine_spec, lemma_least_log,
};

verus! {

/// Encryption for a single receiver through the many-receiver operation gives
/// what the one-receiver operation gives from a source in the same state: the
/// same ciphertext, the same randomness, the same refusals, and the same state
/// of the source afterwards.
pub proof fn law_single_receiver(ctx: ContextModel, src: SourceModel, pk: FormModel, m: int)
    ensures
        encrypt_all_outcome(ctx, src, seq![pk], seq![m]) == match encrypt_outcome(ctx, src, pk, m) {
            Ok((ct, r)) => Ok::<(Seq<CiphertextModel>, int), Error>((seq![ct], r)),
            Err(e) => Err(e),
        },
        source_after(src, all_elements(ctx.delta, seq![pk]), ctx.encrypt_randomness_bound)
            == source_after(src, is_element(ctx.delta, pk), ctx.encrypt_randomness_bound),
{
    let pks = seq![pk];
    assert(pks[0] == pk);
    assert(all_elements(ctx.delta, pks) <==> is_element(ctx.delta, pk));
    let r = sample_spec(src, ctx.encrypt_randomness_bound);
    assert(encrypt_all_spec(ctx, pks, seq![m], r) =~= seq![encrypt_spec(ctx, pk, m, r)]);
}

/// The state of a source made from a seed.
pub open spec fn seeded(seed: Seq<u8>) -> SourceModel {
    SourceModel { key: key_spec(seed), counter: 0 }
}

/// The samples that a source in state `src` gives for the bounds `bounds`, one
/// after the other, up to the first that it has to refuse, and the state in
/// which it is left.
pub open spec fn samples_spec(src: SourceModel, bounds: Seq<int>) -> (Seq<int>, SourceModel)
    decreases bounds.len(),
{
    if bounds.len() == 0 {
        (Seq::empty(), src)
    } else {
        let (drawn, state) = samples_spec(src, bounds.drop_last());
        if drawn.len() < bounds.len() - 1 || bounds.last() <= 0 || exhausts(state, bounds.last()) {
            (drawn, state)
        } else {
            (drawn.push(sample_spec(state, bounds.last())), advance_spec(state, bounds.last()))
        }
    }
}

/// Two sources made from one seed give the same samples in the same order, and
/// so the same key pairs and the same ciphertexts.
pub proof fn law_same_seed(
    seed1: Seq<u8>,
    seed2: Seq<u8>,
    bounds: Seq<int>,
    ctx: ContextModel,
    pk: FormModel,
    m: int,
)
    requires
        seed1 == seed2,
    ensures
        samples_spec(seeded(seed1), bounds) == samples_spec(seeded(seed2), bounds),
        keygen_outcome(ctx, seeded(seed1)) == keygen_outcome(ctx, seeded(seed2)),
        encrypt_outcome(ctx, seeded(seed1), pk, m) == encrypt_outcome(ctx, seeded(seed2), pk, m),
{
}

/// The product of copies of an element is an element.
pub proof fn lemma_repeated_is_element(delta: int, base: FormModel, n: nat)
    requires
        is_discriminant(delta),
        is_element(delta, base),
    ensures
        is_element(delta, repeated_spec(delta, base, n)),
    decreases n,
{
    if n == 0 {
        lemma_identity_is_element(delta);
    } else {
        lemma_repeated_is_element(delta, base, (n - 1) as nat);
        law_composition_is_closed(delta, repeated_spec(delta, base, (n - 1) as nat), base);
    }
}

/// The product of `m + n` copies is the product of `m` copies composed with the
/// product of `n` copies.
pub proof fn lemma_repeated_adds(delta: int, base: FormModel, m: nat, n: nat)
    requires
        is_discriminant(delta),
        is_element(delta, base),
    ensures
        repeated_spec(delta, base, m + n) == compose_spec(
            delta,
            repeated_spec(delta, base, m),
            repeated_spec(delta, base, n),
        ),
    decreases n,
{
    let pm = repeated_spec(delta, base, m);
    lemma_repeated_is_element(delta, base, m);
    if n == 0 {
        law_identity_is_neutral(delta, pm);
    } else {
        let pn = repeated_spec(delta, base, (n - 1) as nat);
        lemma_repeated_is_element(delta, base, (n - 1) as nat);
        lemma_repeated_adds(delta, base, m, (n - 1) as nat);
        law_composition_is_associative(delta, pm, pn, base);
        assert(repeated_spec(delta, base, m + n) == compose_spec(
            delta,
            repeated_spec(delta, base, (m + n - 1) as nat),
            base,
        ));
    }
}

/// Squaring and multiplying gives the product of as many copies of the base as
/// the exponent says.
pub proof fn law_power_is_repeated_composition(delta: int, base: FormModel, n: nat)
    requires
        is_discriminant(delta),
        is_element(delta, base),
    ensures
        pow_spec(delta, base, n as int) == repeated_spec(delta, base, n),
        is_element(delta, pow_spec(delta, base, n as int)),
    decreases n,
{
    lemma_repeated_is_element(delta, base, n);
    if n > 0 {
        let h = n / 2;
        law_power_is_repeated_composition(delta, base, h);
        lemma_repeated_adds(delta, base, h, h);
        let q = repeated_spec(delta, base, h + h);
        assert(square_spec(delta, pow_nat_spec(delta, base, h)) == q);
        if n % 2 == 1 {
            assert(n == h + h + 1);
            assert(repeated_spec(delta, base, n) == compose_spec(delta, q, base));
        } else {
            assert(n == h + h);
        }
    }
}


/// The next power of an element is the power composed with the element.
pub proof fn lemma_next_power(delta: int, base: FormModel, n: int)
    requires
        is_discriminant(delta),
        is_element(delta, base),
        n >= 0,
    ensures
        pow_spec(delta, base, n + 1) == compose_spec(delta, pow_spec(delta, base, n), base),
{
    law_power_is_repeated_composition(delta, base, n as nat);
    law_power_is_repeated_composition(delta, base, (n + 1) as nat);
}

/// `(a b) (c d) = (a c) (b d)`.
pub proof fn lemma_interchange(delta: int, a: FormModel, b: FormModel, c: FormModel, d: FormModel)
    requires
        is_element(delta, a),
        is_element(delta, b),
        is_element(delta, c),
        is_element(delta, d),
    ensures
        compose_spec(delta, compose_spec(delta, a, b), compose_spec(delta, c, d)) == compose_spec(
            delta,
            compose_spec(delta, a, c),
            compose_spec(delta, b, d),
        ),
{
    let ab = compose_spec(delta, a, b);
    let cd = compose_spec(delta, c, d);
    let bc = compose_spec(delta, b, c);
    let cb = compose_spec(delta, c, b);
    let bd = compose_spec(delta, b, d);
    let ac = compose_spec(delta, a, c);
    law_composition_is_closed(delta, a, b);
    law_composition_is_closed(delta, c, d);
    law_composition_is_closed(delta, b, c);
    law_composition_is_closed(delta, b, d);
    law_composition_is_closed(delta, a, c);
    // (a b) (c d) = a (b (c d)) = a ((b c) d) = a ((c b) d) = a (c (b d)) = (a c) (b d)
    law_composition_is_associative(delta, a, b, cd);
    law_composition_is_associative(delta, b, c, d);
    law_composition_commutes(delta, b, c);
    law_composition_is_associative(delta, c, b, d);
    law_composition_is_associative(delta, a, c, bd);
}

/// Composing with an element and then with its inverse changes nothing: `(s x)
/// s^-1 = x`.
pub proof fn lemma_cancel(delta: int, s: FormModel, x: FormModel)
    requires
        is_discriminant(delta),
        is_element(delta, s),
        is_element(delta, x),
    ensures
        compose_spec(delta, compose_spec(delta, s, x), inverse_spec(s)) == x,
{
    law_inverse_cancels(delta, s);
    law_composition_commutes(delta, s, x);
    law_composition_is_associative(delta, x, s, inverse_spec(s));
    law_identity_is_neutral(delta, x);
}

/// The powers of the known-order generator below the cleartext bound are
/// pairwise different: the generator has the order of the message space.
pub open spec fn encodes_distinctly(ctx: ContextModel) -> bool {
    forall|j: int, k: int|
        0 <= j < k < ctx.cleartext_bound ==> #[trigger] pow_spec(ctx.delta, ctx.f, j)
            != #[trigger] pow_spec(ctx.delta, ctx.f, k)
}

/// A known-order generator that has the order of the message space
/// encodes different cleartexts differently.
pub proof fn law_order_encodes_distinctly(ctx: ContextModel)
    requires
        is_context(ctx),
        has_message_order(ctx),
    ensures
        encodes_distinctly(ctx),
{
    let delta = ctx.delta;
    assert forall|j: int, k: int| 0 <= j < k < ctx.cleartext_bound implies #[trigger] pow_spec(
        delta,
        ctx.f,
        j,
    ) != #[trigger] pow_spec(delta, ctx.f, k) by {
        let (low, high, step) = (pow_spec(delta, ctx.f, j), pow_spec(delta, ctx.f, k), pow_spec(
            delta,
            ctx.f,
            k - j,
        ));
        if low == high {
            lemma_pow_adds(delta, ctx.f, j, k - j);
            lemma_pow_is_element(delta, ctx.f, j);
            lemma_pow_is_element(delta, ctx.f, k - j);
            lemma_cancel(delta, low, step);
            law_inverse_cancels(delta, low);
            assert(step == identity_spec(delta));
        }
    }
}

/// The sender and the receiver arrive at the same shared element: the public
/// key to the randomness is the mask to the secret key.
pub open spec fn shared_agree(ctx: ContextModel, sk: int, pk: FormModel, r: int) -> bool {
    pow_spec(ctx.delta, pk, r) == pow_spec(ctx.delta, pow_spec(ctx.delta, ctx.f, r), sk)
}

/// Looking up the encoding of a cleartext gives the cleartext back.
pub proof fn lemma_log_of_encoding(ctx: ContextModel, m: int)
    requires
        0 <= m < ctx.cleartext_bound,
        encodes_distinctly(ctx),
    ensures
        discrete_log_spec(ctx, pow_spec(ctx.delta, ctx.f, m)) == Some(m),
{
    let target = pow_spec(ctx.delta, ctx.f, m);
    assert(is_log(ctx, m, target));
    assert forall|k: int| 0 <= k < m implies !is_log(ctx, k, target) by {
        assert(pow_spec(ctx.delta, ctx.f, k) != pow_spec(ctx.delta, ctx.f, m));
    }
    lemma_least_log(ctx, m, target);
}

/// Round trip. With a known-order generator of the order of the message space,
/// decryption gives back the cleartext of every ciphertext for which sender and
/// receiver arrive at the same shared element.
pub proof fn law_round_trip(ctx: ContextModel, sk: int, pk: FormModel, m: int, r: int)
    requires
        is_context(ctx),
        encodes_distinctly(ctx),
        is_element(ctx.delta, pk),
        0 <= m < ctx.cleartext_bound,
        shared_agree(ctx, sk, pk, r),
    ensures
        decrypt_outcome(ctx, sk, encrypt_spec(ctx, pk, m, r)) == Ok::<int, Error>(m),
{
    let delta = ctx.delta;
    let ct = encrypt_spec(ctx, pk, m, r);
    let shared = pow_spec(delta, pk, r);
    let encoded = pow_spec(delta, ctx.f, m);
    lemma_pow_is_element(delta, ctx.f, r);
    lemma_pow_is_element(delta, pk, r);
    lemma_pow_is_element(delta, ctx.f, m);
    law_composition_is_closed(delta, shared, encoded);
    assert(is_ciphertext(ctx, ct));
    lemma_cancel(delta, shared, encoded);
    assert(blinded_spec(ctx, sk, ct) == encoded);
    lemma_log_of_encoding(ctx, m);
}


/// The product of `n` copies of `x y` is the product of `n` copies of `x`
/// composed with the product of `n` copies of `y`.
pub proof fn lemma_repeated_of_product(delta: int, x: FormModel, y: FormModel, n: nat)
    requires
        is_discriminant(delta),
        is_element(delta, x),
        is_element(delta, y),
    ensures
        repeated_spec(delta, compose_spec(delta, x, y), n) == compose_spec(
            delta,
            repeated_spec(delta, x, n),
            repeated_spec(delta, y, n),
        ),
    decreases n,
{
    let xy = compose_spec(delta, x, y);
    law_composition_is_closed(delta, x, y);
    if n == 0 {
        lemma_identity_is_element(delta);
        law_identity_is_neutral(delta, identity_spec(delta));
    } else {
        let k = (n - 1) as nat;
        lemma_repeated_of_product(delta, x, y, k);
        lemma_repeated_is_element(delta, x, k);
        lemma_repeated_is_element(delta, y, k);
        lemma_interchange(delta, repeated_spec(delta, x, k), repeated_spec(delta, y, k), x, y);
    }
}

/// A power of a product to a natural exponent is the product of the powers.
pub proof fn lemma_pow_of_product(delta: int, x: FormModel, y: FormModel, n: int)
    requires
        is_discriminant(delta),
        is_element(delta, x),
        is_element(delta, y),
        n >= 0,
    ensures
        pow_spec(delta, compose_spec(delta, x, y), n) == compose_spec(
            delta,
            pow_spec(delta, x, n),
            pow_spec(delta, y, n),
        ),
{
    law_composition_is_closed(delta, x, y);
    law_power_is_repeated_composition(delta, compose_spec(delta, x, y), n as nat);
    law_power_is_repeated_composition(delta, x, n as nat);
    law_power_is_repeated_composition(delta, y, n as nat);
    lemma_repeated_of_product(delta, x, y, n as nat);
}

/// Powers of one element to natural exponents compose by adding the exponents.
pub proof fn lemma_pow_adds(delta: int, x: FormModel, m: int, n: int)
    requires
        is_discriminant(delta),
        is_element(delta, x),
        m >= 0,
        n >= 0,
    ensures
        compose_spec(delta, pow_spec(delta, x, m), pow_spec(delta, x, n)) == pow_spec(
            delta,
            x,
            m + n,
        ),
{
    law_power_is_repeated_composition(delta, x, m as nat);
    law_power_is_repeated_composition(delta, x, n as nat);
    law_power_is_repeated_composition(delta, x, (m + n) as nat);
    lemma_repeated_adds(delta, x, m as nat, n as nat);
}

/// Homomorphism. With a known-order generator of the order of the message
/// space, the componentwise composition of two ciphertexts under one key
/// decrypts to the sum of the two cleartexts modulo the order of the message
/// space, where for both ciphertexts sender and receiver arrive at the same
/// shared element.
pub proof fn law_homomorphism(
    ctx: ContextModel,
    sk: int,
    pk: FormModel,
    m1: int,
    r1: int,
    m2: int,
    r2: int,
)
    requires
        is_context(ctx),
        has_message_order(ctx),
        is_element(ctx.delta, pk),
        0 <= sk,
        0 <= m1 < ctx.cleartext_bound,
        0 <= m2 < ctx.cleartext_bound,
        shared_agree(ctx, sk, pk, r1),
        shared_agree(ctx, sk, pk, r2),
    ensures
        decrypt_outcome(
            ctx,
            sk,
            combine_spec(ctx, encrypt_spec(ctx, pk, m1, r1), encrypt_spec(ctx, pk, m2, r2)),
        ) == Ok::<int, Error>((m1 + m2) % ctx.cleartext_bound),
{
    let delta = ctx.delta;
    let q = ctx.cleartext_bound;
    law_order_encodes_distinctly(ctx);
    let x = encrypt_spec(ctx, pk, m1, r1);
    let y = encrypt_spec(ctx, pk, m2, r2);
    let sum = combine_spec(ctx, x, y);
    let s1 = pow_spec(delta, pk, r1);
    let s2 = pow_spec(delta, pk, r2);
    let e1 = pow_spec(delta, ctx.f, m1);
    let e2 = pow_spec(delta, ctx.f, m2);
    lemma_pow_is_element(delta, ctx.f, r1);
    lemma_pow_is_element(delta, ctx.f, r2);
    lemma_pow_is_element(delta, pk, r1);
    lemma_pow_is_element(delta, pk, r2);
    lemma_pow_is_element(delta, ctx.f, m1);
    lemma_pow_is_element(delta, ctx.f, m2);
    law_composition_is_closed(delta, s1, e1);
    law_composition_is_closed(delta, s2, e2);
    law_composition_is_closed(delta, x.c1, y.c1);
    law_composition_is_closed(delta, x.c2, y.c2);
    law_composition_is_closed(delta, s1, s2);
    law_composition_is_closed(delta, e1, e2);
    assert(is_ciphertext(ctx, sum));
    // the mask of the sum to the secret key is the product of the shared elements
    lemma_pow_of_product(delta, x.c1, y.c1, sk);
    assert(pow_spec(delta, sum.c1, sk) == compose_spec(delta, s1, s2));
    // the blinded sum is the product of the shared elements and of the encodings
    lemma_interchange(delta, s1, e1, s2, e2);
    lemma_cancel(delta, compose_spec(delta, s1, s2), compose_spec(delta, e1, e2));
    assert(blinded_spec(ctx, sk, sum) == compose_spec(delta, e1, e2));
    // the product of the encodings is the encoding of the sum
    lemma_pow_adds(delta, ctx.f, m1, m2);
    if m1 + m2 < q {
        assert((m1 + m2) % q == m1 + m2) by (nonlinear_arith)
            requires
                0 <= m1 + m2 < q,
        ;
    } else {
        let t = m1 + m2 - q;
        assert((m1 + m2) % q == t) by (nonlinear_arith)
            requires
                t == m1 + m2 - q,
                0 <= t < q,
        ;
        lemma_pow_adds(delta, ctx.f, q, t);
        lemma_pow_is_element(delta, ctx.f, t);
        law_identity_is_neutral(delta, pow_spec(delta, ctx.f, t));
    }
    lemma_log_of_encoding(ctx, (m1 + m2) % q);
}


/// The product of `b` copies of the product of `a` copies is the product of `a
/// b` copies.
pub proof fn lemma_repeated_of_repeated(delta: int, x: FormModel, a: nat, b: nat)
    requires
        is_discriminant(delta),
        is_element(delta, x),
    ensures
        repeated_spec(delta, repeated_spec(delta, x, a), b) == repeated_spec(delta, x, a * b),
    decreases b,
{
    if b == 0 {
        assert(a * b == 0) by (nonlinear_arith)
            requires
                b == 0,
        ;
    } else {
        let k = (b - 1) as nat;
        lemma_repeated_of_repeated(delta, x, a, k);
        lemma_repeated_adds(delta, x, a * k, a);
        assert(a * k + a == a * b) by (nonlinear_arith)
            requires
                k == b - 1,
        ;
    }
}

/// A power of a power to natural exponents is the power to the product of the
/// exponents.
pub proof fn lemma_pow_of_pow(delta: int, x: FormModel, a: int, b: int)
    requires
        is_discriminant(delta),
        is_element(delta, x),
        a >= 0,
        b >= 0,
    ensures
        a * b >= 0,
        pow_spec(delta, pow_spec(delta, x, a), b) == pow_spec(delta, x, a * b),
{
    assert(a * b >= 0) by (nonlinear_arith)
        requires
            a >= 0,
            b >= 0,
    ;
    law_power_is_repeated_composition(delta, x, a as nat);
    law_power_is_repeated_composition(delta, pow_spec(delta, x, a), b as nat);
    law_power_is_repeated_composition(delta, x, (a * b) as nat);
    lemma_repeated_of_repeated(delta, x, a as nat, b as nat);
}

/// Sender and receiver arrive at the same shared element for every key pair and
/// every randomness that are not negative, where the two generators of the
/// context are one and the same.
pub proof fn law_shared_element_agrees(ctx: ContextModel, sk: int, r: int)
    requires
        is_context(ctx),
        ctx.h == ctx.f,
        sk >= 0,
        r >= 0,
    ensures
        shared_agree(ctx, sk, pow_spec(ctx.delta, ctx.h, sk), r),
{
    lemma_pow_of_pow(ctx.delta, ctx.f, sk, r);
    lemma_pow_of_pow(ctx.delta, ctx.f, r, sk);
    assert(sk * r == r * sk) by (nonlinear_arith);
}

/// The product of elements is an element.
pub proof fn lemma_product_is_element(delta: int, s: Seq<FormModel>)
    requires
        is_discriminant(delta),
        all_elements(delta, s),
    ensures
        is_element(delta, product_spec(delta, s)),
    decreases s.len(),
{
    if s.len() == 0 {
        lemma_identity_is_element(delta);
    } else {
        assert(all_elements(delta, s.drop_last())) by {
            assert forall|i: int| 0 <= i < s.drop_last().len() implies is_element(
                delta,
                #[trigger] s.drop_last()[i],
            ) by {
                assert(s.drop_last()[i] == s[i]);
            }
        }
        lemma_product_is_element(delta, s.drop_last());
        assert(is_element(delta, s[s.len() - 1]));
        law_composition_is_closed(delta, product_spec(delta, s.drop_last()), s.last());
    }
}

/// The compositions of two sequences of forms, position by position.
pub open spec fn pairwise(delta: int, y: Seq<FormModel>, z: Seq<FormModel>) -> Seq<FormModel> {
    Seq::new(y.len(), |i: int| compose_spec(delta, y[i], z[i]))
}

proof fn lemma_drop_last_elements(delta: int, s: Seq<FormModel>)
    requires
        all_elements(delta, s),
        s.len() > 0,
    ensures
        all_elements(delta, s.drop_last()),
        is_element(delta, s.last()),
{
    assert forall|i: int| 0 <= i < s.drop_last().len() implies is_element(
        delta,
        #[trigger] s.drop_last()[i],
    ) by {
        assert(s.drop_last()[i] == s[i]);
    }
    assert(is_element(delta, s[s.len() - 1]));
}

/// The product of the pairwise compositions is the composition of the two
/// products.
pub proof fn lemma_product_pairwise(delta: int, y: Seq<FormModel>, z: Seq<FormModel>)
    requires
        is_discriminant(delta),
        y.len() == z.len(),
        all_elements(delta, y),
        all_elements(delta, z),
    ensures
        product_spec(delta, pairwise(delta, y, z)) == compose_spec(
            delta,
            product_spec(delta, y),
            product_spec(delta, z),
        ),
    decreases y.len(),
{
    if y.len() == 0 {
        lemma_identity_is_element(delta);
        law_identity_is_neutral(delta, identity_spec(delta));
    } else {
        lemma_drop_last_elements(delta, y);
        lemma_drop_last_elements(delta, z);
        lemma_product_pairwise(delta, y.drop_last(), z.drop_last());
        assert(pairwise(delta, y, z).drop_last() =~= pairwise(delta, y.drop_last(), z.drop_last()));
        lemma_product_is_element(delta, y.drop_last());
        lemma_product_is_element(delta, z.drop_last());
        lemma_interchange(
            delta,
            product_spec(delta, y.drop_last()),
            product_spec(delta, z.drop_last()),
            y.last(),
            z.last(),
        );
    }
}

/// The bases whose exponent is odd, with the principal form in the place of the
/// others.
pub open spec fn odd_bases(delta: int, bases: Seq<FormModel>, exps: Seq<nat>) -> Seq<FormModel> {
    Seq::new(
        bases.len(),
        |i: int| if exps[i] % 2 == 1 { bases[i] } else { identity_spec(delta) },
    )
}

/// Composing the bases with odd exponent onto an element, one after the other,
/// composes their product onto it.
proof fn lemma_multiply_odd_is_product(
    delta: int,
    acc: FormModel,
    bases: Seq<FormModel>,
    exps: Seq<nat>,
    k: nat,
)
    requires
        is_discriminant(delta),
        is_element(delta, acc),
        all_elements(delta, bases),
        bases.len() == exps.len(),
        k <= bases.len(),
    ensures
        crate::group::multiply_odd(delta, acc, bases, exps, k) == compose_spec(
            delta,
            acc,
            product_spec(delta, odd_bases(delta, bases, exps).take(k as int)),
        ),
    decreases k,
{
    let odd = odd_bases(delta, bases, exps);
    lemma_identity_is_element(delta);
    assert(all_elements(delta, odd));
    if k == 0 {
        assert(odd.take(0) =~= Seq::<FormModel>::empty());
        law_identity_is_neutral(delta, acc);
    } else {
        let j = (k - 1) as nat;
        lemma_multiply_odd_is_product(delta, acc, bases, exps, j);
        assert(odd.take(k as int).drop_last() =~= odd.take(j as int));
        let before = product_spec(delta, odd.take(j as int));
        assert(all_elements(delta, odd.take(j as int)));
        lemma_product_is_element(delta, odd.take(j as int));
        assert(is_element(delta, odd[j as int]));
        assert(is_element(delta, bases[j as int]));
        law_composition_is_associative(delta, acc, before, odd[j as int]);
        law_composition_is_closed(delta, acc, before);
        law_identity_is_neutral(delta, compose_spec(delta, acc, before));
    }
}


/// The powers of the bases to their natural exponents, one for one.
pub open spec fn nat_powers(delta: int, bases: Seq<FormModel>, exps: Seq<nat>) -> Seq<FormModel> {
    Seq::new(bases.len(), |i: int| pow_nat_spec(delta, bases[i], exps[i]))
}

/// A product of principal forms is the principal form.
proof fn lemma_product_of_identities(delta: int, s: Seq<FormModel>)
    requires
        is_discriminant(delta),
        forall|i: int| 0 <= i < s.len() ==> s[i] == identity_spec(delta),
    ensures
        product_spec(delta, s) == identity_spec(delta),
    decreases s.len(),
{
    if s.len() > 0 {
        lemma_product_of_identities(delta, s.drop_last());
        lemma_identity_is_element(delta);
        law_identity_is_neutral(delta, identity_spec(delta));
    }
}

/// Reading the digits of all exponents together gives the product of the
/// powers.
pub proof fn lemma_multi_pow_is_product(delta: int, bases: Seq<FormModel>, exps: Seq<nat>)
    requires
        is_discriminant(delta),
        all_elements(delta, bases),
        bases.len() == exps.len(),
    ensures
        multi_pow_nat_spec(delta, bases, exps) == product_spec(delta, nat_powers(delta, bases, exps)),
    decreases crate::group::seq_total(exps),
{
    let id = identity_spec(delta);
    let powers = nat_powers(delta, bases, exps);
    lemma_identity_is_element(delta);
    if crate::group::all_zero(exps) {
        assert forall|i: int| 0 <= i < powers.len() implies powers[i] == id by {
            assert(exps[i] == 0);
        }
        lemma_product_of_identities(delta, powers);
    } else {
        let half = crate::group::halves(exps);
        crate::group::lemma_halves_total(exps);
        lemma_multi_pow_is_product(delta, bases, half);
        let hp = nat_powers(delta, bases, half);
        assert forall|i: int| 0 <= i < hp.len() implies is_element(delta, #[trigger] hp[i]) by {
            assert(is_element(delta, bases[i]));
            lemma_pow_is_element(delta, bases[i], half[i] as int);
        }
        let h = product_spec(delta, hp);
        lemma_product_is_element(delta, hp);
        law_composition_is_closed(delta, h, h);
        // the squared product is the product of the squares
        let squares = pairwise(delta, hp, hp);
        lemma_product_pairwise(delta, hp, hp);
        assert forall|i: int| 0 <= i < squares.len() implies is_element(
            delta,
            #[trigger] squares[i],
        ) by {
            assert(is_element(delta, hp[i]));
            law_composition_is_closed(delta, hp[i], hp[i]);
        }
        // composing the odd bases onto it composes their product
        let odd = odd_bases(delta, bases, exps);
        lemma_multiply_odd_is_product(delta, square_spec(delta, h), bases, exps, bases.len());
        assert(odd.take(bases.len() as int) =~= odd);
        assert forall|i: int| 0 <= i < odd.len() implies is_element(delta, #[trigger] odd[i]) by {
            assert(is_element(delta, bases[i]));
        }
        lemma_product_pairwise(delta, squares, odd);
        // position by position, this is the power
        assert forall|i: int| 0 <= i < powers.len() implies pairwise(delta, squares, odd)[i]
            == powers[i] by {
            assert(is_element(delta, squares[i]));
            assert(half[i] == exps[i] / 2);
            law_identity_is_neutral(delta, squares[i]);
            law_identity_is_neutral(delta, id);
        }
        assert(pairwise(delta, squares, odd) =~= powers);
    }
}

/// Multi-exponentiation. The digits of all scalars read together give the
/// product of the powers of the bases to their scalars, composed one after the
/// other.
pub proof fn law_multi_exp_is_product(delta: int, bases: Seq<FormModel>, scalars: Seq<int>)
    requires
        is_discriminant(delta),
        all_elements(delta, bases),
        bases.len() == scalars.len(),
    ensures
        multi_exp_spec(delta, bases, scalars) == product_spec(
            delta,
            powers_spec(delta, bases, scalars),
        ),
{
    let signed = signed_bases(bases, scalars);
    let sizes = magnitudes(scalars);
    assert forall|i: int| 0 <= i < signed.len() implies is_element(delta, #[trigger] signed[i]) by {
        assert(is_element(delta, bases[i]));
        law_inverse_cancels(delta, bases[i]);
    }
    lemma_multi_pow_is_product(delta, signed, sizes);
    assert(nat_powers(delta, signed, sizes) =~= powers_spec(delta, bases, scalars));
}

} // verus!
