//! Composition is associative. The proof follows the classical way: every
//! class has representatives with leading coefficients prime to each other
//! and with one middle coefficient; on such representatives composition
//! multiplies the leading coefficients and keeps the middle one; and
//! composition depends on the classes of its operands only.

use vstd::prelude::*;
use crate::form::{
    FormModel, discriminant, is_element, precedes, compose_spec, reduce_spec,
    unite_arguments, xgcd_spec, lemma_xgcd_unit, lemma_reduce, lemma_reduced_negative,
    lemma_same_parity,
};
use crate::united::{
    transform, is_equivalent, lemma_union, lemma_union_primitive, lemma_reduce_primitive,
    law_reduce_stays_in_class, law_equivalent_transitive, law_equivalent_symmetric,
    lemma_unit_values,
};
use crate::composite::{is_proper, law_composition_of_classes, lemma_transform_proper};
use crate::representative::{
    is_coprime, law_representative_prime_to, lemma_coprime_gcd, lemma_coprime_symmetric,
    lemma_coprime_factor, lemma_coprime_product, lemma_linear_congruence, lemma_divides_quotient,
};

verus! {

/// An element of the group is a proper form.
pub proof fn lemma_element_is_proper(delta: int, x: FormModel)
    requires
        is_element(delta, x),
    ensures
        is_proper(delta, x),
{
    lemma_reduced_negative(x);
}

/// The reduced form of a proper form is an element of its class.
pub proof fn lemma_reduced_proper(delta: int, f: FormModel)
    requires
        is_proper(delta, f),
    ensures
        is_element(delta, reduce_spec(f)),
        is_proper(delta, reduce_spec(f)),
        is_equivalent(f, reduce_spec(f)),
{
    lemma_reduce(f);
    lemma_reduce_primitive(f);
    law_reduce_stays_in_class(f);
}

/// On two proper forms with one middle coefficient and with leading
/// coefficients prime to each other, composition multiplies the leading
/// coefficients and keeps the middle one: it reduces the proper form that
/// this lemma returns.
pub proof fn lemma_concordant(delta: int, f1: FormModel, f2: FormModel) -> (u: FormModel)
    requires
        is_proper(delta, f1),
        is_proper(delta, f2),
        f1.b == f2.b,
        is_coprime(f1.a, f2.a),
    ensures
        is_proper(delta, u),
        u.a == f1.a * f2.a,
        u.b == f1.b,
        compose_spec(delta, f1, f2) == reduce_spec(u),
{
    let (g1, g2) = if precedes(f1, f2) {
        (f1, f2)
    } else {
        (f2, f1)
    };
    lemma_coprime_symmetric(f1.a, f2.a);
    lemma_coprime_gcd(g2.a, g1.a);
    let b = f1.b;
    let s = (g1.b + g2.b) / 2;
    assert(s == b);
    let n = g2.b - s;
    let (d, y1, w) = xgcd_spec(g2.a, g1.a);
    lemma_xgcd_unit(s);
    let t = (y1 * (-1int)) * n - 0 * g2.c;
    assert(t == 0) by (nonlinear_arith)
        requires
            t == (y1 * (-1int)) * n - 0 * g2.c,
            n == 0,
    ;
    assert(unite_arguments(g1, g2) == (1int, t));
    let un = lemma_union(delta, g1, g2);
    lemma_union_primitive(delta, g1, g2, un);
    let u = un.form;
    assert(g1.a / 1 == g1.a && g2.a / 1 == g2.a);
    let r = 0int % g1.a;
    assert(r == 0);
    assert(u.b == b) by (nonlinear_arith)
        requires
            u.b == g2.b + (2 * g2.a) * r,
            r == 0,
            g2.b == b,
    ;
    assert(g1.a * g2.a == f1.a * f2.a) by (nonlinear_arith)
        requires
            (g1.a == f1.a && g2.a == f2.a) || (g1.a == f2.a && g2.a == f1.a),
    ;
    assert(u.a > 0) by (nonlinear_arith)
        requires
            u.a == g1.a * g2.a,
            g1.a > 0,
            g2.a > 0,
    ;
    u
}

/// Moving a proper form to a middle coefficient that differs from its own
/// by a multiple of twice the leading coefficient gives an equivalent
/// proper form with the same leading coefficient.
proof fn lemma_move(delta: int, f: FormModel, k: int) -> (g: FormModel)
    requires
        is_proper(delta, f),
    ensures
        is_proper(delta, g),
        is_equivalent(f, g),
        g.a == f.a,
        g.b == f.b + 2 * (f.a * k),
{
    let g = transform(f, 1, k, 0, 1);
    assert(1int * 1 - k * 0 == 1) by (nonlinear_arith);
    lemma_transform_proper(delta, f, 1, k, 0, 1);
    lemma_unit_values(f);
    assert(g.b == f.b + 2 * (f.a * k)) by (nonlinear_arith)
        requires
            g.b == 2 * (f.a * (1 * k)) + f.b * (1 * 1 + k * 0) + 2 * (f.c * (0int * 1)),
    ;
    g
}

/// Two proper forms of one discriminant with the same leading and middle
/// coefficients are equal.
proof fn lemma_proper_by_two(delta: int, f: FormModel, g: FormModel)
    requires
        is_proper(delta, f),
        is_proper(delta, g),
        f.a == g.a,
        f.b == g.b,
    ensures
        f == g,
{
    let (a, b, c, e) = (f.a, f.b, f.c, g.c);
    assert(c == e) by (nonlinear_arith)
        requires
            a > 0,
            b * b - 4 * a * c == b * b - 4 * a * e,
    ;
}

/// Three classes have representatives with one middle coefficient and with
/// leading coefficients prime to each other, two by two.
proof fn lemma_concordant_triple(delta: int, x: FormModel, y: FormModel, z: FormModel) -> (r: (
    FormModel,
    FormModel,
    FormModel,
))
    requires
        is_proper(delta, x),
        is_proper(delta, y),
        is_proper(delta, z),
    ensures
        is_proper(delta, r.0),
        is_proper(delta, r.1),
        is_proper(delta, r.2),
        is_equivalent(x, r.0),
        is_equivalent(y, r.1),
        is_equivalent(z, r.2),
        r.0.b == r.1.b,
        r.1.b == r.2.b,
        is_coprime(r.0.a, r.1.a),
        is_coprime(r.0.a * r.1.a, r.2.a),
        is_coprime(r.1.a, r.2.a),
        is_coprime(r.0.a, r.1.a * r.2.a),
{
    // leading coefficients prime to each other
    let y1 = law_representative_prime_to(delta, y, x.a);
    let (a1, a2) = (x.a, y1.a);
    let a12 = a1 * a2;
    assert(a12 >= 1) by (nonlinear_arith)
        requires
            a12 == a1 * a2,
            a1 >= 1,
            a2 >= 1,
    ;
    let z1 = law_representative_prime_to(delta, z, a12);
    let a3 = z1.a;
    lemma_coprime_symmetric(a2, a1);
    lemma_coprime_symmetric(a3, a12);
    lemma_coprime_factor(a1, a2, a3);
    lemma_coprime_symmetric(a1, a3);
    lemma_coprime_product(a2, a3, a1);
    lemma_coprime_symmetric(a2 * a3, a1);
    // one middle coefficient
    lemma_same_parity(delta, x, y1);
    lemma_same_parity(delta, x, z1);
    let h2 = (y1.b - x.b) / 2;
    assert(2 * h2 == y1.b - x.b);
    let k1 = lemma_linear_congruence(a1, a2, h2);
    let e2 = lemma_divides_quotient(a2, a1 * k1 - h2);
    let b2 = x.b + 2 * (a1 * k1);
    let h3 = (z1.b - b2) / 2;
    assert(2 * h3 == z1.b - b2);
    let j = lemma_linear_congruence(a12, a3, h3);
    let e3 = lemma_divides_quotient(a3, a12 * j - h3);
    let b = b2 + 2 * (a12 * j);
    // the three moves
    let k0 = k1 + a2 * j;
    let x2 = lemma_move(delta, x, k0);
    assert(a1 * k0 == a1 * k1 + a12 * j) by (nonlinear_arith)
        requires
            k0 == k1 + a2 * j,
            a12 == a1 * a2,
    ;
    assert(x2.b == b);
    let m2 = e2 + a1 * j;
    let y2 = lemma_move(delta, y1, m2);
    assert(a2 * m2 == a2 * e2 + a12 * j) by (nonlinear_arith)
        requires
            m2 == e2 + a1 * j,
            a12 == a1 * a2,
    ;
    assert(y2.b == b);
    let z2 = lemma_move(delta, z1, e3);
    assert(z2.b == b);
    law_equivalent_transitive(y, y1, y2);
    law_equivalent_transitive(z, z1, z2);
    (x2, y2, z2)
}

/// Composition is associative on proper forms.
proof fn lemma_associative_proper(delta: int, x: FormModel, y: FormModel, z: FormModel)
    requires
        is_proper(delta, x),
        is_proper(delta, y),
        is_proper(delta, z),
    ensures
        compose_spec(delta, compose_spec(delta, x, y), z) == compose_spec(
            delta,
            x,
            compose_spec(delta, y, z),
        ),
{
    let (x2, y2, z2) = lemma_concordant_triple(delta, x, y, z);
    // the first two, then the third
    let u12 = lemma_concordant(delta, x2, y2);
    let left = lemma_concordant(delta, u12, z2);
    law_composition_of_classes(delta, x, x2, y, y2);
    lemma_reduced_proper(delta, u12);
    law_equivalent_symmetric(u12, reduce_spec(u12));
    law_composition_of_classes(delta, reduce_spec(u12), u12, z, z2);
    // the last two, then the first
    let u23 = lemma_concordant(delta, y2, z2);
    let right = lemma_concordant(delta, x2, u23);
    law_composition_of_classes(delta, y, y2, z, z2);
    lemma_reduced_proper(delta, u23);
    law_equivalent_symmetric(u23, reduce_spec(u23));
    law_composition_of_classes(delta, x, x2, reduce_spec(u23), u23);
    // both ways lead to one form
    let (a1, a2, a3) = (x2.a, y2.a, z2.a);
    assert((a1 * a2) * a3 == a1 * (a2 * a3)) by (nonlinear_arith);
    lemma_proper_by_two(delta, left, right);
}

/// Composition is associative: for all elements `x`, `y` and `z` of one
/// group, `(x y) z = x (y z)`.
pub proof fn law_composition_is_associative(delta: int, x: FormModel, y: FormModel, z: FormModel)
    requires
        is_element(delta, x),
        is_element(delta, y),
        is_element(delta, z),
    ensures
        compose_spec(delta, compose_spec(delta, x, y), z) == compose_spec(
            delta,
            x,
            compose_spec(delta, y, z),
        ),
{
    lemma_element_is_proper(delta, x);
    lemma_element_is_proper(delta, y);
    lemma_element_is_proper(delta, z);
    lemma_associative_proper(delta, x, y, z);
}

} // verus!
