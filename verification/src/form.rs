//! Binary quadratic forms of negative discriminant, the elements of a class
//! group: reduction, composition, duplication, inversion and equality.

use vstd::prelude::*;
use vstd::arithmetic::div_mod::{lemma_fundamental_div_mod, lemma_mod_bound};
use crate::bigint::{BigInt, abs};
use crate::error::Error;
use crate::natural::{Sign};

verus! {

/// The coefficients `(a, b, c)` of the form `a x^2 + b x y + c y^2`.
pub struct FormModel {
    pub a: int,
    pub b: int,
    pub c: int,
}

/// The discriminant `b^2 - 4 a c`.
pub open spec fn discriminant(f: FormModel) -> int {
    f.b * f.b - 4 * f.a * f.c
}

/// A negative integer that is 0 or 1 modulo 4.
pub open spec fn is_discriminant(delta: int) -> bool {
    delta < 0 && (delta % 4 == 0 || delta % 4 == 1)
}

/// The canonical representative of a class: `|b| <= a <= c`, with `b >= 0`
/// where one of the two bounds is met.
pub open spec fn is_reduced(f: FormModel) -> bool {
    &&& f.a > 0
    &&& -f.a < f.b <= f.a
    &&& f.a <= f.c
    &&& (f.a == f.c ==> f.b >= 0)
}

/// A reduced form of discriminant `delta`: what every operation returns.
pub open spec fn is_form(delta: int, f: FormModel) -> bool {
    discriminant(f) == delta && is_reduced(f)
}

/// No integer above one divides all three coefficients.
pub open spec fn is_primitive(f: FormModel) -> bool {
    forall|k: int| k > 1 ==> !(#[trigger] (f.a % k) == 0 && f.b % k == 0 && f.c % k == 0)
}

/// An element of the class group of discriminant `delta`: a reduced
/// primitive form of that discriminant. This is what every public
/// operation asks of the elements it is given.
pub open spec fn is_element(delta: int, f: FormModel) -> bool {
    is_form(delta, f) && is_primitive(f)
}

/// The greatest common divisor of the three coefficients.
pub open spec fn content(f: FormModel) -> int {
    xgcd_spec(xgcd_spec(f.a, f.b).0, f.c).0
}

/// The equivalent form with the same `a` and with `b` in `(-a, a]`.
pub open spec fn normalize_spec(f: FormModel) -> FormModel {
    let k = (f.a - f.b) / (2 * f.a);
    FormModel { a: f.a, b: f.b + (2 * f.a) * k, c: (f.a * k + f.b) * k + f.c }
}

/// Gauss reduction: normalize, and while `a > c` exchange the outer
/// coefficients, negate `b` and normalize again.
pub open spec fn reduce_spec(f: FormModel) -> FormModel
    decreases f.a,
{
    if f.a <= 0 {
        f
    } else {
        let n = normalize_spec(f);
        if n.a > n.c && n.c > 0 {
            reduce_spec(FormModel { a: n.c, b: -n.b, c: n.a })
        } else if n.a == n.c && n.b < 0 {
            FormModel { a: n.a, b: -n.b, c: n.c }
        } else {
            n
        }
    }
}

/// The extended Euclidean algorithm: `(g, u, v)` with `g = gcd(a, b) >= 0`
/// and `u a + v b = g`.
pub open spec fn xgcd_spec(a: int, b: int) -> (int, int, int)
    decreases abs(b),
{
    if b == 0 {
        if a >= 0 {
            (a, 1, 0)
        } else {
            (-a, -1, 0)
        }
    } else {
        let (g, u, v) = xgcd_spec(b, a % b);
        (g, v, u - (a / b) * v)
    }
}

/// The extended Euclidean algorithm gives a combination of the two numbers
/// that is not negative, and that is zero only where both numbers are.
pub proof fn lemma_xgcd(a: int, b: int)
    ensures
        ({
            let (g, u, v) = xgcd_spec(a, b);
            &&& g >= 0
            &&& u * a + v * b == g
            &&& (g == 0 <==> a == 0 && b == 0)
        }),
    decreases abs(b),
{
    if b != 0 {
        lemma_fundamental_div_mod(a, b);
        let q = a / b;
        let m = a % b;
        assert(0 <= m < abs(b)) by (nonlinear_arith)
            requires
                b != 0,
                m == a % b,
        ;
        lemma_xgcd(b, m);
        let (g, u, v) = xgcd_spec(b, m);
        assert(v * a + (u - q * v) * b == u * b + v * m) by (nonlinear_arith)
            requires
                a == b * q + m,
        ;
    }
}

/// Normalizing keeps the leading coefficient and the discriminant, brings
/// the middle coefficient into `(-a, a]`, and leaves a form alone whose
/// middle coefficient is there.
pub proof fn lemma_normalize(f: FormModel)
    requires
        f.a > 0,
    ensures
        normalize_spec(f).a == f.a,
        -f.a < normalize_spec(f).b <= f.a,
        discriminant(normalize_spec(f)) == discriminant(f),
        -f.a < f.b <= f.a ==> normalize_spec(f) == f,
{
    let m = 2 * f.a;
    let k = (f.a - f.b) / m;
    lemma_fundamental_div_mod(f.a - f.b, m);
    lemma_mod_bound(f.a - f.b, m);
    let (a, b, c) = (f.a, f.b, f.c);
    assert((b + (2 * a) * k) * (b + (2 * a) * k) - 4 * a * ((a * k + b) * k + c) == b * b - 4 * a
        * c) by (nonlinear_arith);
    if -f.a < f.b <= f.a {
        assert(k == 0) by (nonlinear_arith)
            requires
                0 <= a - b < m,
                m > 0,
                k == (a - b) / m,
        ;
        assert((2 * a) * k == 0 && (a * k + b) * k == 0) by (nonlinear_arith)
            requires
                k == 0,
        ;
    }
}

/// In a form of negative discriminant the outer coefficients have one sign.
pub proof fn lemma_positive_definite(f: FormModel)
    requires
        f.a > 0,
        discriminant(f) < 0,
    ensures
        f.c > 0,
{
    let (a, b, c) = (f.a, f.b, f.c);
    assert(c > 0) by (nonlinear_arith)
        requires
            a > 0,
            b * b - 4 * a * c < 0,
    ;
}

/// Reduction arrives at the reduced form of the same discriminant, and
/// leaves a reduced form as it is.
pub proof fn lemma_reduce(f: FormModel)
    requires
        f.a > 0,
        discriminant(f) < 0,
    ensures
        is_form(discriminant(f), reduce_spec(f)),
        is_reduced(f) ==> reduce_spec(f) == f,
    decreases f.a,
{
    lemma_normalize(f);
    let n = normalize_spec(f);
    lemma_positive_definite(n);
    if n.a > n.c {
        let s = FormModel { a: n.c, b: -n.b, c: n.a };
        assert(discriminant(s) == discriminant(n)) by (nonlinear_arith)
            requires
                s.a == n.c,
                s.b == -n.b,
                s.c == n.a,
        ;
        lemma_reduce(s);
    } else if n.a == n.c && n.b < 0 {
        let s = FormModel { a: n.a, b: -n.b, c: n.c };
        assert(discriminant(s) == discriminant(n)) by (nonlinear_arith)
            requires
                s.a == n.a,
                s.b == -n.b,
                s.c == n.c,
        ;
    }
}

/// A common divisor of two numbers divides every combination of them.
pub proof fn lemma_divides_combination(k: int, x: int, y: int, u: int, v: int)
    requires
        k > 0,
        x % k == 0,
        y % k == 0,
    ensures
        (u * x + v * y) % k == 0,
{
    lemma_fundamental_div_mod(x, k);
    lemma_fundamental_div_mod(y, k);
    let (p, q) = (x / k, y / k);
    assert(u * x + v * y == (u * p + v * q) * k) by (nonlinear_arith)
        requires
            x == k * p,
            y == k * q,
    ;
    vstd::arithmetic::div_mod::lemma_mod_multiples_basic(u * p + v * q, k);
}

/// Divisibility passes along: a divisor of a divisor divides.
pub proof fn lemma_divides_transitive(k: int, g: int, x: int)
    requires
        k > 0,
        g > 0,
        g % k == 0,
        x % g == 0,
    ensures
        x % k == 0,
{
    lemma_fundamental_div_mod(x, g);
    lemma_divides_combination(k, g, g, x / g, 0);
    let q = x / g;
    assert(q * g + 0 * g == x) by (nonlinear_arith)
        requires
            x == g * q,
    ;
}

/// A form is primitive exactly where the greatest common divisor of its
/// coefficients is one.
pub proof fn lemma_content(f: FormModel)
    ensures
        is_primitive(f) <==> content(f) == 1,
{
    let (g1, u1, v1) = xgcd_spec(f.a, f.b);
    let (g, u, v) = xgcd_spec(g1, f.c);
    lemma_xgcd(f.a, f.b);
    lemma_xgcd_divides(f.a, f.b);
    lemma_xgcd(g1, f.c);
    lemma_xgcd_divides(g1, f.c);
    if g == 1 {
        assert forall|k: int| k > 1 implies !(#[trigger] (f.a % k) == 0 && f.b % k == 0 && f.c % k
            == 0) by {
            if f.a % k == 0 && f.b % k == 0 && f.c % k == 0 {
                lemma_divides_combination(k, f.a, f.b, u1, v1);
                lemma_divides_combination(k, g1, f.c, u, v);
                lemma_fundamental_div_mod(1, k);
                let q = 1int / k;
                assert(false) by (nonlinear_arith)
                    requires
                        1 == k * q,
                        k > 1,
                ;
            }
        }
    } else if g == 0 {
        assert(f.a % 2 == 0 && f.b % 2 == 0 && f.c % 2 == 0);
    } else {
        if g1 > 0 {
            lemma_divides_transitive(g, g1, f.a);
            lemma_divides_transitive(g, g1, f.b);
        }
        assert(f.a % g == 0 && f.b % g == 0 && f.c % g == 0);
    }
}

/// A reduced form has negative discriminant.
pub proof fn lemma_reduced_negative(f: FormModel)
    requires
        is_reduced(f),
    ensures
        discriminant(f) < 0,
{
    let (a, b, c) = (f.a, f.b, f.c);
    assert(b * b - 4 * a * c < 0) by (nonlinear_arith)
        requires
            a > 0,
            -a < b <= a,
            a <= c,
    ;
}

/// The discriminant of a reduced form is a negative integer that is 0 or 1
/// modulo 4.
pub proof fn lemma_form_discriminant(delta: int, f: FormModel)
    requires
        is_form(delta, f),
    ensures
        is_discriminant(delta),
{
    lemma_reduced_negative(f);
    let (b, t) = (f.b, f.a * f.c);
    let r = b % 2;
    let q = b / 2;
    assert(b * b == 4 * (q * q + q * r) + r * r) by (nonlinear_arith)
        requires
            b == 2 * q + r,
    ;
    assert(r * r == r) by (nonlinear_arith)
        requires
            r == 0 || r == 1,
    ;
    assert(4 * f.a * f.c == 4 * t) by (nonlinear_arith)
        requires
            t == f.a * f.c,
    ;
}

/// Two reduced forms of one discriminant that share `a` and `b` are equal.
pub proof fn lemma_form_by_two(delta: int, x: FormModel, y: FormModel)
    requires
        is_form(delta, x),
        is_form(delta, y),
        x.a == y.a,
        x.b == y.b,
    ensures
        x == y,
{
    let (a, b, c, e) = (x.a, x.b, x.c, y.c);
    assert(c == e) by (nonlinear_arith)
        requires
            a > 0,
            b * b - 4 * a * c == b * b - 4 * a * e,
    ;
}

/// The principal form of discriminant `delta`, the neutral element.
pub open spec fn identity_spec(delta: int) -> FormModel {
    FormModel { a: 1, b: delta % 2, c: (delta % 2 - delta) / 4 }
}

/// The principal form is a reduced form of the discriminant.
pub proof fn lemma_identity_is_form(delta: int)
    requires
        is_discriminant(delta),
    ensures
        is_form(delta, identity_spec(delta)),
{
    let b = delta % 2;
    let c = (b - delta) / 4;
    assert(b == 0 || b == 1);
    assert(b * b == b) by (nonlinear_arith)
        requires
            b == 0 || b == 1,
    ;
    assert((b - delta) % 4 == 0);
    assert(4 * c == b - delta);
    assert(c >= 1);
    assert(4 * 1 * c == 4 * c);
}

/// The principal form is an element of the group.
pub proof fn lemma_identity_is_element(delta: int)
    requires
        is_discriminant(delta),
    ensures
        is_element(delta, identity_spec(delta)),
{
    lemma_identity_is_form(delta);
    let id = identity_spec(delta);
    assert forall|k: int| k > 1 implies !(#[trigger] (id.a % k) == 0 && id.b % k == 0 && id.c % k
        == 0) by {
        vstd::arithmetic::div_mod::lemma_small_mod(1, k as nat);
    }
}

/// The form with `b` negated, reduced: the inverse in the class group.
pub open spec fn inverse_spec(f: FormModel) -> FormModel {
    reduce_spec(FormModel { a: f.a, b: -f.b, c: f.c })
}

/// The inverse of a reduced form of the discriminant is one.
pub proof fn lemma_inverse_is_form(delta: int, f: FormModel)
    requires
        is_form(delta, f),
    ensures
        is_form(delta, inverse_spec(f)),
{
    let g = FormModel { a: f.a, b: -f.b, c: f.c };
    lemma_reduced_negative(f);
    assert(discriminant(g) == discriminant(f)) by (nonlinear_arith)
        requires
            g.a == f.a,
            g.b == -f.b,
            g.c == f.c,
    ;
    lemma_reduce(g);
}

/// The order by `(a, b)` in which composition takes its operands.
pub open spec fn precedes(x: FormModel, y: FormModel) -> bool {
    x.a < y.a || (x.a == y.a && x.b <= y.b)
}

/// The united form of a composition. With `d1 = gcd(a1, a2, (b1 + b2) / 2)`
/// and `t` the value whose residue modulo `a1 / d1` fixes the middle
/// coefficient, it is `(a1 a2 / d1^2, b2 + 2 (a2 / d1) r, ..)` with
/// `r = t mod (a1 / d1)`; its last coefficient follows from the
/// discriminant.
pub open spec fn united_form(delta: int, a1: int, a2: int, b2: int, d1: int, t: int) -> FormModel {
    let v1 = a1 / d1;
    let v2 = a2 / d1;
    let r = t % v1;
    let b3 = b2 + (2 * v2) * r;
    let a3 = v1 * v2;
    FormModel { a: a3, b: b3, c: (b3 * b3 - delta) / (4 * a3) }
}

/// The last step of a composition: the united form, reduced.
pub open spec fn unite_spec(delta: int, a1: int, a2: int, b2: int, d1: int, t: int) -> FormModel {
    reduce_spec(united_form(delta, a1, a2, b2, d1, t))
}

/// The united form exists: the divisors are positive and the division
/// that gives the last coefficient is exact.
pub open spec fn unite_defined(delta: int, a1: int, a2: int, b2: int, d1: int, t: int) -> bool {
    let v1 = a1 / d1;
    let v2 = a2 / d1;
    let b3 = b2 + (2 * v2) * (t % v1);
    &&& d1 > 0
    &&& v1 > 0
    &&& v2 > 0
    &&& (b3 * b3 - delta) % (4 * (v1 * v2)) == 0
}

/// The greatest common divisor of the two leading coefficients and of the
/// half sum of the middle ones, and the value whose residue fixes the
/// middle coefficient of the united form: both from two extended
/// Euclidean steps.
pub open spec fn unite_arguments(f1: FormModel, f2: FormModel) -> (int, int) {
    let s = (f1.b + f2.b) / 2;
    let n = f2.b - s;
    let (d, y1, w) = xgcd_spec(f2.a, f1.a);
    let (d1, x2, v) = xgcd_spec(s, d);
    (d1, (y1 * (-v)) * n - x2 * f2.c)
}

/// Composition of `f1` and `f2`, in this order, by two extended Euclidean
/// steps and a reduction.
pub open spec fn compose_ordered(delta: int, f1: FormModel, f2: FormModel) -> FormModel {
    let (d1, t) = unite_arguments(f1, f2);
    unite_spec(delta, f1.a, f2.a, f2.b, d1, t)
}

/// The group law on the reduced forms of discriminant `delta`. The
/// operands are taken in the order by `(a, b)`, so that the law is
/// symmetric by construction.
pub open spec fn compose_spec(delta: int, x: FormModel, y: FormModel) -> FormModel {
    if precedes(x, y) {
        compose_ordered(delta, x, y)
    } else {
        compose_ordered(delta, y, x)
    }
}

/// Duplication, the composition of a form with itself.
pub open spec fn square_spec(delta: int, x: FormModel) -> FormModel {
    compose_spec(delta, x, x)
}

/// Where the united form exists, it has the discriminant and a positive
/// leading coefficient, and its reduction is a reduced form of the
/// discriminant.
pub proof fn lemma_unite_is_form(delta: int, a1: int, a2: int, b2: int, d1: int, t: int)
    requires
        delta < 0,
        unite_defined(delta, a1, a2, b2, d1, t),
    ensures
        united_form(delta, a1, a2, b2, d1, t).a > 0,
        discriminant(united_form(delta, a1, a2, b2, d1, t)) == delta,
        is_form(delta, unite_spec(delta, a1, a2, b2, d1, t)),
{
    let v1 = a1 / d1;
    let v2 = a2 / d1;
    let r = t % v1;
    let b3 = b2 + (2 * v2) * r;
    let a3 = v1 * v2;
    let e = b3 * b3 - delta;
    assert(a3 > 0) by (nonlinear_arith)
        requires
            a3 == v1 * v2,
            v1 > 0,
            v2 > 0,
    ;
    let c3 = e / (4 * a3);
    lemma_fundamental_div_mod(e, 4 * a3);
    let f = FormModel { a: a3, b: b3, c: c3 };
    assert(discriminant(f) == delta) by (nonlinear_arith)
        requires
            f.a == a3,
            f.b == b3,
            f.c == c3,
            e == (4 * a3) * c3,
            e == b3 * b3 - delta,
    ;
    lemma_reduce(f);
}

/// The greatest common divisor that the Euclidean algorithm finds divides
/// both numbers.
pub proof fn lemma_xgcd_divides(a: int, b: int)
    ensures
        xgcd_spec(a, b).0 > 0 ==> a % xgcd_spec(a, b).0 == 0 && b % xgcd_spec(a, b).0 == 0,
    decreases abs(b),
{
    let g = xgcd_spec(a, b).0;
    if b == 0 {
        if a != 0 {
            assert(a % g == 0) by (nonlinear_arith)
                requires
                    g == a || g == -a,
                    g > 0,
            ;
        }
    } else {
        lemma_fundamental_div_mod(a, b);
        let q = a / b;
        let m = a % b;
        assert(0 <= m < abs(b)) by (nonlinear_arith)
            requires
                b != 0,
                m == a % b,
        ;
        lemma_xgcd_divides(b, m);
        lemma_xgcd(b, m);
        if g > 0 {
            lemma_fundamental_div_mod(b, g);
            lemma_fundamental_div_mod(m, g);
            let kb = b / g;
            let km = m / g;
            assert(a == (q * kb + km) * g) by (nonlinear_arith)
                requires
                    a == b * q + m,
                    b == g * kb,
                    m == g * km,
            ;
            vstd::arithmetic::div_mod::lemma_mod_multiples_basic(q * kb + km, g);
        }
    }
}

/// For two forms of one discriminant with positive leading coefficients,
/// the united form exists.
pub proof fn lemma_unite_defined(delta: int, f1: FormModel, f2: FormModel)
    requires
        delta < 0,
        f1.a > 0,
        f2.a > 0,
        discriminant(f1) == delta,
        discriminant(f2) == delta,
    ensures
        unite_defined(delta, f1.a, f2.a, f2.b, unite_arguments(f1, f2).0, unite_arguments(f1, f2).1),
{
    let _ = crate::united::lemma_union(delta, f1, f2);
}

/// The middle coefficients of two forms of one discriminant have one
/// parity.
pub proof fn lemma_same_parity(delta: int, f1: FormModel, f2: FormModel)
    requires
        discriminant(f1) == delta,
        discriminant(f2) == delta,
    ensures
        (f1.b + f2.b) % 2 == 0,
{
    let (b1, b2) = (f1.b, f2.b);
    let (p1, p2) = (f1.a * f1.c, f2.a * f2.c);
    assert(4 * f1.a * f1.c == 4 * p1 && 4 * f2.a * f2.c == 4 * p2) by (nonlinear_arith)
        requires
            p1 == f1.a * f1.c,
            p2 == f2.a * f2.c,
    ;
    let (q1, r1) = (b1 / 2, b1 % 2);
    let (q2, r2) = (b2 / 2, b2 % 2);
    assert(b1 * b1 == 4 * (q1 * q1 + q1 * r1) + r1 * r1 && b2 * b2 == 4 * (q2 * q2 + q2 * r2) + r2
        * r2) by (nonlinear_arith)
        requires
            b1 == 2 * q1 + r1,
            b2 == 2 * q2 + r2,
    ;
    assert(r1 * r1 == r1 && r2 * r2 == r2) by (nonlinear_arith)
        requires
            r1 == 0 || r1 == 1,
            r2 == 0 || r2 == 1,
    ;
}

/// Closure: the composition of two elements is an element. It is reduced
/// and has the discriminant by construction; it is primitive because the
/// united form takes the products of the values of the two forms.
pub proof fn law_composition_is_closed(delta: int, x: FormModel, y: FormModel)
    requires
        is_element(delta, x),
        is_element(delta, y),
    ensures
        is_element(delta, compose_spec(delta, x, y)),
{
    lemma_compose_is_form(delta, x, y);
    lemma_reduced_negative(x);
    let (f1, f2) = if precedes(x, y) {
        (x, y)
    } else {
        (y, x)
    };
    let u = crate::united::lemma_union(delta, f1, f2);
    crate::united::lemma_union_primitive(delta, f1, f2, u);
    crate::united::lemma_reduce_primitive(u.form);
}

/// The composition of two reduced forms of one discriminant is a reduced
/// form of that discriminant.
pub proof fn lemma_compose_is_form(delta: int, x: FormModel, y: FormModel)
    requires
        is_form(delta, x),
        is_form(delta, y),
    ensures
        is_form(delta, compose_spec(delta, x, y)),
{
    lemma_reduced_negative(x);
    let (f1, f2) = if precedes(x, y) {
        (x, y)
    } else {
        (y, x)
    };
    lemma_unite_defined(delta, f1, f2);
    let (d1, t) = unite_arguments(f1, f2);
    lemma_unite_is_form(delta, f1.a, f2.a, f2.b, d1, t);
}

/// Composition does not depend on the order of its operands.
pub proof fn law_composition_commutes(delta: int, x: FormModel, y: FormModel)
    requires
        is_form(delta, x),
        is_form(delta, y),
    ensures
        compose_spec(delta, x, y) == compose_spec(delta, y, x),
{
    if precedes(x, y) && precedes(y, x) {
        lemma_form_by_two(delta, x, y);
    }
}

/// Duplication is composition with itself.
pub proof fn law_square_is_self_composition(delta: int, x: FormModel)
    ensures
        square_spec(delta, x) == compose_spec(delta, x, x),
{
}

/// The Euclidean algorithm on a number and one.
pub proof fn lemma_xgcd_unit(a: int)
    ensures
        xgcd_spec(a, 1) == (1int, 0int, 1int),
{
    reveal_with_fuel(xgcd_spec, 3);
    assert(a % 1 == 0);
    let q = a / 1;
    assert(1 - q * 0 == 1) by (nonlinear_arith);
}

/// The Euclidean algorithm on a positive number and itself.
pub proof fn lemma_xgcd_same(a: int)
    requires
        a > 0,
    ensures
        xgcd_spec(a, a) == (a, 0int, 1int),
{
    reveal_with_fuel(xgcd_spec, 3);
    assert(a % a == 0 && a / a == 1) by (nonlinear_arith)
        requires
            a > 0,
    ;
    let q = a / a;
    assert(1 - q * 0 == 1) by (nonlinear_arith);
}

/// The principal form is neutral.
pub proof fn law_identity_is_neutral(delta: int, x: FormModel)
    requires
        is_form(delta, x),
        is_discriminant(delta),
    ensures
        compose_spec(delta, x, identity_spec(delta)) == x,
        compose_spec(delta, identity_spec(delta), x) == x,
{
    let id = identity_spec(delta);
    lemma_identity_is_form(delta);
    law_composition_commutes(delta, x, id);
    if x.a == 1 {
        let (b, c) = (x.b, x.c);
        assert(b == delta % 2) by (nonlinear_arith)
            requires
                b == 0 || b == 1,
                b * b - 4 * 1 * c == delta,
        ;
        lemma_form_by_two(delta, x, id);
    }
    // now the principal form comes first
    assert(compose_spec(delta, id, x) == compose_ordered(delta, id, x));
    let s = (id.b + x.b) / 2;
    let n = x.b - s;
    lemma_xgcd_unit(x.a);
    lemma_xgcd_unit(s);
    let t = (0 * (-1int)) * n - 0 * x.c;
    assert(unite_arguments(id, x) == (1int, t));
    lemma_unite_identity(delta, x, t);
}

/// Uniting with a leading coefficient of one leaves a reduced form as it
/// is.
proof fn lemma_unite_identity(delta: int, x: FormModel, t: int)
    requires
        is_form(delta, x),
    ensures
        unite_spec(delta, 1, x.a, x.b, 1, t) == x,
{
    let (a, b, c) = (x.a, x.b, x.c);
    let v1 = 1int / 1;
    let v2 = a / 1;
    assert(v1 == 1 && v2 == a);
    let r = t % v1;
    assert(r == 0);
    let b3 = b + (2 * v2) * r;
    assert(b3 == b) by (nonlinear_arith)
        requires
            b3 == b + (2 * v2) * r,
            r == 0,
    ;
    let a3 = v1 * v2;
    assert(a3 == a) by (nonlinear_arith)
        requires
            a3 == v1 * v2,
            v1 == 1,
            v2 == a,
    ;
    let e = b3 * b3 - delta;
    assert(e == (4 * a) * c) by (nonlinear_arith)
        requires
            e == b * b - delta,
            b * b - 4 * a * c == delta,
    ;
    vstd::arithmetic::div_mod::lemma_fundamental_div_mod_converse(e, 4 * a, c, 0);
    lemma_reduced_negative(x);
    lemma_reduce(x);
    assert(FormModel { a: a3, b: b3, c: e / (4 * a3) } == x);
}

/// A form with leading coefficient one reduces to the principal form.
pub proof fn lemma_reduce_unit(delta: int, f: FormModel)
    requires
        f.a == 1,
        discriminant(f) == delta,
        delta < 0,
    ensures
        reduce_spec(f) == identity_spec(delta),
{
    lemma_normalize(f);
    let n = normalize_spec(f);
    lemma_positive_definite(n);
    let (b, c) = (n.b, n.c);
    assert(b * b == b) by (nonlinear_arith)
        requires
            b == 0 || b == 1,
    ;
    assert(4 * 1 * c == 4 * c);
    assert(b == delta % 2);
    assert(c == (delta % 2 - delta) / 4);
}

/// The greatest common divisor of zero and a positive number.
proof fn lemma_xgcd_zero(a: int)
    requires
        a > 0,
    ensures
        xgcd_spec(0, a) == (a, 0int, 1int),
{
    reveal_with_fuel(xgcd_spec, 3);
    assert(0int % a == 0 && 0int / a == 0) by (nonlinear_arith)
        requires
            a > 0,
    ;
    let q = 0int / a;
    assert(1 - q * 0 == 1) by (nonlinear_arith);
}

/// Two forms with one leading coefficient `a` and opposite middle
/// coefficients compose to the principal form.
proof fn lemma_compose_opposite(delta: int, f1: FormModel, f2: FormModel)
    requires
        is_form(delta, f1),
        is_form(delta, f2),
        f1.a == f2.a,
        f1.b == -f2.b,
    ensures
        compose_ordered(delta, f1, f2) == identity_spec(delta),
{
    let a = f1.a;
    lemma_reduced_negative(f1);
    lemma_xgcd_same(a);
    lemma_xgcd_zero(a);
    let s = (f1.b + f2.b) / 2;
    assert(s == 0);
    let n = f2.b - s;
    let t = (0 * (-1int)) * n - 0 * f2.c;
    assert(t == 0) by (nonlinear_arith)
        requires
            t == (0 * (-1int)) * n - 0 * f2.c,
    ;
    assert(unite_arguments(f1, f2) == (a, t));
    lemma_unite_defined(delta, f1, f2);
    lemma_unite_is_form(delta, a, a, f2.b, a, t);
    assert(a / a == 1) by (nonlinear_arith)
        requires
            a > 0,
    ;
    let u = united_form(delta, a, a, f2.b, a, t);
    assert(u.a == 1) by (nonlinear_arith)
        requires
            u.a == (a / a) * (a / a),
            a / a == 1,
    ;
    lemma_reduce_unit(delta, u);
}

/// A form `(a, a, c)` composed with itself gives the principal form.
proof fn lemma_square_ambiguous(delta: int, x: FormModel)
    requires
        is_form(delta, x),
        x.b == x.a,
    ensures
        compose_ordered(delta, x, x) == identity_spec(delta),
{
    let a = x.a;
    lemma_reduced_negative(x);
    lemma_xgcd_same(a);
    let s = (x.b + x.b) / 2;
    assert(s == a);
    let n = x.b - s;
    let t = (0 * (-1int)) * n - 0 * x.c;
    assert(unite_arguments(x, x) == (a, t));
    lemma_unite_defined(delta, x, x);
    lemma_unite_is_form(delta, a, a, x.b, a, t);
    assert(a / a == 1) by (nonlinear_arith)
        requires
            a > 0,
    ;
    let u = united_form(delta, a, a, x.b, a, t);
    assert(u.a == 1) by (nonlinear_arith)
        requires
            u.a == (a / a) * (a / a),
            a / a == 1,
    ;
    lemma_reduce_unit(delta, u);
}

/// A primitive form `(a, b, a)` with `0 < b < a` composed with itself gives
/// the principal form.
proof fn lemma_square_symmetric(delta: int, x: FormModel)
    requires
        is_element(delta, x),
        x.a == x.c,
        0 < x.b < x.a,
    ensures
        compose_ordered(delta, x, x) == identity_spec(delta),
{
    let (a, b) = (x.a, x.b);
    lemma_reduced_negative(x);
    lemma_xgcd_same(a);
    let s = (b + b) / 2;
    assert(s == b);
    let n = b - s;
    let (d1, x2, v) = xgcd_spec(b, a);
    lemma_xgcd(b, a);
    lemma_xgcd_divides(b, a);
    // a common divisor of a and b divides c = a as well
    assert(d1 == 1) by {
        if d1 > 1 {
            assert(x.a % d1 == 0 && x.b % d1 == 0 && x.c % d1 == 0);
        }
    }
    let t = (0 * (-v)) * n - x2 * x.c;
    assert(t == (-x2) * a) by (nonlinear_arith)
        requires
            t == (0 * (-v)) * n - x2 * x.c,
            x.c == a,
    ;
    assert(unite_arguments(x, x) == (d1, t));
    lemma_unite_defined(delta, x, x);
    lemma_unite_is_form(delta, a, a, b, 1, t);
    vstd::arithmetic::div_mod::lemma_mod_multiples_basic(-x2, a);
    let u = united_form(delta, a, a, b, 1, t);
    assert(a / 1 == a);
    let r = t % a;
    assert(r == 0);
    assert(u.b == b) by (nonlinear_arith)
        requires
            u.b == b + (2 * a) * r,
            r == 0,
    ;
    let aa = a * a;
    assert(u.a == aa);
    assert(aa > a) by (nonlinear_arith)
        requires
            aa == a * a,
            a >= 2,
    ;
    // the last coefficient is one
    let uc = u.c;
    assert(uc == 1) by (nonlinear_arith)
        requires
            b * b - 4 * aa * uc == delta,
            b * b - 4 * a * a == delta,
            aa == a * a,
            aa > 0,
    ;
    // one exchange leads to a form with leading coefficient one
    lemma_normalize(u);
    assert(normalize_spec(u) == u);
    let w = FormModel { a: 1, b: -b, c: aa };
    assert(reduce_spec(u) == reduce_spec(w));
    assert(discriminant(w) == delta) by (nonlinear_arith)
        requires
            w.a == 1,
            w.b == -b,
            w.c == aa,
            b * b - 4 * aa * 1 == delta,
    ;
    lemma_reduce_unit(delta, w);
}

/// A number divides the negative of what it divides.
proof fn lemma_divides_negative(k: int, b: int)
    requires
        k > 0,
        b % k == 0,
    ensures
        (-b) % k == 0,
{
    lemma_divides_combination(k, b, b, -1, 0);
    assert((-1) * b + 0 * b == -b) by (nonlinear_arith);
}

/// Negating the middle coefficient keeps a form primitive.
pub proof fn lemma_negated_primitive(x: FormModel)
    requires
        is_primitive(x),
    ensures
        is_primitive(FormModel { a: x.a, b: -x.b, c: x.c }),
{
    let g = FormModel { a: x.a, b: -x.b, c: x.c };
    assert forall|k: int| k > 1 implies !(#[trigger] (g.a % k) == 0 && g.b % k == 0 && g.c % k == 0) by {
        if g.a % k == 0 && g.b % k == 0 && g.c % k == 0 {
            lemma_divides_negative(k, g.b);
            assert(x.a % k == 0 && x.b % k == 0 && x.c % k == 0);
        }
    }
}

/// The form with the middle coefficient negated, reduced, is the inverse:
/// it is an element, and composed with the element it gives the principal
/// form.
pub proof fn law_inverse_cancels(delta: int, x: FormModel)
    requires
        is_element(delta, x),
    ensures
        is_element(delta, inverse_spec(x)),
        compose_spec(delta, x, inverse_spec(x)) == identity_spec(delta),
        compose_spec(delta, inverse_spec(x), x) == identity_spec(delta),
{
    lemma_inverse_is_form(delta, x);
    lemma_reduced_negative(x);
    let g = FormModel { a: x.a, b: -x.b, c: x.c };
    let y = inverse_spec(x);
    lemma_normalize(g);
    if x.b == x.a {
        // the opposite form normalizes back to the form itself
        let k = (g.a - g.b) / (2 * g.a);
        assert(k == 1) by (nonlinear_arith)
            requires
                k == (2 * g.a) / (2 * g.a),
                g.a > 0,
        ;
        let a = x.a;
        assert((2 * a) * k == 2 * a && (a * k + (-a)) * k == 0) by (nonlinear_arith)
            requires
                k == 1,
        ;
        assert(normalize_spec(g) == x);
        assert(y == x);
        lemma_square_ambiguous(delta, x);
    } else {
        assert(normalize_spec(g) == g);
        if x.a == x.c && x.b > 0 {
            assert(y == x);
            lemma_square_symmetric(delta, x);
        } else {
            assert(y == g);
            assert(is_form(delta, g));
            lemma_negated_primitive(x);
            if precedes(x, g) {
                lemma_compose_opposite(delta, x, g);
            } else {
                lemma_compose_opposite(delta, g, x);
            }
        }
    }
    if precedes(x, y) && precedes(y, x) {
        lemma_form_by_two(delta, x, y);
    }
}

/// An element of a class group, held by its three coefficients.
#[derive(Debug)]
pub struct ClassGroupElement {
    a: BigInt,
    b: BigInt,
    c: BigInt,
}

impl View for ClassGroupElement {
    type V = FormModel;

    closed spec fn view(&self) -> FormModel {
        FormModel { a: self.a@, b: self.b@, c: self.c@ }
    }
}

impl Clone for ClassGroupElement {
    fn clone(&self) -> (r: Self)
        ensures
            r@ == self@,
    {
        ClassGroupElement { a: self.a.clone(), b: self.b.clone(), c: self.c.clone() }
    }
}

/// The extended Euclidean algorithm on big integers.
pub fn xgcd(a: &BigInt, b: &BigInt) -> (r: (BigInt, BigInt, BigInt))
    ensures
        (r.0@, r.1@, r.2@) == xgcd_spec(a@, b@),
    decreases abs(b@),
{
    match a.div_rem(b) {
        None => {
            if a.is_negative() {
                (a.neg(), BigInt::from_i64(-1), BigInt::zero())
            } else {
                (a.clone(), BigInt::one(), BigInt::zero())
            }
        },
        Some((q, m)) => {
            proof {
                let bv = b@;
                let av = a@;
                assert(0 <= av % bv < abs(bv)) by (nonlinear_arith)
                    requires
                        bv != 0,
                ;
            }
            let (g, u, v) = xgcd(b, &m);
            let w: BigInt = u.sub(&q.mul(&v));
            (g, v, w)
        },
    }
}

impl ClassGroupElement {
    /// The form with the given coefficients. Nothing is asked of them here:
    /// the operations of the group check their operands.
    pub fn new(a: BigInt, b: BigInt, c: BigInt) -> (r: ClassGroupElement)
        ensures
            r@ == (FormModel { a: a@, b: b@, c: c@ }),
    {
        ClassGroupElement { a, b, c }
    }

    /// The coefficient of `x^2`.
    pub fn a(&self) -> (r: &BigInt)
        ensures
            r@ == self@.a,
    {
        &self.a
    }

    /// The coefficient of `x y`.
    pub fn b(&self) -> (r: &BigInt)
        ensures
            r@ == self@.b,
    {
        &self.b
    }

    /// The coefficient of `y^2`.
    pub fn c(&self) -> (r: &BigInt)
        ensures
            r@ == self@.c,
    {
        &self.c
    }

    /// The discriminant of the form.
    pub fn discriminant(&self) -> (d: BigInt)
        ensures
            d@ == discriminant(self@),
    {
        let four: BigInt = BigInt::from_u64(4);
        self.b.mul(&self.b).sub(&four.mul(&self.a).mul(&self.c))
    }

    /// Whether this is a reduced form.
    pub fn is_reduced(&self) -> (r: bool)
        ensures
            r == is_reduced(self@),
    {
        let positive: bool = match self.a.signum() {
            Sign::Positive => true,
            _ => false,
        };
        let minus_a: BigInt = self.a.neg();
        positive && minus_a.less_than(&self.b) && !self.a.less_than(&self.b) && !self.c.less_than(
            &self.a,
        ) && (!self.a.equals(&self.c) || !self.b.is_negative())
    }

    /// Whether this is a reduced form of discriminant `delta`.
    pub fn is_form(&self, delta: &BigInt) -> (r: bool)
        ensures
            r == is_form(delta@, self@),
    {
        self.discriminant().equals(delta) && self.is_reduced()
    }

    /// Whether no integer above one divides all three coefficients.
    pub fn is_primitive(&self) -> (r: bool)
        ensures
            r == is_primitive(self@),
    {
        proof {
            lemma_content(self@);
        }
        let (g1, _u1, _v1) = xgcd(&self.a, &self.b);
        let (g, _u, _v) = xgcd(&g1, &self.c);
        g.equals(&BigInt::one())
    }

    /// Whether this is an element of the class group of discriminant
    /// `delta`: a reduced primitive form of that discriminant.
    pub fn is_element(&self, delta: &BigInt) -> (r: bool)
        ensures
            r == is_element(delta@, self@),
    {
        self.is_form(delta) && self.is_primitive()
    }

    /// Structural equality of the coefficient triples.
    pub fn equals(&self, other: &ClassGroupElement) -> (r: bool)
        ensures
            r == (self@ == other@),
    {
        self.a.equals(&other.a) && self.b.equals(&other.b) && self.c.equals(&other.c)
    }

    fn normalized(&self) -> (r: ClassGroupElement)
        requires
            self@.a > 0,
        ensures
            r@ == normalize_spec(self@),
    {
        let two_a: BigInt = self.a.add(&self.a);
        match self.a.sub(&self.b).div_rem(&two_a) {
            Some((k, _)) => {
                let b: BigInt = self.b.add(&two_a.mul(&k));
                let c: BigInt = self.a.mul(&k).add(&self.b).mul(&k).add(&self.c);
                ClassGroupElement { a: self.a.clone(), b, c }
            },
            None => self.clone(),
        }
    }

    /// Gauss reduction of a form with positive leading coefficient and
    /// negative discriminant.
    pub fn reduce(&self) -> (r: Result<ClassGroupElement, Error>)
        ensures
            self@.a > 0 && discriminant(self@) < 0 ==> r is Ok && r->Ok_0@ == reduce_spec(self@),
            !(self@.a > 0 && discriminant(self@) < 0) ==> r == Err::<ClassGroupElement, Error>(
                Error::MalformedElement,
            ),
    {
        let sound: bool = match self.a.signum() {
            Sign::Positive => self.discriminant().is_negative(),
            _ => false,
        };
        if sound {
            Ok(self.reduced())
        } else {
            Err(Error::MalformedElement)
        }
    }

    fn reduced(&self) -> (r: ClassGroupElement)
        requires
            self@.a > 0,
            discriminant(self@) < 0,
        ensures
            r@ == reduce_spec(self@),
    {
        let mut cur: ClassGroupElement = self.clone();
        loop
            invariant
                cur@.a > 0,
                discriminant(cur@) < 0,
                reduce_spec(cur@) == reduce_spec(self@),
            decreases cur@.a,
        {
            let n: ClassGroupElement = cur.normalized();
            proof {
                lemma_normalize(cur@);
                lemma_positive_definite(n@);
            }
            if n.c.less_than(&n.a) {
                proof {
                    let s = FormModel { a: n@.c, b: -n@.b, c: n@.a };
                    assert(discriminant(s) == discriminant(n@)) by (nonlinear_arith)
                        requires
                            s.a == n@.c,
                            s.b == -n@.b,
                            s.c == n@.a,
                    ;
                }
                cur = ClassGroupElement { a: n.c, b: n.b.neg(), c: n.a };
            } else if n.a.equals(&n.c) && n.b.is_negative() {
                return ClassGroupElement { a: n.a, b: n.b.neg(), c: n.c };
            } else {
                return n;
            }
        }
    }
}


/// Whether an outcome is the element `value` where the operands are
/// `valid`, and the refusal of a malformed element where they are not.
pub open spec fn yields(r: Result<ClassGroupElement, Error>, valid: bool, value: FormModel) -> bool {
    if valid {
        r is Ok && r->Ok_0@ == value
    } else {
        r == Err::<ClassGroupElement, Error>(Error::MalformedElement)
    }
}

fn unite(delta: &BigInt, a1: &BigInt, a2: &BigInt, b2: &BigInt, d1: &BigInt, t: &BigInt) -> (r:
    ClassGroupElement)
    requires
        delta@ < 0,
        unite_defined(delta@, a1@, a2@, b2@, d1@, t@),
    ensures
        r@ == unite_spec(delta@, a1@, a2@, b2@, d1@, t@),
{
    let v1: BigInt = a1.div_rem(d1).unwrap().0;
    let v2: BigInt = a2.div_rem(d1).unwrap().0;
    let r: BigInt = t.div_rem(&v1).unwrap().1;
    let two: BigInt = BigInt::from_u64(2);
    let four: BigInt = BigInt::from_u64(4);
    let b3: BigInt = b2.add(&two.mul(&v2).mul(&r));
    let a3: BigInt = v1.mul(&v2);
    let e: BigInt = b3.mul(&b3).sub(delta);
    let modulus: BigInt = four.mul(&a3);
    proof {
        let (x1, x2) = (v1@, v2@);
        assert(x1 * x2 > 0) by (nonlinear_arith)
            requires
                x1 > 0,
                x2 > 0,
        ;
    }
    let c3: BigInt = e.div_rem(&modulus).unwrap().0;
    let f: ClassGroupElement = ClassGroupElement { a: a3, b: b3, c: c3 };
    proof {
        lemma_fundamental_div_mod(e@, modulus@);
        let (fa, fb, fc, ev, dv) = (f@.a, f@.b, f@.c, e@, delta@);
        assert(fb * fb - 4 * fa * fc == dv) by (nonlinear_arith)
            requires
                ev == (4 * fa) * fc,
                ev == fb * fb - dv,
        ;
    }
    f.reduced()
}

fn compose_in_order(delta: &BigInt, f1: &ClassGroupElement, f2: &ClassGroupElement) -> (r:
    ClassGroupElement)
    requires
        is_form(delta@, f1@),
        is_form(delta@, f2@),
    ensures
        r@ == compose_ordered(delta@, f1@, f2@),
{
    proof {
        lemma_reduced_negative(f1@);
        lemma_unite_defined(delta@, f1@, f2@);
    }
    let two: BigInt = BigInt::from_u64(2);
    let s: BigInt = f1.b.add(&f2.b).div_rem(&two).unwrap().0;
    let n: BigInt = f2.b.sub(&s);
    let (d, y1, _w) = xgcd(&f2.a, &f1.a);
    let (d1, x2, v) = xgcd(&s, &d);
    let t: BigInt = y1.mul(&v.neg()).mul(&n).sub(&x2.mul(&f2.c));
    unite(delta, &f1.a, &f2.a, &f2.b, &d1, &t)
}

impl ClassGroupElement {
    /// The neutral element of the class group of discriminant `delta`.
    pub fn identity(delta: &BigInt) -> (r: ClassGroupElement)
        ensures
            r@ == identity_spec(delta@),
            is_discriminant(delta@) ==> is_element(delta@, r@),
    {
        let two: BigInt = BigInt::from_u64(2);
        let four: BigInt = BigInt::from_u64(4);
        let b: BigInt = delta.div_rem(&two).unwrap().1;
        let c: BigInt = b.sub(delta).div_rem(&four).unwrap().0;
        proof {
            if is_discriminant(delta@) {
                lemma_identity_is_element(delta@);
            }
        }
        ClassGroupElement { a: BigInt::one(), b, c }
    }

    /// The inverse of an element. It is refused where the operand is no
    /// element of the group, and only there.
    pub fn inverse(&self, delta: &BigInt) -> (r: Result<ClassGroupElement, Error>)
        ensures
            yields(r, is_element(delta@, self@), inverse_spec(self@)),
            r is Ok ==> is_element(delta@, r->Ok_0@),
    {
        if !self.is_element(delta) {
            return Err(Error::MalformedElement);
        }
        Ok(self.inverse_element(delta))
    }

    /// The inverse of what is known to be an element.
    pub(crate) fn inverse_element(&self, delta: &BigInt) -> (r: ClassGroupElement)
        requires
            is_element(delta@, self@),
        ensures
            r@ == inverse_spec(self@),
            is_element(delta@, r@),
    {
        proof {
            law_inverse_cancels(delta@, self@);
        }
        let g: ClassGroupElement = ClassGroupElement {
            a: self.a.clone(),
            b: self.b.neg(),
            c: self.c.clone(),
        };
        proof {
            lemma_reduced_negative(self@);
            let (f, h) = (self@, g@);
            assert(discriminant(h) == discriminant(f)) by (nonlinear_arith)
                requires
                    h.a == f.a,
                    h.b == -f.b,
                    h.c == f.c,
            ;
        }
        g.reduced()
    }

    /// The composition of what are known to be two elements.
    pub(crate) fn compose_elements(&self, other: &ClassGroupElement, delta: &BigInt) -> (r:
        ClassGroupElement)
        requires
            is_element(delta@, self@),
            is_element(delta@, other@),
        ensures
            r@ == compose_spec(delta@, self@, other@),
            is_element(delta@, r@),
    {
        proof {
            law_composition_is_closed(delta@, self@, other@);
        }
        let first: bool = self.a.less_than(&other.a) || (self.a.equals(&other.a)
            && !other.b.less_than(&self.b));
        if first {
            compose_in_order(delta, self, other)
        } else {
            compose_in_order(delta, other, self)
        }
    }

    /// The duplication of what is known to be an element, with one
    /// Euclidean step in place of two.
    pub(crate) fn square_element(&self, delta: &BigInt) -> (r: ClassGroupElement)
        requires
            is_element(delta@, self@),
        ensures
            r@ == square_spec(delta@, self@),
            is_element(delta@, r@),
    {
        let (d1, x2, v) = xgcd(&self.b, &self.a);
        let t: BigInt = x2.mul(&self.c).neg();
        proof {
            law_composition_is_closed(delta@, self@, self@);
            lemma_reduced_negative(self@);
            lemma_unite_defined(delta@, self@, self@);
            lemma_xgcd_same(self@.a);
            let b = self@.b;
            assert((b + b) / 2 == b);
            let n = b - (b + b) / 2;
            let p = x2@ * self@.c;
            let y2 = -v@;
            assert((0 * y2) * n - p == -p) by (nonlinear_arith)
                requires
                    n == 0,
            ;
            assert(unite_arguments(self@, self@) == (d1@, t@));
        }
        unite(delta, &self.a, &self.a, &self.b, &d1, &t)
    }

    /// The group law: the composition of two elements, reduced. It is
    /// refused where an operand is no element of the group, and only
    /// there.
    pub fn compose(&self, other: &ClassGroupElement, delta: &BigInt) -> (r: Result<
        ClassGroupElement,
        Error,
    >)
        ensures
            yields(
                r,
                is_element(delta@, self@) && is_element(delta@, other@),
                compose_spec(delta@, self@, other@),
            ),
            r is Ok ==> is_element(delta@, r->Ok_0@),
    {
        if !self.is_element(delta) || !other.is_element(delta) {
            return Err(Error::MalformedElement);
        }
        Ok(self.compose_elements(other, delta))
    }

    /// Duplication: the composition of an element with itself. It is
    /// refused where the operand is no element of the group, and only
    /// there.
    pub fn square(&self, delta: &BigInt) -> (r: Result<ClassGroupElement, Error>)
        ensures
            yields(r, is_element(delta@, self@), square_spec(delta@, self@)),
            r is Ok ==> is_element(delta@, r->Ok_0@),
    {
        if !self.is_element(delta) {
            return Err(Error::MalformedElement);
        }
        Ok(self.square_element(delta))
    }
}

} // verus!
