//! Representatives of a class whose leading coefficient is prime to a given
//! number: every class has one.

use vstd::prelude::*;
use vstd::arithmetic::div_mod::{lemma_fundamental_div_mod, lemma_mod_multiples_basic};
use crate::form::{
    FormModel, is_primitive, xgcd_spec, lemma_xgcd, lemma_xgcd_divides, lemma_divides_combination,
};
use crate::united::{
    value_at, transform, is_equivalent, lemma_unit_values, lemma_transform_value,
    law_equivalent_transitive,
};
use crate::composite::{is_proper, lemma_transform_proper};

verus! {

/// `d` divides `x`.
pub open spec fn divides(d: int, x: int) -> bool {
    d > 0 && x % d == 0
}

/// A number above one that nothing divides but one and itself.
pub open spec fn is_prime(p: int) -> bool {
    p > 1 && forall|d: int| 1 < d < p ==> #[trigger] (p % d) != 0
}

/// A combination of the two numbers is one.
pub open spec fn is_coprime(a: int, b: int) -> bool {
    exists|u: int, v: int| #[trigger] (u * a) + #[trigger] (v * b) == 1
}

/// A multiple is divisible.
pub proof fn lemma_divides_multiple(d: int, k: int)
    requires
        d > 0,
    ensures
        divides(d, k * d),
        divides(d, d * k),
{
    lemma_mod_multiples_basic(k, d);
    assert(d * k == k * d) by (nonlinear_arith);
}

/// What is divisible is a multiple.
pub proof fn lemma_divides_quotient(d: int, x: int) -> (q: int)
    requires
        divides(d, x),
    ensures
        x == d * q,
{
    lemma_fundamental_div_mod(x, d);
    x / d
}

/// Every number above one has a prime divisor.
pub proof fn lemma_prime_divisor(n: int) -> (p: int)
    requires
        n > 1,
    ensures
        is_prime(p),
        divides(p, n),
    decreases n,
{
    if is_prime(n) {
        lemma_divides_multiple(n, 1);
        n
    } else {
        let d = choose|d: int| 1 < d < n && #[trigger] (n % d) == 0;
        let p = lemma_prime_divisor(d);
        crate::form::lemma_divides_transitive(p, d, n);
        p
    }
}

/// A prime that does not divide a number is prime to it.
pub proof fn lemma_prime_coprime(p: int, m: int)
    requires
        is_prime(p),
        !divides(p, m),
    ensures
        is_coprime(p, m),
{
    let (g, u, v) = xgcd_spec(p, m);
    lemma_xgcd(p, m);
    lemma_xgcd_divides(p, m);
    assert(g > 0);
    if g != 1 {
        assert(g <= p) by {
            let q = lemma_divides_quotient(g, p);
            assert(g <= p) by (nonlinear_arith)
                requires
                    p == g * q,
                    p > 0,
                    g > 0,
            ;
        }
        assert(g == p);
        assert(false);
    }
    assert(u * p + v * m == 1);
}

/// Two numbers prime to each other have no common divisor above one.
pub proof fn lemma_coprime_no_divisor(a: int, b: int, k: int)
    requires
        is_coprime(a, b),
        divides(k, a),
        divides(k, b),
    ensures
        k == 1,
{
    let (u, v) = choose|u: int, v: int| #[trigger] (u * a) + #[trigger] (v * b) == 1;
    lemma_divides_combination(k, a, b, u, v);
    if k > 1 {
        vstd::arithmetic::div_mod::lemma_small_mod(1, k as nat);
    }
}

/// Two numbers without a common prime divisor, of which one is not zero,
/// are prime to each other.
pub proof fn lemma_no_common_prime(a: int, b: int)
    requires
        a != 0 || b != 0,
        forall|p: int| is_prime(p) ==> !(divides(p, a) && #[trigger] divides(p, b)),
    ensures
        is_coprime(a, b),
{
    let (g, u, v) = xgcd_spec(a, b);
    lemma_xgcd(a, b);
    lemma_xgcd_divides(a, b);
    if g > 1 {
        let p = lemma_prime_divisor(g);
        if a != 0 {
            crate::form::lemma_divides_transitive(p, g, a);
        } else {
            assert(a % p == 0);
        }
        if b != 0 {
            crate::form::lemma_divides_transitive(p, g, b);
        } else {
            assert(b % p == 0);
        }
        assert(divides(p, a) && divides(p, b));
    }
    assert(u * a + v * b == 1);
}

/// A number prime to two numbers is prime to their product.
pub proof fn lemma_coprime_product(a: int, b: int, c: int)
    requires
        is_coprime(a, c),
        is_coprime(b, c),
    ensures
        is_coprime(a * b, c),
{
    let (u, v) = choose|u: int, v: int| #[trigger] (u * a) + #[trigger] (v * c) == 1;
    let (s, t) = choose|s: int, t: int| #[trigger] (s * b) + #[trigger] (t * c) == 1;
    let (ua, vc, sb, tc) = (u * a, v * c, s * b, t * c);
    assert((ua + vc) * (sb + tc) == ua * sb + ua * tc + vc * sb + vc * tc) by (nonlinear_arith);
    assert(ua * sb == (u * s) * (a * b)) by (nonlinear_arith)
        requires
            ua == u * a,
            sb == s * b,
    ;
    assert(ua * tc + vc * sb + vc * tc == (ua * t + v * sb + v * tc) * c) by (nonlinear_arith)
        requires
            tc == t * c,
            vc == v * c,
    ;
    assert((ua + vc) * (sb + tc) == 1) by (nonlinear_arith)
        requires
            ua + vc == 1,
            sb + tc == 1,
    ;
    let (x, y) = (u * s, ua * t + v * sb + v * tc);
    assert(x * (a * b) + y * c == 1);
}

/// Being prime to each other goes both ways.
pub proof fn lemma_coprime_symmetric(a: int, b: int)
    requires
        is_coprime(a, b),
    ensures
        is_coprime(b, a),
{
    let (u, v) = choose|u: int, v: int| #[trigger] (u * a) + #[trigger] (v * b) == 1;
    assert(v * b + u * a == 1);
}

/// A number prime to a product is prime to its factors.
pub proof fn lemma_coprime_factor(a: int, b: int, c: int)
    requires
        is_coprime(a * b, c),
    ensures
        is_coprime(a, c),
        is_coprime(b, c),
{
    let (u, v) = choose|u: int, v: int| #[trigger] (u * (a * b)) + #[trigger] (v * c) == 1;
    assert(u * (a * b) == (u * b) * a && u * (a * b) == (u * a) * b) by (nonlinear_arith);
    assert((u * b) * a + v * c == 1);
    assert((u * a) * b + v * c == 1);
}

/// The greatest common divisor of two numbers prime to each other is one.
pub proof fn lemma_coprime_gcd(a: int, b: int)
    requires
        is_coprime(a, b),
    ensures
        xgcd_spec(a, b).0 == 1,
{
    let g = xgcd_spec(a, b).0;
    lemma_xgcd(a, b);
    lemma_xgcd_divides(a, b);
    let (u, v) = choose|u: int, v: int| #[trigger] (u * a) + #[trigger] (v * b) == 1;
    if g == 0 {
        assert(u * a == 0 && v * b == 0) by (nonlinear_arith)
            requires
                a == 0,
                b == 0,
        ;
    } else {
        lemma_coprime_no_divisor(a, b, g);
    }
}

/// A solution of a congruence modulo a number prime to the coefficient:
/// `a k = h (mod m)`.
pub proof fn lemma_linear_congruence(a: int, m: int, h: int) -> (k: int)
    requires
        is_coprime(a, m),
        m > 0,
    ensures
        divides(m, a * k - h),
{
    let (u, v) = choose|u: int, v: int| #[trigger] (u * a) + #[trigger] (v * m) == 1;
    let k = u * h;
    let (ua, vm) = (u * a, v * m);
    assert(a * k - h == (-(v * h)) * m) by (nonlinear_arith)
        requires
            k == u * h,
            ua == u * a,
            vm == v * m,
            ua + vm == 1,
    ;
    lemma_divides_multiple(m, -(v * h));
    k
}


/// The value of a form at `(1, k)`.
proof fn lemma_value_beside(f: FormModel, k: int)
    ensures
        value_at(f, 1, k) == f.a + f.b * k + f.c * (k * k),
{
    assert(f.a * (1int * 1) + f.b * (1 * k) + f.c * (k * k) == f.a + f.b * k + f.c * (k * k))
        by (nonlinear_arith);
}

/// The values of a form at `(1, k)` and `(1, j)` agree modulo every divisor
/// of `k - j`.
proof fn lemma_value_congruent(f: FormModel, d: int, k: int, j: int)
    requires
        divides(d, k - j),
        divides(d, value_at(f, 1, k)),
    ensures
        divides(d, value_at(f, 1, j)),
{
    lemma_value_beside(f, k);
    lemma_value_beside(f, j);
    let e = k - j;
    let w = f.b + f.c * (k + j);
    let (kk, jj) = (k * k, j * j);
    assert(kk - jj == e * (k + j)) by (nonlinear_arith)
        requires
            kk == k * k,
            jj == j * j,
            e == k - j,
    ;
    assert(f.c * (e * (k + j)) == e * (f.c * (k + j))) by (nonlinear_arith);
    assert(f.c * kk - f.c * jj == f.c * (kk - jj)) by (nonlinear_arith);
    assert(f.b * k - f.b * j == e * f.b) by (nonlinear_arith)
        requires
            e == k - j,
    ;
    assert(e * f.b + e * (f.c * (k + j)) == e * w) by (nonlinear_arith)
        requires
            w == f.b + f.c * (k + j),
    ;
    assert(value_at(f, 1, k) - value_at(f, 1, j) == e * w);
    lemma_divides_combination(d, value_at(f, 1, k), e, 1, -w);
    assert(1 * value_at(f, 1, k) + (-w) * e == value_at(f, 1, j)) by (nonlinear_arith)
        requires
            value_at(f, 1, k) - value_at(f, 1, j) == e * w,
    ;
}

/// For a primitive form and a prime, a point `(1, k)` with `k` among 0, 1
/// and -1 at which the prime does not divide the value; for the prime two
/// where the leading coefficient or the sum of the two others is odd.
proof fn lemma_residue(f: FormModel, p: int) -> (k: int)
    requires
        is_primitive(f),
        is_prime(p),
        p == 2 ==> f.a % 2 != 0 || (f.b + f.c) % 2 != 0,
    ensures
        !divides(p, value_at(f, 1, k)),
{
    let (a, b, c) = (f.a, f.b, f.c);
    lemma_value_beside(f, 0);
    lemma_value_beside(f, 1);
    lemma_value_beside(f, -1);
    assert(b * 0 == 0 && c * (0int * 0) == 0 && b * 1 == b && c * (1int * 1) == c && b * (-1) == -b
        && c * ((-1int) * (-1)) == c) by (nonlinear_arith);
    if !divides(p, a) {
        0
    } else if !divides(p, a + b + c) {
        1
    } else {
        if divides(p, a - b + c) {
            // then p divides 2 b and 2 c
            lemma_divides_combination(p, a + b + c, a - b + c, 1, -1);
            assert(1 * (a + b + c) + (-1) * (a - b + c) == 2 * b);
            lemma_divides_combination(p, a + b + c, a, 1, -1);
            lemma_divides_combination(p, 1 * (a + b + c) + (-1) * a, 2 * b, 2, -1);
            assert(2 * (1 * (a + b + c) + (-1) * a) + (-1) * (2 * b) == 2 * c);
            if p == 2 {
                assert((b + c) % 2 == 0);
                assert(false);
            } else {
                assert(p % 2 != 0);
                let t = p / 2;
                assert(p == 2 * t + 1);
                lemma_divides_multiple(p, b);
                lemma_divides_multiple(p, c);
                lemma_divides_combination(p, p * b, 2 * b, 1, -t);
                assert(1 * (p * b) + (-t) * (2 * b) == b) by (nonlinear_arith)
                    requires
                        p == 2 * t + 1,
                ;
                lemma_divides_combination(p, p * c, 2 * c, 1, -t);
                assert(1 * (p * c) + (-t) * (2 * c) == c) by (nonlinear_arith)
                    requires
                        p == 2 * t + 1,
                ;
                assert(f.a % p == 0 && f.b % p == 0 && f.c % p == 0);
                assert(false);
            }
        }
        -1
    }
}

/// No prime that divides `m` divides the value of the form at `(1, k)`.
pub open spec fn is_good_point(f: FormModel, m: int, k: int) -> bool {
    forall|p: int| is_prime(p) && #[trigger] divides(p, m) ==> !divides(p, value_at(f, 1, k))
}

/// A prime that divides a product of a prime and a number is that prime or
/// divides that number.
proof fn lemma_prime_of_product(q: int, p: int, m: int)
    requires
        is_prime(q),
        is_prime(p),
        divides(q, p * m),
    ensures
        q == p || divides(q, m),
{
    if !divides(q, m) {
        lemma_prime_coprime(q, m);
        let (u, v) = choose|u: int, v: int| #[trigger] (u * q) + #[trigger] (v * m) == 1;
        lemma_divides_multiple(q, u * p);
        lemma_divides_combination(q, (u * p) * q, p * m, 1, v);
        let (uq, vm) = (u * q, v * m);
        assert(1 * ((u * p) * q) + v * (p * m) == p) by (nonlinear_arith)
            requires
                uq == u * q,
                vm == v * m,
                uq + vm == 1,
        ;
        assert(divides(q, p));
        if q < p {
            assert(p % q != 0);
        }
        let t = lemma_divides_quotient(q, p);
        assert(q <= p) by (nonlinear_arith)
            requires
                p == q * t,
                p > 0,
                q > 0,
        ;
    }
}

/// A point `(1, k)` at which the value of a primitive form is divisible by
/// no prime that divides `m`; for even `m` where the leading coefficient
/// or the sum of the two others is odd.
proof fn lemma_good_point(f: FormModel, m: int) -> (k: int)
    requires
        is_primitive(f),
        m >= 1,
        m % 2 == 0 ==> f.a % 2 != 0 || (f.b + f.c) % 2 != 0,
    ensures
        is_good_point(f, m, k),
    decreases m,
{
    if m == 1 {
        assert forall|p: int| is_prime(p) && #[trigger] divides(p, m) implies !divides(
            p,
            value_at(f, 1, 0),
        ) by {
            vstd::arithmetic::div_mod::lemma_small_mod(1, p as nat);
        }
        0
    } else {
        let p = lemma_prime_divisor(m);
        let rest = lemma_divides_quotient(p, m);
        assert(1 <= rest < m) by (nonlinear_arith)
            requires
                m == p * rest,
                p > 1,
                m > 1,
        ;
        if rest % 2 == 0 {
            lemma_divides_multiple(2, p * (rest / 2));
            assert((p * (rest / 2)) * 2 == p * rest) by (nonlinear_arith)
                requires
                    rest == 2 * (rest / 2),
            ;
        }
        let j = lemma_good_point(f, rest);
        if divides(p, rest) {
            assert forall|q: int| is_prime(q) && #[trigger] divides(q, m) implies !divides(
                q,
                value_at(f, 1, j),
            ) by {
                lemma_prime_of_product(q, p, rest);
                assert(divides(q, rest));
            }
            j
        } else {
            if p == 2 {
                assert(m % 2 == 0);
            }
            let rho = lemma_residue(f, p);
            lemma_prime_coprime(p, rest);
            lemma_coprime_symmetric(p, rest);
            let i = lemma_linear_congruence(rest, p, rho - j);
            let k = j + rest * i;
            assert forall|q: int| is_prime(q) && #[trigger] divides(q, m) implies !divides(
                q,
                value_at(f, 1, k),
            ) by {
                lemma_prime_of_product(q, p, rest);
                if divides(q, value_at(f, 1, k)) {
                    if divides(q, rest) {
                        lemma_divides_combination(q, rest, rest, i, 0);
                        assert(i * rest + 0 * rest == k - j) by (nonlinear_arith)
                            requires
                                k == j + rest * i,
                        ;
                        lemma_value_congruent(f, q, k, j);
                    } else {
                        assert(q == p);
                        assert(k - rho == rest * i - (rho - j));
                        lemma_value_congruent(f, p, k, rho);
                    }
                }
            }
            k
        }
    }
}

/// Every class has a representative whose leading coefficient is prime to
/// a given number: for a proper form and a number `m` of at least one, an
/// equivalent proper form with a leading coefficient prime to `m`.
pub proof fn law_representative_prime_to(delta: int, f: FormModel, m: int) -> (g: FormModel)
    requires
        is_proper(delta, f),
        m >= 1,
    ensures
        is_proper(delta, g),
        is_equivalent(f, g),
        is_coprime(g.a, m),
{
    // where both the leading coefficient and the sum of the others are
    // even, exchange the outer coefficients first
    let even = f.a % 2 == 0 && (f.b + f.c) % 2 == 0;
    let f0 = if even {
        transform(f, 0, -1, 1, 0)
    } else {
        transform(f, 1, 0, 0, 1)
    };
    if even {
        assert(0int * 0 - (-1) * 1 == 1) by (nonlinear_arith);
        lemma_transform_proper(delta, f, 0, -1, 1, 0);
        lemma_unit_values(f);
        assert(f0.a == f.c);
        if f.c % 2 == 0 {
            assert(f.b % 2 == 0);
            assert(f.a % 2 == 0 && f.b % 2 == 0 && f.c % 2 == 0);
            assert(false);
        }
    } else {
        assert(1int * 1 - 0 * 0 == 1) by (nonlinear_arith);
        lemma_transform_proper(delta, f, 1, 0, 0, 1);
        lemma_transform_value(f, 1, 0, 0, 1, 1, 0);
        lemma_transform_value(f, 1, 0, 0, 1, 0, 1);
        lemma_transform_value(f, 1, 0, 0, 1, 1, 1);
        lemma_unit_values(f);
        lemma_unit_values(f0);
        assert(f0.a == f.a && f0.c == f.c && f0.b == f.b);
    }
    let k = lemma_good_point(f0, m);
    let g = transform(f0, 1, 0, k, 1);
    assert(1int * 1 - 0 * k == 1) by (nonlinear_arith);
    lemma_transform_proper(delta, f0, 1, 0, k, 1);
    law_equivalent_transitive(f, f0, g);
    assert(g.a == value_at(f0, 1, k));
    assert forall|p: int| is_prime(p) implies !(divides(p, g.a) && #[trigger] divides(p, m)) by {
        if divides(p, m) {
            assert(!divides(p, value_at(f0, 1, k)));
        }
    }
    lemma_no_common_prime(g.a, m);
    g
}

} // verus!
