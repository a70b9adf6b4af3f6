//! United forms: the form that composition arrives at before it reduces,
//! what ties it to the two forms it comes from, and what follows from that.

use vstd::prelude::*;
use vstd::arithmetic::div_mod::{lemma_fundamental_div_mod, lemma_fundamental_div_mod_converse, lemma_mod_multiples_basic};
use crate::form::{
    FormModel, discriminant, xgcd_spec, united_form, unite_defined, unite_arguments, lemma_xgcd,
    lemma_xgcd_divides, lemma_same_parity, is_primitive, lemma_content,
    lemma_divides_combination, normalize_spec, reduce_spec, lemma_normalize,
    lemma_positive_definite, lemma_negated_primitive, is_form, is_reduced, lemma_form_by_two,
    lemma_reduce, is_element, compose_spec, precedes, lemma_reduced_negative,
};

verus! {

/// A united form of two forms `f1` and `f2`, with the numbers that tie it to
/// them.
pub struct Union {
    /// The greatest common divisor of the leading coefficients and of the
    /// half sum of the middle ones.
    pub d1: int,
    /// The leading coefficient of `f1` over `d1`.
    pub v1: int,
    /// The leading coefficient of `f2` over `d1`.
    pub v2: int,
    /// The half sum of the middle coefficients over `d1`.
    pub s1: int,
    /// Half the difference of the new middle coefficient and that of `f2`,
    /// over `v2`.
    pub r: int,
    /// Half the difference of the new middle coefficient and that of `f1`,
    /// over `v1`.
    pub alpha: int,
    /// The quotient in the third congruence.
    pub beta1: int,
    /// The united form itself.
    pub form: FormModel,
}

/// The three congruences of a united form, with their quotients: the new
/// middle coefficient `B` meets `B = b1 (mod 2 a1 / d1)`,
/// `B = b2 (mod 2 a2 / d1)` and `(b1 + b2) B = b1 b2 + delta (mod 4 a3 d1)`,
/// the new leading coefficient is `a1 a2 / d1^2`, and the discriminant is
/// `delta`.
pub open spec fn is_union(delta: int, f1: FormModel, f2: FormModel, u: Union) -> bool {
    &&& u.d1 > 0
    &&& u.v1 > 0
    &&& u.v2 > 0
    &&& f1.a == u.d1 * u.v1
    &&& f2.a == u.d1 * u.v2
    &&& f1.b + f2.b == 2 * (u.d1 * u.s1)
    &&& u.form.a == u.v1 * u.v2
    &&& u.form.b - f1.b == 2 * (u.v1 * u.alpha)
    &&& u.form.b - f2.b == 2 * (u.v2 * u.r)
    &&& f1.b * f2.b + delta - (f1.b + f2.b) * u.form.b == -4 * ((u.form.a * u.d1) * u.beta1)
    &&& discriminant(u.form) == delta
}

/// The first congruence, before the residue is taken: with the Bezout
/// identities `y1 a2 + w a1 = d` and `x2 s - y2 d = d1`, the number
/// `n + v2 t` is a multiple of `v1`.
proof fn lemma_first_congruence(
    a1: int,
    a2: int,
    c1: int,
    c2: int,
    d: int,
    d1: int,
    v1: int,
    v2: int,
    s: int,
    n: int,
    y1: int,
    y2: int,
    w: int,
    x2: int,
    t: int,
) -> (ga: int)
    requires
        d1 > 0,
        a1 == d1 * v1,
        a2 == d1 * v2,
        y1 * a2 + w * a1 == d,
        x2 * s - y2 * d == d1,
        s * n == a2 * c2 - a1 * c1,
        t == (y1 * y2) * n - x2 * c2,
    ensures
        n + v2 * t + v1 * ga == 0,
{
    let sn = s * n;
    let yn = y2 * n;
    let p1 = a1 * c1;
    let p2 = a2 * c2;
    let ga = x2 * c1 + (w * y2) * n;
    let t1 = (y1 * y2) * n;
    let t2 = x2 * c2;
    assert(t1 == y1 * yn) by (nonlinear_arith)
        requires
            t1 == (y1 * y2) * n,
            yn == y2 * n,
    ;
    assert(a2 * t1 == (a2 * y1) * yn) by (nonlinear_arith)
        requires
            t1 == y1 * yn,
    ;
    assert(a2 * t2 == x2 * p2) by (nonlinear_arith)
        requires
            t2 == x2 * c2,
            p2 == a2 * c2,
    ;
    assert(a2 * t == a2 * t1 - a2 * t2) by (nonlinear_arith)
        requires
            t == t1 - t2,
    ;
    let g1 = x2 * c1;
    let g2 = (w * y2) * n;
    assert(g2 == w * yn) by (nonlinear_arith)
        requires
            g2 == (w * y2) * n,
            yn == y2 * n,
    ;
    assert(a1 * g1 == x2 * p1) by (nonlinear_arith)
        requires
            g1 == x2 * c1,
            p1 == a1 * c1,
    ;
    assert(a1 * g2 == (a1 * w) * yn) by (nonlinear_arith)
        requires
            g2 == w * yn,
    ;
    assert(a1 * ga == a1 * g1 + a1 * g2) by (nonlinear_arith)
        requires
            ga == g1 + g2,
    ;
    let (e1, e2) = (a2 * y1, a1 * w);
    assert(e1 * yn + e2 * yn == (e1 + e2) * yn) by (nonlinear_arith);
    assert(e1 + e2 == d) by (nonlinear_arith)
        requires
            e1 == a2 * y1,
            e2 == a1 * w,
            y1 * a2 + w * a1 == d,
    ;
    assert(x2 * p2 - x2 * p1 == x2 * sn) by (nonlinear_arith)
        requires
            sn == p2 - p1,
    ;
    let (h1, h2) = (x2 * s, y2 * d);
    assert((h1 - h2) * n == h1 * n - h2 * n) by (nonlinear_arith);
    assert(h1 * n == x2 * sn) by (nonlinear_arith)
        requires
            h1 == x2 * s,
            sn == s * n,
    ;
    assert(h2 * n == d * yn) by (nonlinear_arith)
        requires
            h2 == y2 * d,
            yn == y2 * n,
    ;
    assert(d1 * n == x2 * sn - d * yn);
    let (q1, q2) = (v2 * t, v1 * ga);
    assert(d1 * (n + q1 + q2) == d1 * n + d1 * q1 + d1 * q2) by (nonlinear_arith);
    assert(d1 * q1 == a2 * t) by (nonlinear_arith)
        requires
            q1 == v2 * t,
            a2 == d1 * v2,
    ;
    assert(d1 * q2 == a1 * ga) by (nonlinear_arith)
        requires
            q2 == v1 * ga,
            a1 == d1 * v1,
    ;
    assert(d1 * (n + q1 + q2) == 0);
    assert(n + q1 + q2 == 0) by (nonlinear_arith)
        requires
            d1 * (n + q1 + q2) == 0,
            d1 > 0,
    ;
    ga
}

/// The second congruence, before the residue is taken: the number
/// `s t + d1 c2` is a multiple of `v1 d1`.
proof fn lemma_second_congruence(
    a1: int,
    a2: int,
    c1: int,
    c2: int,
    d: int,
    d1: int,
    v1: int,
    s: int,
    n: int,
    y1: int,
    y2: int,
    w: int,
    x2: int,
    t: int,
) -> (gc: int)
    requires
        a1 == d1 * v1,
        y1 * a2 + w * a1 == d,
        x2 * s - y2 * d == d1,
        s * n == a2 * c2 - a1 * c1,
        t == (y1 * y2) * n - x2 * c2,
    ensures
        s * t + d1 * c2 + (v1 * d1) * (y2 * gc) == 0,
{
    let sn = s * n;
    let p1 = a1 * c1;
    let p2 = a2 * c2;
    let gc = y1 * c1 + w * c2;
    let (t1, t2) = ((y1 * y2) * n, x2 * c2);
    assert(s * (t1 - t2) == s * t1 - s * t2) by (nonlinear_arith);
    assert(s * t1 == (y1 * y2) * sn) by (nonlinear_arith)
        requires
            t1 == (y1 * y2) * n,
            sn == s * n,
    ;
    assert(s * t2 == (x2 * s) * c2) by (nonlinear_arith)
        requires
            t2 == x2 * c2,
    ;
    let dc = d * c2;
    let (h1, h2) = (x2 * s, y2 * d);
    assert(h1 * c2 == d1 * c2 + h2 * c2) by (nonlinear_arith)
        requires
            h1 - h2 == d1,
    ;
    assert(h2 * c2 == y2 * dc) by (nonlinear_arith)
        requires
            h2 == y2 * d,
            dc == d * c2,
    ;
    let (e1, e2) = (y1 * a2, w * a1);
    assert((e1 + e2) * c2 == e1 * c2 + e2 * c2) by (nonlinear_arith);
    assert(e1 * c2 == y1 * p2) by (nonlinear_arith)
        requires
            e1 == y1 * a2,
            p2 == a2 * c2,
    ;
    assert(e2 * c2 == a1 * (w * c2)) by (nonlinear_arith)
        requires
            e2 == w * a1,
    ;
    assert(dc == y1 * p2 + a1 * (w * c2));
    assert(y1 * sn == y1 * p2 - y1 * p1) by (nonlinear_arith)
        requires
            sn == p2 - p1,
    ;
    assert(y1 * p1 == a1 * (y1 * c1)) by (nonlinear_arith)
        requires
            p1 == a1 * c1,
    ;
    let (g1, g2) = (y1 * c1, w * c2);
    assert(a1 * (g1 + g2) == a1 * g1 + a1 * g2) by (nonlinear_arith);
    assert(y1 * sn - dc == -(a1 * gc));
    let ys = y1 * sn;
    assert((y1 * y2) * sn == y2 * ys) by (nonlinear_arith)
        requires
            ys == y1 * sn,
    ;
    assert(y2 * ys - y2 * dc == y2 * (ys - dc)) by (nonlinear_arith);
    let ag = a1 * gc;
    assert(y2 * (-ag) == -((v1 * d1) * (y2 * gc))) by (nonlinear_arith)
        requires
            ag == a1 * gc,
            a1 == d1 * v1,
    ;
    gc
}

/// The third congruence and the square of the new middle coefficient,
/// from the first two congruences.
proof fn lemma_third_congruence(
    delta: int,
    a2: int,
    b1: int,
    b2: int,
    c2: int,
    d1: int,
    v1: int,
    v2: int,
    s: int,
    r: int,
    alpha: int,
    beta: int,
)
    requires
        a2 == d1 * v2,
        2 * s == b1 + b2,
        delta == b2 * b2 - 4 * (a2 * c2),
        (b2 - s) + v2 * r == v1 * alpha,
        s * r + d1 * c2 == v1 * beta,
    ensures
        (b2 + (2 * v2) * r) * (b2 + (2 * v2) * r) - delta == (4 * (v1 * v2)) * (alpha * r + beta),
        b1 * b2 + delta - (b1 + b2) * (b2 + (2 * v2) * r) == -4 * ((v1 * v2) * beta),
{
    let p = v2 * r;
    let p2 = a2 * c2;
    let b3 = b2 + (2 * v2) * r;
    let a3 = v1 * v2;
    let n = b2 - s;
    assert(b3 == b2 + 2 * p) by (nonlinear_arith)
        requires
            b3 == b2 + (2 * v2) * r,
            p == v2 * r,
    ;
    assert(b3 * b3 == b2 * b2 + 4 * (b2 * p) + 4 * (p * p)) by (nonlinear_arith)
        requires
            b3 == b2 + 2 * p,
    ;
    assert(b2 * p + p * p == (n + p) * p + s * p) by (nonlinear_arith)
        requires
            b2 == n + s,
    ;
    let va = v1 * alpha;
    let vb = v1 * beta;
    let ar = alpha * r;
    assert(va * p == a3 * ar) by (nonlinear_arith)
        requires
            va == v1 * alpha,
            p == v2 * r,
            a3 == v1 * v2,
            ar == alpha * r,
    ;
    let sr = s * r;
    assert(s * p == v2 * sr) by (nonlinear_arith)
        requires
            p == v2 * r,
            sr == s * r,
    ;
    let dc = d1 * c2;
    assert(p2 == v2 * dc) by (nonlinear_arith)
        requires
            p2 == a2 * c2,
            a2 == d1 * v2,
            dc == d1 * c2,
    ;
    assert(v2 * sr + v2 * dc == v2 * (sr + dc)) by (nonlinear_arith);
    assert(v2 * vb == a3 * beta) by (nonlinear_arith)
        requires
            vb == v1 * beta,
            a3 == v1 * v2,
    ;
    assert(a3 * (ar + beta) == a3 * ar + a3 * beta) by (nonlinear_arith);
    let z = ar + beta;
    assert((4 * a3) * z == 4 * (a3 * z)) by (nonlinear_arith);
    // the third congruence
    let sb = s * b2;
    assert((b1 + b2) * b3 == 2 * sb + 4 * (s * p)) by (nonlinear_arith)
        requires
            b1 + b2 == 2 * s,
            b3 == b2 + 2 * p,
            sb == s * b2,
    ;
    assert(b1 * b2 + b2 * b2 == 2 * sb) by (nonlinear_arith)
        requires
            b1 + b2 == 2 * s,
            sb == s * b2,
    ;
}

/// The heart of composition: for two forms of one discriminant with
/// positive leading coefficients, the united form exists, and it is tied to
/// the two forms by the three congruences. The proof takes the Bezout
/// identities of the two Euclidean steps and works them into the
/// congruences one by one.
pub proof fn lemma_union(delta: int, f1: FormModel, f2: FormModel) -> (u: Union)
    requires
        delta < 0,
        f1.a > 0,
        f2.a > 0,
        discriminant(f1) == delta,
        discriminant(f2) == delta,
    ensures
        unite_defined(delta, f1.a, f2.a, f2.b, unite_arguments(f1, f2).0, unite_arguments(f1, f2).1),
        is_union(delta, f1, f2, u),
        u.form == united_form(
            delta,
            f1.a,
            f2.a,
            f2.b,
            unite_arguments(f1, f2).0,
            unite_arguments(f1, f2).1,
        ),
{
    let (a1, b1, c1) = (f1.a, f1.b, f1.c);
    let (a2, b2, c2) = (f2.a, f2.b, f2.c);
    let s = (b1 + b2) / 2;
    let n = b2 - s;
    let (d, y1, w) = xgcd_spec(a2, a1);
    let (d1, x2, v) = xgcd_spec(s, d);
    let y2 = -v;
    let t = (y1 * y2) * n - x2 * c2;
    // both middle coefficients have the parity of the discriminant
    lemma_same_parity(delta, f1, f2);
    assert(2 * s == b1 + b2);
    assert(2 * n == b2 - b1);
    // the two Euclidean steps
    lemma_xgcd(a2, a1);
    lemma_xgcd_divides(a2, a1);
    lemma_xgcd(s, d);
    lemma_xgcd_divides(s, d);
    assert(d > 0 && d1 > 0);
    lemma_fundamental_div_mod(s, d1);
    lemma_fundamental_div_mod(d, d1);
    lemma_fundamental_div_mod(a1, d);
    lemma_fundamental_div_mod(a2, d);
    let s1 = s / d1;
    let dd = d / d1;
    let k1 = a1 / d;
    let k2 = a2 / d;
    let v1 = k1 * dd;
    let v2 = k2 * dd;
    assert(a1 == d1 * v1 && a2 == d1 * v2) by (nonlinear_arith)
        requires
            a1 == d * k1,
            a2 == d * k2,
            d == d1 * dd,
            v1 == k1 * dd,
            v2 == k2 * dd,
    ;
    assert(v1 > 0 && v2 > 0) by (nonlinear_arith)
        requires
            a1 == d1 * v1,
            a2 == d1 * v2,
            a1 > 0,
            a2 > 0,
            d1 > 0,
    ;
    lemma_fundamental_div_mod_converse(a1, d1, v1, 0);
    lemma_fundamental_div_mod_converse(a2, d1, v2, 0);
    // the product of the half sum and the half difference
    assert(4 * (s * n) == b2 * b2 - b1 * b1) by (nonlinear_arith)
        requires
            2 * s == b1 + b2,
            2 * n == b2 - b1,
    ;
    assert(4 * a1 * c1 == 4 * (a1 * c1) && 4 * a2 * c2 == 4 * (a2 * c2)) by (nonlinear_arith);
    assert(s * n == a2 * c2 - a1 * c1);
    assert(x2 * s - y2 * d == d1) by (nonlinear_arith)
        requires
            x2 * s + v * d == d1,
            y2 == -v,
    ;
    lemma_fundamental_div_mod(t, v1);
    let k = t / v1;
    let r = t % v1;
    // first congruence: n + v2 r is a multiple of v1
    let ga = lemma_first_congruence(a1, a2, c1, c2, d, d1, v1, v2, s, n, y1, y2, w, x2, t);
    let alpha = -ga - v2 * k;
    assert(n + v2 * r == v1 * alpha) by (nonlinear_arith)
        requires
            n + v2 * t + v1 * ga == 0,
            t == v1 * k + r,
            alpha == -ga - v2 * k,
    ;
    // second congruence: s r + d1 c2 is a multiple of v1 d1
    let gc = lemma_second_congruence(a1, a2, c1, c2, d, d1, v1, s, n, y1, y2, w, x2, t);
    let beta1 = -(y2 * gc) - s1 * k;
    let beta = d1 * beta1;
    let (vd, yg, sk, vk) = (v1 * d1, y2 * gc, s1 * k, v1 * k);
    assert(s * (vk + r) == s * vk + s * r) by (nonlinear_arith);
    assert(s * vk == vd * sk) by (nonlinear_arith)
        requires
            s == d1 * s1,
            vk == v1 * k,
            vd == v1 * d1,
            sk == s1 * k,
    ;
    assert(v1 * beta == vd * beta1) by (nonlinear_arith)
        requires
            beta == d1 * beta1,
            vd == v1 * d1,
    ;
    assert(vd * (-yg - sk) == -(vd * yg) - vd * sk) by (nonlinear_arith);
    assert(s * r + d1 * c2 == v1 * beta);
    // third congruence, and the square of the new middle coefficient
    lemma_third_congruence(delta, a2, b1, b2, c2, d1, v1, v2, s, r, alpha, beta);
    let b3 = b2 + (2 * v2) * r;
    let a3 = v1 * v2;
    let e = b3 * b3 - delta;
    assert(a3 > 0) by (nonlinear_arith)
        requires
            a3 == v1 * v2,
            v1 > 0,
            v2 > 0,
    ;
    let z = alpha * r + beta;
    assert(e == z * (4 * a3)) by (nonlinear_arith)
        requires
            e == (4 * a3) * z,
    ;
    lemma_mod_multiples_basic(z, 4 * a3);
    lemma_fundamental_div_mod_converse(e, 4 * a3, z, 0);
    let c3 = e / (4 * a3);
    let form = FormModel { a: a3, b: b3, c: c3 };
    assert(discriminant(form) == delta) by (nonlinear_arith)
        requires
            form.a == a3,
            form.b == b3,
            form.c == z,
            e == (4 * a3) * z,
            e == b3 * b3 - delta,
    ;
    // the quotients of the three congruences
    assert(b3 - b1 == 2 * (v1 * alpha)) by (nonlinear_arith)
        requires
            b3 == b2 + (2 * v2) * r,
            2 * n == b2 - b1,
            n + v2 * r == v1 * alpha,
    ;
    assert(b3 - b2 == 2 * (v2 * r)) by (nonlinear_arith)
        requires
            b3 == b2 + (2 * v2) * r,
    ;
    assert(a3 * beta == (a3 * d1) * beta1) by (nonlinear_arith)
        requires
            beta == d1 * beta1,
    ;
    assert(b1 + b2 == 2 * (d1 * s1));
    assert(t == (y1 * (-v)) * n - x2 * f2.c);
    Union { d1, v1, v2, s1, r, alpha, beta1, form }
}

/// The value of a form at a point.
pub open spec fn value_at(f: FormModel, x: int, y: int) -> int {
    f.a * (x * x) + f.b * (x * y) + f.c * (y * y)
}

/// The first coordinate of the point at which the united form takes the
/// product of the values of the two forms at `(x1, y1)` and `(x2, y2)`.
pub open spec fn product_x(u: Union, x1: int, y1: int, x2: int, y2: int) -> int {
    u.d1 * (x1 * x2) - u.r * (x1 * y2) - u.alpha * (x2 * y1) - u.beta1 * (y1 * y2)
}

/// The second coordinate of that point.
pub open spec fn product_y(u: Union, x1: int, y1: int, x2: int, y2: int) -> int {
    u.v1 * (x1 * y2) + u.v2 * (x2 * y1) + u.s1 * (y1 * y2)
}

/// Four times the leading coefficient times the value of a form is a norm:
/// `(2 a x + b y)^2 - delta y^2 = 4 a f(x, y)`.
pub proof fn lemma_norm(delta: int, f: FormModel, x: int, y: int)
    requires
        discriminant(f) == delta,
    ensures
        (2 * (f.a * x) + f.b * y) * (2 * (f.a * x) + f.b * y) - delta * (y * y) == 4 * (f.a
            * value_at(f, x, y)),
{
    let (a, b, c) = (f.a, f.b, f.c);
    let (xx, xy, yy) = (x * x, x * y, y * y);
    let (p, q) = (a * x, b * y);
    let (aa, ab, ac, bb) = (a * a, a * b, a * c, b * b);
    assert((2 * p + q) * (2 * p + q) == 4 * (p * p) + 4 * (p * q) + q * q) by (nonlinear_arith);
    assert(p * p == aa * xx) by (nonlinear_arith)
        requires
            p == a * x,
            aa == a * a,
            xx == x * x,
    ;
    assert(p * q == ab * xy) by (nonlinear_arith)
        requires
            p == a * x,
            q == b * y,
            ab == a * b,
            xy == x * y,
    ;
    assert(q * q == bb * yy) by (nonlinear_arith)
        requires
            q == b * y,
            bb == b * b,
            yy == y * y,
    ;
    assert(4 * a * c == 4 * ac) by (nonlinear_arith)
        requires
            ac == a * c,
    ;
    assert(delta * yy == bb * yy - 4 * (ac * yy)) by (nonlinear_arith)
        requires
            delta == bb - 4 * ac,
    ;
    let (t1, t2, t3) = (a * xx, b * xy, c * yy);
    assert(a * (t1 + t2 + t3) == a * t1 + a * t2 + a * t3) by (nonlinear_arith);
    assert(a * t1 == aa * xx) by (nonlinear_arith)
        requires
            t1 == a * xx,
            aa == a * a,
    ;
    assert(a * t2 == ab * xy) by (nonlinear_arith)
        requires
            t2 == b * xy,
            ab == a * b,
    ;
    assert(a * t3 == ac * yy) by (nonlinear_arith)
        requires
            t3 == c * yy,
            ac == a * c,
    ;
}

/// The product of two norms is a norm:
/// `(u1^2 - d y1^2) (u2^2 - d y2^2) = (u1 u2 + d y1 y2)^2 - d (u1 y2 + u2 y1)^2`.
pub proof fn lemma_norms_multiply(d: int, u1: int, y1: int, u2: int, y2: int)
    ensures
        (u1 * u1 - d * (y1 * y1)) * (u2 * u2 - d * (y2 * y2)) == (u1 * u2 + d * (y1 * y2)) * (u1 * u2
            + d * (y1 * y2)) - d * ((u1 * y2 + u2 * y1) * (u1 * y2 + u2 * y1)),
{
    let (a, b, c, e) = (u1 * u2, y1 * y2, u1 * y2, u2 * y1);
    let (p1, q1, p2, q2) = (u1 * u1, y1 * y1, u2 * u2, y2 * y2);
    assert(p1 * p2 == a * a) by (nonlinear_arith)
        requires
            p1 == u1 * u1,
            p2 == u2 * u2,
            a == u1 * u2,
    ;
    assert(p1 * q2 == c * c) by (nonlinear_arith)
        requires
            p1 == u1 * u1,
            q2 == y2 * y2,
            c == u1 * y2,
    ;
    assert(q1 * p2 == e * e) by (nonlinear_arith)
        requires
            q1 == y1 * y1,
            p2 == u2 * u2,
            e == u2 * y1,
    ;
    assert(q1 * q2 == b * b) by (nonlinear_arith)
        requires
            q1 == y1 * y1,
            q2 == y2 * y2,
            b == y1 * y2,
    ;
    assert(a * b == c * e) by (nonlinear_arith)
        requires
            a == u1 * u2,
            b == y1 * y2,
            c == u1 * y2,
            e == u2 * y1,
    ;
    let (aa, bb, cc, ee, ab) = (a * a, b * b, c * c, e * e, a * b);
    let (n1, n2) = (d * q1, d * q2);
    assert((p1 - n1) * (p2 - n2) == p1 * p2 - p1 * n2 - n1 * p2 + n1 * n2) by (nonlinear_arith);
    assert(p1 * n2 == d * (p1 * q2)) by (nonlinear_arith)
        requires
            n2 == d * q2,
    ;
    assert(n1 * p2 == d * (q1 * p2)) by (nonlinear_arith)
        requires
            n1 == d * q1,
    ;
    assert(n1 * n2 == (d * d) * (q1 * q2)) by (nonlinear_arith)
        requires
            n1 == d * q1,
            n2 == d * q2,
    ;
    assert((a + d * b) * (a + d * b) == aa + 2 * (d * ab) + (d * d) * bb) by (nonlinear_arith)
        requires
            aa == a * a,
            bb == b * b,
            ab == a * b,
    ;
    assert((c + e) * (c + e) == cc + 2 * ab + ee) by (nonlinear_arith)
        requires
            cc == c * c,
            ee == e * e,
            ab == c * e,
    ;
    assert(d * (cc + 2 * ab + ee) == d * cc + 2 * (d * ab) + d * ee) by (nonlinear_arith);
}

/// The product of two sums of two terms.
pub proof fn lemma_expand(p: int, x1: int, q: int, y1: int, r: int, x2: int, s: int, y2: int)
    ensures
        (p * x1 + q * y1) * (r * x2 + s * y2) == (p * r) * (x1 * x2) + (p * s) * (x1 * y2) + (q * r)
            * (x2 * y1) + (q * s) * (y1 * y2),
{
    let (a, b, c, d) = (p * x1, q * y1, r * x2, s * y2);
    assert((a + b) * (c + d) == a * c + a * d + b * c + b * d) by (nonlinear_arith);
    assert(a * c == (p * r) * (x1 * x2)) by (nonlinear_arith)
        requires
            a == p * x1,
            c == r * x2,
    ;
    assert(a * d == (p * s) * (x1 * y2)) by (nonlinear_arith)
        requires
            a == p * x1,
            d == s * y2,
    ;
    assert(b * c == (q * r) * (x2 * y1)) by (nonlinear_arith)
        requires
            b == q * y1,
            c == r * x2,
    ;
    assert(b * d == (q * s) * (y1 * y2)) by (nonlinear_arith)
        requires
            b == q * y1,
            d == s * y2,
    ;
}


/// The united form takes the products of the values of the two forms: the
/// value of `f1` at `(x1, y1)` times the value of `f2` at `(x2, y2)` is the
/// value of the united form at a point that is bilinear in the two.
pub proof fn law_values_multiply(
    delta: int,
    f1: FormModel,
    f2: FormModel,
    u: Union,
    x1: int,
    y1: int,
    x2: int,
    y2: int,
)
    requires
        is_union(delta, f1, f2, u),
        discriminant(f1) == delta,
        discriminant(f2) == delta,
    ensures
        value_at(f1, x1, y1) * value_at(f2, x2, y2) == value_at(
            u.form,
            product_x(u, x1, y1, x2, y2),
            product_y(u, x1, y1, x2, y2),
        ),
{
    let (a1, b1, a2, b2) = (f1.a, f1.b, f2.a, f2.b);
    let (a3, b3) = (u.form.a, u.form.b);
    let (d1, v1, v2, s1, r, al, be) = (u.d1, u.v1, u.v2, u.s1, u.r, u.alpha, u.beta1);
    let (m11, m12, m21, m22) = (x1 * x2, x1 * y2, x2 * y1, y1 * y2);
    let x3 = product_x(u, x1, y1, x2, y2);
    let y3 = product_y(u, x1, y1, x2, y2);
    let u1 = (2 * a1) * x1 + b1 * y1;
    let u2 = (2 * a2) * x2 + b2 * y2;
    let u3 = 2 * (a3 * x3) + b3 * y3;
    let val1 = value_at(f1, x1, y1);
    let val2 = value_at(f2, x2, y2);
    let val3 = value_at(u.form, x3, y3);
    lemma_norm(delta, f1, x1, y1);
    lemma_norm(delta, f2, x2, y2);
    lemma_norm(delta, u.form, x3, y3);
    assert((2 * a1) * x1 == 2 * (a1 * x1) && (2 * a2) * x2 == 2 * (a2 * x2)) by (nonlinear_arith);
    assert(u1 * u1 - delta * (y1 * y1) == 4 * (a1 * val1));
    assert(u2 * u2 - delta * (y2 * y2) == 4 * (a2 * val2));
    assert(u3 * u3 - delta * (y3 * y3) == 4 * (a3 * val3));
    // the second coordinate of the product
    assert(u1 * y2 == 2 * (a1 * m12) + b1 * m22) by (nonlinear_arith)
        requires
            u1 == (2 * a1) * x1 + b1 * y1,
            m12 == x1 * y2,
            m22 == y1 * y2,
    ;
    assert(u2 * y1 == 2 * (a2 * m21) + b2 * m22) by (nonlinear_arith)
        requires
            u2 == (2 * a2) * x2 + b2 * y2,
            m21 == x2 * y1,
            m22 == y1 * y2,
    ;
    assert(a1 * m12 == d1 * (v1 * m12)) by (nonlinear_arith)
        requires
            a1 == d1 * v1,
    ;
    assert(a2 * m21 == d1 * (v2 * m21)) by (nonlinear_arith)
        requires
            a2 == d1 * v2,
    ;
    assert(b1 * m22 + b2 * m22 == 2 * (d1 * (s1 * m22))) by (nonlinear_arith)
        requires
            b1 + b2 == 2 * (d1 * s1),
    ;
    assert(d1 * y3 == d1 * (v1 * m12) + d1 * (v2 * m21) + d1 * (s1 * m22)) by (nonlinear_arith)
        requires
            y3 == v1 * m12 + v2 * m21 + s1 * m22,
    ;
    let z = 2 * (d1 * y3);
    assert(u1 * y2 + u2 * y1 == z);
    // the first coordinate of the product
    lemma_expand(2 * a1, x1, b1, y1, 2 * a2, x2, b2, y2);
    let g = d1 * a3;
    let h = d1 * b3;
    let (k11, k12, k21, k22) = (g * d1, g * r, g * al, g * be);
    assert(g * x3 == k11 * m11 - k12 * m12 - k21 * m21 - k22 * m22) by {
        let (t1, t2, t3, t4) = (d1 * m11, r * m12, al * m21, be * m22);
        assert(g * (t1 - t2 - t3 - t4) == g * t1 - g * t2 - g * t3 - g * t4) by (nonlinear_arith);
        assert(g * t1 == k11 * m11) by (nonlinear_arith)
            requires
                t1 == d1 * m11,
                k11 == g * d1,
        ;
        assert(g * t2 == k12 * m12) by (nonlinear_arith)
            requires
                t2 == r * m12,
                k12 == g * r,
        ;
        assert(g * t3 == k21 * m21) by (nonlinear_arith)
            requires
                t3 == al * m21,
                k21 == g * al,
        ;
        assert(g * t4 == k22 * m22) by (nonlinear_arith)
            requires
                t4 == be * m22,
                k22 == g * be,
        ;
    }
    let (j12, j21, j22) = (h * v1, h * v2, h * s1);
    assert(h * y3 == j12 * m12 + j21 * m21 + j22 * m22) by {
        let (t2, t3, t4) = (v1 * m12, v2 * m21, s1 * m22);
        assert(h * (t2 + t3 + t4) == h * t2 + h * t3 + h * t4) by (nonlinear_arith);
        assert(h * t2 == j12 * m12) by (nonlinear_arith)
            requires
                t2 == v1 * m12,
                j12 == h * v1,
        ;
        assert(h * t3 == j21 * m21) by (nonlinear_arith)
            requires
                t3 == v2 * m21,
                j21 == h * v2,
        ;
        assert(h * t4 == j22 * m22) by (nonlinear_arith)
            requires
                t4 == s1 * m22,
                j22 == h * s1,
        ;
    }
    let w = 2 * (d1 * u3);
    assert(d1 * u3 == 2 * (g * x3) + h * y3) by (nonlinear_arith)
        requires
            u3 == 2 * (a3 * x3) + b3 * y3,
            g == d1 * a3,
            h == d1 * b3,
    ;
    // the four coefficients agree
    assert((2 * a1) * (2 * a2) == 4 * k11) by (nonlinear_arith)
        requires
            a1 == d1 * v1,
            a2 == d1 * v2,
            k11 == (d1 * a3) * d1,
            a3 == v1 * v2,
    ;
    let vr = v2 * r;
    assert(k12 == a1 * vr && j12 == a1 * b3) by (nonlinear_arith)
        requires
            k12 == (d1 * a3) * r,
            j12 == (d1 * b3) * v1,
            a3 == v1 * v2,
            a1 == d1 * v1,
            vr == v2 * r,
    ;
    assert((2 * a1) * b2 == 2 * j12 - 4 * k12) by (nonlinear_arith)
        requires
            k12 == a1 * vr,
            j12 == a1 * b3,
            b3 - b2 == 2 * vr,
    ;
    let va = v1 * al;
    assert(k21 == a2 * va && j21 == a2 * b3) by (nonlinear_arith)
        requires
            k21 == (d1 * a3) * al,
            j21 == (d1 * b3) * v2,
            a3 == v1 * v2,
            a2 == d1 * v2,
            va == v1 * al,
    ;
    assert(b1 * (2 * a2) == 2 * j21 - 4 * k21) by (nonlinear_arith)
        requires
            k21 == a2 * va,
            j21 == a2 * b3,
            b3 - b1 == 2 * va,
    ;
    assert(2 * j22 == (b1 + b2) * b3 && k22 == (a3 * d1) * be) by (nonlinear_arith)
        requires
            j22 == (d1 * b3) * s1,
            b1 + b2 == 2 * (d1 * s1),
            k22 == (d1 * a3) * be,
    ;
    assert(b1 * b2 + delta == 2 * j22 - 4 * k22);
    assert(u1 * u2 + delta * m22 == w) by {
        let c11 = (2 * a1) * (2 * a2);
        let c12 = (2 * a1) * b2;
        let c21 = b1 * (2 * a2);
        let c22 = b1 * b2;
        assert(c22 * m22 + delta * m22 == (2 * j22 - 4 * k22) * m22) by (nonlinear_arith)
            requires
                c22 + delta == 2 * j22 - 4 * k22,
        ;
        assert((2 * j22 - 4 * k22) * m22 == 2 * (j22 * m22) - 4 * (k22 * m22)) by (nonlinear_arith);
        assert(c12 * m12 == 2 * (j12 * m12) - 4 * (k12 * m12)) by (nonlinear_arith)
            requires
                c12 == 2 * j12 - 4 * k12,
        ;
        assert(c21 * m21 == 2 * (j21 * m21) - 4 * (k21 * m21)) by (nonlinear_arith)
            requires
                c21 == 2 * j21 - 4 * k21,
        ;
        assert(c11 * m11 == 4 * (k11 * m11)) by (nonlinear_arith)
            requires
                c11 == 4 * k11,
        ;
    }
    // the product of the two norms is the norm of the product
    lemma_norms_multiply(delta, u1, y1, u2, y2);
    let p = val1 * val2;
    let m = a1 * a2;
    let (n1, n2) = (a1 * val1, a2 * val2);
    assert((4 * n1) * (4 * n2) == 16 * (m * p)) by (nonlinear_arith)
        requires
            n1 == a1 * val1,
            n2 == a2 * val2,
            m == a1 * a2,
            p == val1 * val2,
    ;
    let (q3, dd) = (u3 * u3 - delta * (y3 * y3), d1 * d1);
    assert(w * w - delta * (z * z) == (4 * dd) * q3) by {
        let (e, f) = (d1 * u3, d1 * y3);
        assert(w * w == 4 * (e * e) && z * z == 4 * (f * f)) by (nonlinear_arith)
            requires
                w == 2 * e,
                z == 2 * f,
        ;
        assert(e * e == dd * (u3 * u3) && f * f == dd * (y3 * y3)) by (nonlinear_arith)
            requires
                e == d1 * u3,
                f == d1 * y3,
                dd == d1 * d1,
        ;
        let (uu, yy) = (u3 * u3, y3 * y3);
        assert(delta * (4 * (dd * yy)) == (4 * dd) * (delta * yy)) by (nonlinear_arith);
        assert((4 * dd) * (uu - delta * yy) == 4 * (dd * uu) - (4 * dd) * (delta * yy))
            by (nonlinear_arith);
    }
    let n3 = a3 * val3;
    assert(m == dd * a3) by (nonlinear_arith)
        requires
            m == a1 * a2,
            a1 == d1 * v1,
            a2 == d1 * v2,
            a3 == v1 * v2,
            dd == d1 * d1,
    ;
    assert((4 * dd) * (4 * n3) == 16 * (m * val3)) by (nonlinear_arith)
        requires
            n3 == a3 * val3,
            m == dd * a3,
    ;
    assert(m > 0) by (nonlinear_arith)
        requires
            m == a1 * a2,
            a1 == d1 * v1,
            a2 == d1 * v2,
            d1 > 0,
            v1 > 0,
            v2 > 0,
    ;
    assert(m * p == m * val3);
    vstd::arithmetic::mul::lemma_mul_equality_converse(m, p, val3);
}


/// A common divisor of the coefficients of a form divides all its values.
pub proof fn lemma_value_divisible(k: int, f: FormModel, x: int, y: int)
    requires
        k > 0,
        f.a % k == 0,
        f.b % k == 0,
        f.c % k == 0,
    ensures
        value_at(f, x, y) % k == 0,
{
    let (xx, xy, yy) = (x * x, x * y, y * y);
    lemma_divides_combination(k, f.a, f.b, xx, xy);
    lemma_divides_combination(k, xx * f.a + xy * f.b, f.c, 1, yy);
    assert(1 * (xx * f.a + xy * f.b) + yy * f.c == f.a * xx + f.b * xy + f.c * yy)
        by (nonlinear_arith);
}

/// A combination of the coefficients of a primitive form that is one.
pub proof fn lemma_primitive_combination(f: FormModel) -> (p: (int, int, int))
    requires
        is_primitive(f),
    ensures
        p.0 * f.a + p.1 * f.b + p.2 * f.c == 1,
{
    lemma_content(f);
    let (g1, u1, v1) = xgcd_spec(f.a, f.b);
    let (g, u, v) = xgcd_spec(g1, f.c);
    lemma_xgcd(f.a, f.b);
    lemma_xgcd(g1, f.c);
    let (la, lb, lc) = (u * u1, u * v1, v);
    let (t1, t2) = (u1 * f.a, v1 * f.b);
    assert(u * (t1 + t2) == u * t1 + u * t2) by (nonlinear_arith);
    assert(u * t1 == la * f.a && u * t2 == lb * f.b) by (nonlinear_arith)
        requires
            t1 == u1 * f.a,
            t2 == v1 * f.b,
            la == u * u1,
            lb == u * v1,
    ;
    (la, lb, lc)
}

/// The coefficients of a primitive form at which a combination of its
/// values at `(1, 0)`, `(0, 1)` and `(1, 1)` is one.
proof fn lemma_primitive_values(f: FormModel) -> (p: (int, int, int))
    requires
        is_primitive(f),
    ensures
        p.0 * value_at(f, 1, 0) + p.1 * value_at(f, 0, 1) + p.2 * value_at(f, 1, 1) == 1,
{
    lemma_content(f);
    let (g1, u1, v1) = xgcd_spec(f.a, f.b);
    let (g, u, v) = xgcd_spec(g1, f.c);
    lemma_xgcd(f.a, f.b);
    lemma_xgcd(g1, f.c);
    let (la, lb, lc) = (u * u1, u * v1, v);
    assert(la * f.a + lb * f.b + lc * f.c == 1) by (nonlinear_arith)
        requires
            u1 * f.a + v1 * f.b == g1,
            u * g1 + v * f.c == 1,
            la == u * u1,
            lb == u * v1,
            lc == v,
    ;
    let (a, b, c) = (f.a, f.b, f.c);
    assert(a * (1int * 1) + b * (1int * 0) + c * (0int * 0) == a) by (nonlinear_arith);
    assert(a * (0int * 0) + b * (0int * 1) + c * (1int * 1) == c) by (nonlinear_arith);
    assert(a * (1int * 1) + b * (1int * 1) + c * (1int * 1) == a + b + c) by (nonlinear_arith);
    assert(value_at(f, 1, 0) == a && value_at(f, 0, 1) == c && value_at(f, 1, 1) == a + b + c);
    assert((la - lb) * a + (lc - lb) * c + lb * (a + b + c) == la * a + lb * b + lc * c)
        by (nonlinear_arith);
    (la - lb, lc - lb, lb)
}

/// What divides the coefficients of a united form divides every product
/// of a value of the one form and a value of the other.
proof fn lemma_product_divisible(
    delta: int,
    f1: FormModel,
    f2: FormModel,
    u: Union,
    k: int,
    x1: int,
    y1: int,
    x2: int,
    y2: int,
)
    requires
        is_union(delta, f1, f2, u),
        discriminant(f1) == delta,
        discriminant(f2) == delta,
        k > 0,
        u.form.a % k == 0,
        u.form.b % k == 0,
        u.form.c % k == 0,
    ensures
        (value_at(f1, x1, y1) * value_at(f2, x2, y2)) % k == 0,
{
    law_values_multiply(delta, f1, f2, u, x1, y1, x2, y2);
    lemma_value_divisible(
        k,
        u.form,
        product_x(u, x1, y1, x2, y2),
        product_y(u, x1, y1, x2, y2),
    );
}

/// What divides the products of three numbers with `w`, divides `w` where
/// a combination of the three is one.
proof fn lemma_cancel_unit(k: int, a: int, c: int, s: int, p: (int, int, int), w: int)
    requires
        k > 0,
        p.0 * a + p.1 * c + p.2 * s == 1,
        (a * w) % k == 0,
        (c * w) % k == 0,
        (s * w) % k == 0,
    ensures
        w % k == 0,
{
    let (p0, p1, p2) = (p.0, p.1, p.2);
    let (aw, cw, sw) = (a * w, c * w, s * w);
    lemma_divides_combination(k, aw, cw, p0, p1);
    lemma_divides_combination(k, p0 * aw + p1 * cw, sw, 1, p2);
    assert(p0 * aw == (p0 * a) * w) by (nonlinear_arith)
        requires
            aw == a * w,
    ;
    assert(p1 * cw == (p1 * c) * w) by (nonlinear_arith)
        requires
            cw == c * w,
    ;
    assert(p2 * sw == (p2 * s) * w) by (nonlinear_arith)
        requires
            sw == s * w,
    ;
    let (t0, t1, t2) = (p0 * a, p1 * c, p2 * s);
    assert((t0 + t1 + t2) * w == t0 * w + t1 * w + t2 * w) by (nonlinear_arith);
    assert((t0 + t1 + t2) * w == w) by (nonlinear_arith)
        requires
            t0 + t1 + t2 == 1,
    ;
}

/// The united form of two primitive forms is primitive: a common divisor
/// of its coefficients divides all products of values of the two forms,
/// and among those a combination is one.
pub proof fn lemma_union_primitive(delta: int, f1: FormModel, f2: FormModel, u: Union)
    requires
        is_union(delta, f1, f2, u),
        discriminant(f1) == delta,
        discriminant(f2) == delta,
        is_primitive(f1),
        is_primitive(f2),
    ensures
        is_primitive(u.form),
{
    let p = lemma_primitive_values(f1);
    let q = lemma_primitive_values(f2);
    let (a1, c1, s1) = (value_at(f1, 1, 0), value_at(f1, 0, 1), value_at(f1, 1, 1));
    let (a2, c2, s2) = (value_at(f2, 1, 0), value_at(f2, 0, 1), value_at(f2, 1, 1));
    assert forall|k: int| k > 1 implies !(#[trigger] (u.form.a % k) == 0 && u.form.b % k == 0
        && u.form.c % k == 0) by {
        if u.form.a % k == 0 && u.form.b % k == 0 && u.form.c % k == 0 {
            lemma_product_divisible(delta, f1, f2, u, k, 1, 0, 1, 0);
            lemma_product_divisible(delta, f1, f2, u, k, 0, 1, 1, 0);
            lemma_product_divisible(delta, f1, f2, u, k, 1, 1, 1, 0);
            lemma_cancel_unit(k, a1, c1, s1, p, a2);
            lemma_product_divisible(delta, f1, f2, u, k, 1, 0, 0, 1);
            lemma_product_divisible(delta, f1, f2, u, k, 0, 1, 0, 1);
            lemma_product_divisible(delta, f1, f2, u, k, 1, 1, 0, 1);
            lemma_cancel_unit(k, a1, c1, s1, p, c2);
            lemma_product_divisible(delta, f1, f2, u, k, 1, 0, 1, 1);
            lemma_product_divisible(delta, f1, f2, u, k, 0, 1, 1, 1);
            lemma_product_divisible(delta, f1, f2, u, k, 1, 1, 1, 1);
            lemma_cancel_unit(k, a1, c1, s1, p, s2);
            lemma_divides_combination(k, a2, c2, q.0, q.1);
            lemma_divides_combination(k, q.0 * a2 + q.1 * c2, s2, 1, q.2);
            assert(1int % k == 0);
            vstd::arithmetic::div_mod::lemma_small_mod(1, k as nat);
        }
    }
}

/// Normalizing keeps a form primitive.
proof fn lemma_normalize_primitive(f: FormModel)
    requires
        f.a > 0,
        is_primitive(f),
    ensures
        is_primitive(normalize_spec(f)),
{
    let n = normalize_spec(f);
    let k = (f.a - f.b) / (2 * f.a);
    assert forall|j: int| j > 1 implies !(#[trigger] (n.a % j) == 0 && n.b % j == 0 && n.c % j == 0) by {
        if n.a % j == 0 && n.b % j == 0 && n.c % j == 0 {
            let (a, b, c) = (f.a, f.b, f.c);
            lemma_divides_combination(j, n.b, a, 1, -(2 * k));
            assert(1 * n.b + (-(2 * k)) * a == b) by (nonlinear_arith)
                requires
                    n.b == b + (2 * a) * k,
            ;
            lemma_divides_combination(j, a, b, k * k, k);
            lemma_divides_combination(j, n.c, (k * k) * a + k * b, 1, -1);
            assert(1 * n.c + (-1) * ((k * k) * a + k * b) == c) by (nonlinear_arith)
                requires
                    n.c == (a * k + b) * k + c,
            ;
            assert(f.a % j == 0 && f.b % j == 0 && f.c % j == 0);
        }
    }
}

/// Reduction keeps a form primitive.
pub proof fn lemma_reduce_primitive(f: FormModel)
    requires
        f.a > 0,
        discriminant(f) < 0,
        is_primitive(f),
    ensures
        is_primitive(reduce_spec(f)),
    decreases f.a,
{
    lemma_normalize(f);
    lemma_normalize_primitive(f);
    let n = normalize_spec(f);
    lemma_positive_definite(n);
    if n.a > n.c {
        let s = FormModel { a: n.c, b: -n.b, c: n.a };
        assert(discriminant(s) == discriminant(n)) by (nonlinear_arith)
            requires
                s.a == n.c,
                s.b == -n.b,
                s.c == n.a,
        ;
        let m = FormModel { a: n.a, b: -n.b, c: n.c };
        lemma_negated_primitive(n);
        assert forall|j: int| j > 1 implies !(#[trigger] (s.a % j) == 0 && s.b % j == 0 && s.c % j
            == 0) by {
            if s.a % j == 0 && s.b % j == 0 && s.c % j == 0 {
                assert(m.a % j == 0 && m.b % j == 0 && m.c % j == 0);
            }
        }
        lemma_reduce_primitive(s);
    } else if n.a == n.c && n.b < 0 {
        lemma_negated_primitive(n);
    }
}


/// The form that takes at `(x, y)` the value that `f` takes at
/// `(p x + q y, r x + s y)`.
pub open spec fn transform(f: FormModel, p: int, q: int, r: int, s: int) -> FormModel {
    FormModel {
        a: value_at(f, p, r),
        b: 2 * (f.a * (p * q)) + f.b * (p * s + q * r) + 2 * (f.c * (r * s)),
        c: value_at(f, q, s),
    }
}

/// Proper equivalence: `g` is `f` after a substitution of determinant
/// one. Equivalent forms make up one class.
pub open spec fn is_equivalent(f: FormModel, g: FormModel) -> bool {
    exists|p: int, q: int, r: int, s: int| p * s - q * r == 1 && g == #[trigger] transform(f, p, q, r, s)
}

/// The values of a transformed form are the values of the form at the
/// substituted points.
pub proof fn lemma_transform_value(f: FormModel, p: int, q: int, r: int, s: int, x: int, y: int)
    ensures
        value_at(transform(f, p, q, r, s), x, y) == value_at(f, p * x + q * y, r * x + s * y),
{
    let (a, b, c) = (f.a, f.b, f.c);
    let g = transform(f, p, q, r, s);
    let (xx, xy, yy) = (x * x, x * y, y * y);
    let (m, n) = (p * x + q * y, r * x + s * y);
    // the three products of the substituted coordinates, by powers of x and y
    let (pp, pq, qq) = (p * p, p * q, q * q);
    let (pr, ps, qr, qs) = (p * r, p * s, q * r, q * s);
    let (rr, rs, ss) = (r * r, r * s, s * s);
    assert(m * m == pp * xx + 2 * (pq * xy) + qq * yy) by {
        lemma_binomial(p, x, q, y);
    }
    assert(n * n == rr * xx + 2 * (rs * xy) + ss * yy) by {
        lemma_binomial(r, x, s, y);
    }
    assert(m * n == pr * xx + (ps + qr) * xy + qs * yy) by {
        lemma_expand(p, x, q, y, r, x, s, y);
        assert((ps + qr) * xy == ps * xy + qr * xy) by (nonlinear_arith);
        assert(y * y == yy && x * x == xx && x * y == xy);
    }
    // the value of the form at the substituted point, by powers of x and y
    let ca = a * pp + b * pr + c * rr;
    let cb = 2 * (a * pq) + b * (ps + qr) + 2 * (c * rs);
    let cc = a * qq + b * qs + c * ss;
    assert(a * (m * m) == (a * pp) * xx + (2 * (a * pq)) * xy + (a * qq) * yy) by {
        lemma_spread(a, pp, xx, 2 * pq, xy, qq, yy);
        assert(a * (2 * pq) == 2 * (a * pq)) by (nonlinear_arith);
        assert(2 * (pq * xy) == (2 * pq) * xy) by (nonlinear_arith);
    }
    assert(b * (m * n) == (b * pr) * xx + (b * (ps + qr)) * xy + (b * qs) * yy) by {
        lemma_spread(b, pr, xx, ps + qr, xy, qs, yy);
    }
    assert(c * (n * n) == (c * rr) * xx + (2 * (c * rs)) * xy + (c * ss) * yy) by {
        lemma_spread(c, rr, xx, 2 * rs, xy, ss, yy);
        assert(c * (2 * rs) == 2 * (c * rs)) by (nonlinear_arith);
        assert(2 * (rs * xy) == (2 * rs) * xy) by (nonlinear_arith);
    }
    assert(ca * xx == (a * pp) * xx + (b * pr) * xx + (c * rr) * xx) by (nonlinear_arith)
        requires
            ca == a * pp + b * pr + c * rr,
    ;
    assert(cb * xy == (2 * (a * pq)) * xy + (b * (ps + qr)) * xy + (2 * (c * rs)) * xy)
        by (nonlinear_arith)
        requires
            cb == 2 * (a * pq) + b * (ps + qr) + 2 * (c * rs),
    ;
    assert(cc * yy == (a * qq) * yy + (b * qs) * yy + (c * ss) * yy) by (nonlinear_arith)
        requires
            cc == a * qq + b * qs + c * ss,
    ;
    assert(g.a == ca && g.b == cb && g.c == cc);
}

/// The square of a sum of two products.
pub proof fn lemma_binomial(p: int, x: int, q: int, y: int)
    ensures
        (p * x + q * y) * (p * x + q * y) == (p * p) * (x * x) + 2 * ((p * q) * (x * y)) + (q * q) * (y
            * y),
{
    lemma_expand(p, x, q, y, p, x, q, y);
    assert((p * q) * (x * y) == (q * p) * (x * y)) by (nonlinear_arith);
}

/// A factor spread over a sum of three products.
pub proof fn lemma_spread(a: int, k1: int, m1: int, k2: int, m2: int, k3: int, m3: int)
    ensures
        a * (k1 * m1 + k2 * m2 + k3 * m3) == (a * k1) * m1 + (a * k2) * m2 + (a * k3) * m3,
{
    let (t1, t2, t3) = (k1 * m1, k2 * m2, k3 * m3);
    assert(a * (t1 + t2 + t3) == a * t1 + a * t2 + a * t3) by (nonlinear_arith);
    assert(a * t1 == (a * k1) * m1) by (nonlinear_arith)
        requires
            t1 == k1 * m1,
    ;
    assert(a * t2 == (a * k2) * m2) by (nonlinear_arith)
        requires
            t2 == k2 * m2,
    ;
    assert(a * t3 == (a * k3) * m3) by (nonlinear_arith)
        requires
            t3 == k3 * m3,
    ;
}


/// A form is fixed by its values at `(1, 0)`, `(0, 1)` and `(1, 1)`.
pub proof fn lemma_form_by_values(f: FormModel, g: FormModel)
    requires
        value_at(f, 1, 0) == value_at(g, 1, 0),
        value_at(f, 0, 1) == value_at(g, 0, 1),
        value_at(f, 1, 1) == value_at(g, 1, 1),
    ensures
        f == g,
{
    lemma_unit_values(f);
    lemma_unit_values(g);
}

/// The values of a form at `(1, 0)`, `(0, 1)` and `(1, 1)`.
pub proof fn lemma_unit_values(f: FormModel)
    ensures
        value_at(f, 1, 0) == f.a,
        value_at(f, 0, 1) == f.c,
        value_at(f, 1, 1) == f.a + f.b + f.c,
{
    let (a, b, c) = (f.a, f.b, f.c);
    assert(a * (1int * 1) + b * (1int * 0) + c * (0int * 0) == a) by (nonlinear_arith);
    assert(a * (0int * 0) + b * (0int * 1) + c * (1int * 1) == c) by (nonlinear_arith);
    assert(a * (1int * 1) + b * (1int * 1) + c * (1int * 1) == a + b + c) by (nonlinear_arith);
}

/// One substitution after another is the substitution by the product of
/// the two matrices.
pub proof fn lemma_transform_twice(
    f: FormModel,
    p: int,
    q: int,
    r: int,
    s: int,
    p2: int,
    q2: int,
    r2: int,
    s2: int,
)
    ensures
        transform(transform(f, p, q, r, s), p2, q2, r2, s2) == transform(
            f,
            p * p2 + q * r2,
            p * q2 + q * s2,
            r * p2 + s * r2,
            r * q2 + s * s2,
        ),
        (p * p2 + q * r2) * (r * q2 + s * s2) - (p * q2 + q * s2) * (r * p2 + s * r2) == (p * s - q
            * r) * (p2 * s2 - q2 * r2),
{
    let g = transform(f, p, q, r, s);
    let left = transform(g, p2, q2, r2, s2);
    let (p3, q3, r3, s3) = (p * p2 + q * r2, p * q2 + q * s2, r * p2 + s * r2, r * q2 + s * s2);
    let right = transform(f, p3, q3, r3, s3);
    // the value at (1, 0)
    lemma_transform_value(g, p2, q2, r2, s2, 1, 0);
    lemma_transform_value(f, p, q, r, s, p2 * 1 + q2 * 0, r2 * 1 + s2 * 0);
    lemma_transform_value(f, p3, q3, r3, s3, 1, 0);
    // the value at (0, 1)
    lemma_transform_value(g, p2, q2, r2, s2, 0, 1);
    lemma_transform_value(f, p, q, r, s, p2 * 0 + q2 * 1, r2 * 0 + s2 * 1);
    lemma_transform_value(f, p3, q3, r3, s3, 0, 1);
    // the value at (1, 1)
    lemma_transform_value(g, p2, q2, r2, s2, 1, 1);
    lemma_transform_value(f, p, q, r, s, p2 * 1 + q2 * 1, r2 * 1 + s2 * 1);
    lemma_transform_value(f, p3, q3, r3, s3, 1, 1);
    assert(p * (p2 + q2) + q * (r2 + s2) == p3 + q3 && r * (p2 + q2) + s * (r2 + s2) == r3 + s3)
        by (nonlinear_arith)
        requires
            p3 == p * p2 + q * r2,
            q3 == p * q2 + q * s2,
            r3 == r * p2 + s * r2,
            s3 == r * q2 + s * s2,
    ;
    lemma_form_by_values(left, right);
    // the determinant of a product
    lemma_expand(p, p2, q, r2, r, q2, s, s2);
    lemma_expand(p, q2, q, s2, r, p2, s, r2);
    let (e1, e2) = (p * s - q * r, p2 * s2 - q2 * r2);
    assert(e1 * e2 == (p * s) * (p2 * s2) - (p * s) * (q2 * r2) - (q * r) * (p2 * s2) + (q * r) * (q2
        * r2)) by {
        let (a, b, c, d) = (p * s, q * r, p2 * s2, q2 * r2);
        assert((a - b) * (c - d) == a * c - a * d - b * c + b * d) by (nonlinear_arith);
    }
    assert((p * r) * (p2 * q2) == (p * r) * (q2 * p2)) by (nonlinear_arith);
    assert((q * s) * (r2 * s2) == (q * s) * (s2 * r2)) by (nonlinear_arith);
    assert((p * s) * (s2 * p2) == (p * s) * (p2 * s2)) by (nonlinear_arith);
    assert((q * r) * (p2 * s2) == (q * r) * (s2 * p2)) by (nonlinear_arith);
    assert((q * r) * (q2 * r2) == (q * r) * (r2 * q2)) by (nonlinear_arith);
    assert((p * s) * (q2 * r2) == (p * s) * (r2 * q2)) by (nonlinear_arith);
}

/// Every form is equivalent to itself.
pub proof fn law_equivalent_reflexive(f: FormModel)
    ensures
        is_equivalent(f, f),
{
    let g = transform(f, 1, 0, 0, 1);
    lemma_transform_value(f, 1, 0, 0, 1, 1, 0);
    lemma_transform_value(f, 1, 0, 0, 1, 0, 1);
    lemma_transform_value(f, 1, 0, 0, 1, 1, 1);
    lemma_form_by_values(g, f);
}

/// What is equivalent to an equivalent form is equivalent.
pub proof fn law_equivalent_transitive(f: FormModel, g: FormModel, h: FormModel)
    requires
        is_equivalent(f, g),
        is_equivalent(g, h),
    ensures
        is_equivalent(f, h),
{
    let (p, q, r, s) = choose|p: int, q: int, r: int, s: int|
        p * s - q * r == 1 && g == #[trigger] transform(f, p, q, r, s);
    let (p2, q2, r2, s2) = choose|p: int, q: int, r: int, s: int|
        p * s - q * r == 1 && h == #[trigger] transform(g, p, q, r, s);
    lemma_transform_twice(f, p, q, r, s, p2, q2, r2, s2);
    let (p3, q3, r3, s3) = (p * p2 + q * r2, p * q2 + q * s2, r * p2 + s * r2, r * q2 + s * s2);
    assert(p3 * s3 - q3 * r3 == 1) by (nonlinear_arith)
        requires
            p3 * s3 - q3 * r3 == (p * s - q * r) * (p2 * s2 - q2 * r2),
            p * s - q * r == 1,
            p2 * s2 - q2 * r2 == 1,
    ;
    assert(h == transform(f, p3, q3, r3, s3));
}

/// Normalizing gives an equivalent form: it moves `x` by a multiple of
/// `y`.
proof fn lemma_normalize_equivalent(f: FormModel)
    requires
        f.a > 0,
    ensures
        is_equivalent(f, normalize_spec(f)),
{
    let k = (f.a - f.b) / (2 * f.a);
    let n = normalize_spec(f);
    let g = transform(f, 1, k, 0, 1);
    let (a, b, c) = (f.a, f.b, f.c);
    lemma_unit_values(f);
    assert(g.c == n.c) by (nonlinear_arith)
        requires
            g.c == a * (k * k) + b * (k * 1) + c * (1int * 1),
            n.c == (a * k + b) * k + c,
    ;
    assert(g.b == n.b) by (nonlinear_arith)
        requires
            g.b == 2 * (a * (1 * k)) + b * (1 * 1 + k * 0) + 2 * (c * (0int * 1)),
            n.b == b + (2 * a) * k,
    ;
    assert(1int * 1 - k * 0 == 1) by (nonlinear_arith);
    assert(n == transform(f, 1, k, 0, 1));
}

/// Exchanging the outer coefficients and negating the middle one gives an
/// equivalent form: it exchanges `x` and `y` and negates one of them.
proof fn lemma_exchange_equivalent(f: FormModel)
    ensures
        is_equivalent(f, FormModel { a: f.c, b: -f.b, c: f.a }),
{
    let g = transform(f, 0, -1, 1, 0);
    let (a, b, c) = (f.a, f.b, f.c);
    assert(g.a == c) by (nonlinear_arith)
        requires
            g.a == a * (0int * 0) + b * (0int * 1) + c * (1int * 1),
    ;
    assert(g.c == a) by (nonlinear_arith)
        requires
            g.c == a * ((-1int) * (-1)) + b * ((-1int) * 0) + c * (0int * 0),
    ;
    assert(g.b == -b) by (nonlinear_arith)
        requires
            g.b == 2 * (a * (0int * (-1))) + b * (0int * 0 + (-1int) * 1) + 2 * (c * (1int * 0)),
    ;
    assert(0int * 0 - (-1int) * 1 == 1) by (nonlinear_arith);
    assert(FormModel { a: f.c, b: -f.b, c: f.a } == transform(f, 0, -1, 1, 0));
}

/// Reduction stays within the class: the reduced form is equivalent to the
/// form that was reduced.
pub proof fn law_reduce_stays_in_class(f: FormModel)
    requires
        f.a > 0,
        discriminant(f) < 0,
    ensures
        is_equivalent(f, reduce_spec(f)),
    decreases f.a,
{
    lemma_normalize(f);
    lemma_normalize_equivalent(f);
    let n = normalize_spec(f);
    lemma_positive_definite(n);
    let s = FormModel { a: n.c, b: -n.b, c: n.a };
    lemma_exchange_equivalent(n);
    if n.a > n.c {
        assert(discriminant(s) == discriminant(n)) by (nonlinear_arith)
            requires
                s.a == n.c,
                s.b == -n.b,
                s.c == n.a,
        ;
        law_reduce_stays_in_class(s);
        law_equivalent_transitive(n, s, reduce_spec(s));
        law_equivalent_transitive(f, n, reduce_spec(s));
    } else if n.a == n.c && n.b < 0 {
        law_equivalent_transitive(f, n, s);
    }
}


/// The substitution by the inverse matrix leads back.
pub proof fn lemma_transform_back(f: FormModel, p: int, q: int, r: int, s: int)
    requires
        p * s - q * r == 1,
    ensures
        transform(transform(f, p, q, r, s), s, -q, -r, p) == f,
        s * p - (-q) * (-r) == 1,
{
    lemma_transform_twice(f, p, q, r, s, s, -q, -r, p);
    assert(p * s + q * (-r) == 1 && p * (-q) + q * p == 0 && r * s + s * (-r) == 0 && r * (-q) + s
        * p == 1) by (nonlinear_arith)
        requires
            p * s - q * r == 1,
    ;
    assert(s * p - (-q) * (-r) == 1) by (nonlinear_arith)
        requires
            p * s - q * r == 1,
    ;
    let g = transform(f, 1, 0, 0, 1);
    lemma_transform_value(f, 1, 0, 0, 1, 1, 0);
    lemma_transform_value(f, 1, 0, 0, 1, 0, 1);
    lemma_transform_value(f, 1, 0, 0, 1, 1, 1);
    lemma_form_by_values(g, f);
}

/// Equivalence goes both ways.
pub proof fn law_equivalent_symmetric(f: FormModel, g: FormModel)
    requires
        is_equivalent(f, g),
    ensures
        is_equivalent(g, f),
{
    let (p, q, r, s) = choose|p: int, q: int, r: int, s: int|
        p * s - q * r == 1 && g == #[trigger] transform(f, p, q, r, s);
    lemma_transform_back(f, p, q, r, s);
    assert(f == transform(g, s, -q, -r, p));
}

/// A reduced form takes no value below its leading coefficient, but at
/// the origin: at `(x, 0)` it takes `a x^2`, at `(0, y)` it takes
/// `c y^2`, and elsewhere at least `a - |b| + c`.
proof fn lemma_least_value(f: FormModel, x: int, y: int)
    requires
        is_reduced(f),
        x != 0 || y != 0,
    ensures
        value_at(f, x, y) >= f.a,
        y == 0 ==> value_at(f, x, y) == f.a * (x * x),
        x == 0 ==> value_at(f, x, y) == f.c * (y * y),
        x != 0 && y != 0 && f.b >= 0 ==> value_at(f, x, y) >= f.a - f.b + f.c,
        x != 0 && y != 0 && f.b < 0 ==> value_at(f, x, y) >= f.a + f.b + f.c,
        x == 0 ==> value_at(f, x, y) >= f.c,
{
    let (a, b, c) = (f.a, f.b, f.c);
    let (xx, xy, yy) = (x * x, x * y, y * y);
    if y == 0 {
        assert(xy == 0 && yy == 0) by (nonlinear_arith)
            requires
                y == 0,
                xy == x * y,
                yy == y * y,
        ;
        assert(b * xy == 0 && c * yy == 0) by (nonlinear_arith)
            requires
                xy == 0,
                yy == 0,
        ;
        assert(a * xx >= a) by (nonlinear_arith)
            requires
                xx == x * x,
                x != 0,
                a > 0,
        ;
    } else if x == 0 {
        assert(xy == 0 && xx == 0) by (nonlinear_arith)
            requires
                x == 0,
                xy == x * y,
                xx == x * x,
        ;
        assert(b * xy == 0 && a * xx == 0) by (nonlinear_arith)
            requires
                xy == 0,
                xx == 0,
        ;
        assert(c * yy >= c) by (nonlinear_arith)
            requires
                yy == y * y,
                y != 0,
                c > 0,
        ;
    } else {
        // with m the smaller of x^2 and y^2, in absolute value |x y| >= m
        let ax = if x < 0 { -x } else { x };
        let ay = if y < 0 { -y } else { y };
        let w = ax * ay;
        assert(xx == ax * ax && yy == ay * ay && (xy == w || xy == -w)) by (nonlinear_arith)
            requires
                xx == x * x,
                yy == y * y,
                xy == x * y,
                w == ax * ay,
                ax == x || ax == -x,
                ay == y || ay == -y,
                (ax == x) == (x >= 0),
                (ay == y) == (y >= 0),
        ;
        let bb = if b < 0 { -b } else { b };
        assert(b * xy >= -(bb * w)) by (nonlinear_arith)
            requires
                xy == w || xy == -w,
                bb == b || bb == -b,
                bb >= 0,
                w >= 0,
        ;
        assert(w >= 1) by (nonlinear_arith)
            requires
                w == ax * ay,
                ax >= 1,
                ay >= 1,
        ;
        if ax >= ay {
            assert(xx >= w && yy >= 1) by (nonlinear_arith)
                requires
                    xx == ax * ax,
                    yy == ay * ay,
                    w == ax * ay,
                    ax >= ay,
                    ay >= 1,
            ;
            assert(a * xx - bb * w + c * yy >= a - bb + c) by (nonlinear_arith)
                requires
                    xx >= w,
                    yy >= 1,
                    w >= 1,
                    a >= bb,
                    bb >= 0,
                    c > 0,
                    a > 0,
            ;
        } else {
            assert(yy >= w && xx >= 1) by (nonlinear_arith)
                requires
                    xx == ax * ax,
                    yy == ay * ay,
                    w == ax * ay,
                    ay >= ax,
                    ax >= 1,
            ;
            assert(a * xx - bb * w + c * yy >= a - bb + c) by (nonlinear_arith)
                requires
                    yy >= w,
                    xx >= 1,
                    w >= 1,
                    c >= bb,
                    bb >= 0,
                    c > 0,
                    a > 0,
            ;
        }
    }
}

/// A reduced form is the only reduced form of its discriminant in its
/// class: two reduced forms of one discriminant that are equivalent are
/// equal.
pub proof fn law_reduced_form_is_unique(delta: int, f: FormModel, g: FormModel)
    requires
        is_form(delta, f),
        is_form(delta, g),
        is_equivalent(f, g),
    ensures
        f == g,
{
    let (p, q, r, s) = choose|p: int, q: int, r: int, s: int|
        p * s - q * r == 1 && g == #[trigger] transform(f, p, q, r, s);
    let (a, b, c) = (f.a, f.b, f.c);
    // neither leading coefficient is below the other
    assert(p != 0 || r != 0) by (nonlinear_arith)
        requires
            p * s - q * r == 1,
    ;
    lemma_least_value(f, p, r);
    lemma_transform_back(f, p, q, r, s);
    assert(s != 0 || -r != 0) by (nonlinear_arith)
        requires
            p * s - q * r == 1,
    ;
    lemma_least_value(g, s, -r);
    assert(g.a == a);
    // the middle coefficient
    let pq = p * q;
    let rs = r * s;
    let ps = p * s;
    let qr = q * r;
    assert(g.b == 2 * (a * pq) + b * (ps + qr) + 2 * (c * rs));
    if r == 0 {
        assert(qr == 0 && rs == 0) by (nonlinear_arith)
            requires
                r == 0,
                qr == q * r,
                rs == r * s,
        ;
        assert(c * rs == 0 && b * (ps + qr) == b) by (nonlinear_arith)
            requires
                rs == 0,
                ps + qr == 1,
        ;
        assert(pq == 0) by (nonlinear_arith)
            requires
                g.b == 2 * (a * pq) + b,
                -a < g.b <= a,
                -a < b <= a,
                a > 0,
        ;
        assert(a * pq == 0) by (nonlinear_arith)
            requires
                pq == 0,
        ;
    } else if p == 0 {
        assert(pq == 0 && ps == 0) by (nonlinear_arith)
            requires
                p == 0,
                pq == p * q,
                ps == p * s,
        ;
        let rr = r * r;
        assert(rr >= 1) by (nonlinear_arith)
            requires
                rr == r * r,
                r != 0,
        ;
        assert(c == a) by (nonlinear_arith)
            requires
                c * rr == a,
                rr >= 1,
                c >= a,
                a > 0,
        ;
        assert(a * pq == 0 && b * (ps + qr) == -b) by (nonlinear_arith)
            requires
                pq == 0,
                ps + qr == -1,
        ;
        assert(g.b == 2 * (a * rs) - b);
        assert(rs == 0 || rs == 1) by (nonlinear_arith)
            requires
                g.b == 2 * (a * rs) - b,
                -a < g.b <= a,
                0 <= b <= a,
                a > 0,
        ;
        if rs == 0 {
            assert(s == 0) by (nonlinear_arith)
                requires
                    rs == r * s,
                    rs == 0,
                    r != 0,
            ;
            assert(q != 0) by (nonlinear_arith)
                requires
                    qr == q * r,
                    qr == -1,
            ;
            lemma_least_value(f, q, s);
            let qq = q * q;
            assert(qq == 1) by (nonlinear_arith)
                requires
                    qq == q * q,
                    qr == q * r,
                    qr == -1,
            ;
            assert(a * qq == a) by (nonlinear_arith)
                requires
                    qq == 1,
            ;
            assert(a * rs == 0) by (nonlinear_arith)
                requires
                    rs == 0,
            ;
            assert(g.c == g.a);
        } else {
            assert(a * rs == a) by (nonlinear_arith)
                requires
                    rs == 1,
            ;
        }
    } else {
        // the value a is taken off the axes: all three coefficients are equal
        assert(b == a && c == a);
        let (gb, gc) = (g.b, g.c);
        assert(gb == a) by (nonlinear_arith)
            requires
                gb * gb - 4 * a * gc == a * a - 4 * a * a,
                gc >= a,
                -a < gb <= a,
                a > 0,
        ;
    }
    lemma_form_by_two(delta, f, g);
}

/// Reduction gives the canonical representative of a class: the reduced
/// form of a form is the only reduced form equivalent to it.
pub proof fn law_reduce_is_canonical(f: FormModel, g: FormModel)
    requires
        f.a > 0,
        discriminant(f) < 0,
        is_form(discriminant(f), g),
        is_equivalent(f, g),
    ensures
        g == reduce_spec(f),
{
    lemma_reduce(f);
    law_reduce_stays_in_class(f);
    law_equivalent_symmetric(f, reduce_spec(f));
    law_equivalent_transitive(reduce_spec(f), f, g);
    law_reduced_form_is_unique(discriminant(f), reduce_spec(f), g);
}


/// What composition is: the composition of two elements is the reduced
/// form of the class of their united form, and the united form takes, at
/// a point that is bilinear in `(x1, y1)` and `(x2, y2)`, the product of
/// the values that the two elements take there.
pub proof fn law_composition_takes_products(delta: int, x: FormModel, y: FormModel) -> (u: Union)
    requires
        is_element(delta, x),
        is_element(delta, y),
    ensures
        is_union(delta, if precedes(x, y) { x } else { y }, if precedes(x, y) { y } else { x }, u),
        is_equivalent(u.form, compose_spec(delta, x, y)),
        forall|x1: int, y1: int, x2: int, y2: int|
            value_at(if precedes(x, y) { x } else { y }, x1, y1) * value_at(
                if precedes(x, y) { y } else { x },
                x2,
                y2,
            ) == value_at(
                u.form,
                #[trigger] product_x(u, x1, y1, x2, y2),
                #[trigger] product_y(u, x1, y1, x2, y2),
            ),
{
    lemma_reduced_negative(x);
    let (f1, f2) = if precedes(x, y) {
        (x, y)
    } else {
        (y, x)
    };
    let u = lemma_union(delta, f1, f2);
    let (v1, v2) = (u.v1, u.v2);
    assert(v1 * v2 > 0) by (nonlinear_arith)
        requires
            v1 > 0,
            v2 > 0,
    ;
    law_reduce_stays_in_class(u.form);
    assert forall|x1: int, y1: int, x2: int, y2: int|
        value_at(f1, x1, y1) * value_at(f2, x2, y2) == value_at(
            u.form,
            #[trigger] product_x(u, x1, y1, x2, y2),
            #[trigger] product_y(u, x1, y1, x2, y2),
        ) by {
        law_values_multiply(delta, f1, f2, u, x1, y1, x2, y2);
    }
    u
}

} // verus!
