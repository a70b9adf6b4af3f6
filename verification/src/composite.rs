//! Composites: forms that take the products of the values of two forms at
//! points that are bilinear in the two arguments. All composites of two
//! forms lie in one class, which is why composition is a law on classes.

use vstd::prelude::*;
use vstd::arithmetic::mul::lemma_mul_equality_converse;
use crate::form::{
    FormModel, discriminant, is_primitive, compose_spec, precedes, reduce_spec, lemma_reduce,
};
use crate::united::{
    Union, is_union, value_at, product_x, product_y, transform, is_equivalent, law_values_multiply,
    lemma_transform_value, lemma_transform_twice, lemma_unit_values,
    lemma_primitive_combination, lemma_union, law_reduce_stays_in_class, law_reduce_is_canonical,
    law_equivalent_transitive, lemma_norm, lemma_norms_multiply,
    lemma_value_divisible, lemma_transform_back,
};

verus! {

/// A bilinear map from two points of the plane to one: its two rows, by
/// the coefficients of `x1 x2`, `x1 y2`, `x2 y1` and `y1 y2`.
pub struct Bilinear {
    pub p0: int,
    pub p1: int,
    pub p2: int,
    pub p3: int,
    pub q0: int,
    pub q1: int,
    pub q2: int,
    pub q3: int,
}

/// The first coordinate of the image of the two points `(x1, y1)` and
/// `(x2, y2)`.
pub open spec fn bil_x(n: Bilinear, x1: int, y1: int, x2: int, y2: int) -> int {
    n.p0 * (x1 * x2) + n.p1 * (x1 * y2) + n.p2 * (x2 * y1) + n.p3 * (y1 * y2)
}

/// The second coordinate of that image.
pub open spec fn bil_y(n: Bilinear, x1: int, y1: int, x2: int, y2: int) -> int {
    n.q0 * (x1 * x2) + n.q1 * (x1 * y2) + n.q2 * (x2 * y1) + n.q3 * (y1 * y2)
}

/// The determinant of two columns.
pub open spec fn det(p: int, q: int, r: int, s: int) -> int {
    p * s - r * q
}

/// `f` is a composite of `f1` and `f2` through `n`: it takes the products
/// of their values, and the six minors of `n` are the coefficients of the
/// two forms: `a1`, `a2`, `(b1 + b2) / 2`, `(b2 - b1) / 2`, `c2` and `c1`.
pub open spec fn is_composite(f1: FormModel, f2: FormModel, f: FormModel, n: Bilinear) -> bool {
    &&& forall|x1: int, y1: int, x2: int, y2: int|
        value_at(f1, x1, y1) * value_at(f2, x2, y2) == value_at(
            f,
            #[trigger] bil_x(n, x1, y1, x2, y2),
            #[trigger] bil_y(n, x1, y1, x2, y2),
        )
    &&& det(n.p0, n.q0, n.p1, n.q1) == f1.a
    &&& det(n.p0, n.q0, n.p2, n.q2) == f2.a
    &&& det(n.p0, n.q0, n.p3, n.q3) + det(n.p1, n.q1, n.p2, n.q2) == f2.b
    &&& det(n.p0, n.q0, n.p3, n.q3) - det(n.p1, n.q1, n.p2, n.q2) == f1.b
    &&& det(n.p1, n.q1, n.p3, n.q3) == f2.c
    &&& det(n.p2, n.q2, n.p3, n.q3) == f1.c
}

/// The bilinear map of a united form.
pub open spec fn union_map(u: Union) -> Bilinear {
    Bilinear {
        p0: u.d1,
        p1: -u.r,
        p2: -u.alpha,
        p3: -u.beta1,
        q0: 0,
        q1: u.v1,
        q2: u.v2,
        q3: u.s1,
    }
}

/// A united form is a composite of the two forms it comes from.
pub proof fn lemma_union_is_composite(delta: int, f1: FormModel, f2: FormModel, u: Union)
    requires
        is_union(delta, f1, f2, u),
        discriminant(f1) == delta,
        discriminant(f2) == delta,
    ensures
        is_composite(f1, f2, u.form, union_map(u)),
{
    let n = union_map(u);
    let (a1, b1, c1, a2, b2, c2) = (f1.a, f1.b, f1.c, f2.a, f2.b, f2.c);
    let (d1, v1, v2, s1, r, al, be) = (u.d1, u.v1, u.v2, u.s1, u.r, u.alpha, u.beta1);
    let (a3, b3) = (u.form.a, u.form.b);
    assert forall|x1: int, y1: int, x2: int, y2: int|
        value_at(f1, x1, y1) * value_at(f2, x2, y2) == value_at(
            u.form,
            #[trigger] bil_x(n, x1, y1, x2, y2),
            #[trigger] bil_y(n, x1, y1, x2, y2),
        ) by {
        law_values_multiply(delta, f1, f2, u, x1, y1, x2, y2);
        let (m11, m12, m21, m22) = (x1 * x2, x1 * y2, x2 * y1, y1 * y2);
        assert((-r) * m12 == -(r * m12) && (-al) * m21 == -(al * m21) && (-be) * m22 == -(be * m22))
            by (nonlinear_arith);
        assert(0 * m11 == 0) by (nonlinear_arith);
        assert(bil_x(n, x1, y1, x2, y2) == product_x(u, x1, y1, x2, y2));
        assert(bil_y(n, x1, y1, x2, y2) == product_y(u, x1, y1, x2, y2));
    }
    // the minors
    assert(det(d1, 0, -r, v1) == a1 && det(d1, 0, -al, v2) == a2) by (nonlinear_arith)
        requires
            a1 == d1 * v1,
            a2 == d1 * v2,
    ;
    let ds = d1 * s1;
    assert(det(d1, 0, -be, s1) == ds) by (nonlinear_arith)
        requires
            ds == d1 * s1,
    ;
    let (va, vr) = (v1 * al, v2 * r);
    assert(det(-r, v1, -al, v2) == va - vr) by (nonlinear_arith)
        requires
            va == v1 * al,
            vr == v2 * r,
    ;
    assert(ds + (va - vr) == b2 && ds - (va - vr) == b1);
    // the two outer minors, from the third congruence and the discriminants
    let (g, sr, sa) = (a3 * d1, s1 * r, s1 * al);
    let (vb1, vb2) = (v1 * be, v2 * be);
    assert(g * be == (d1 * v2) * vb1 && g * be == (d1 * v1) * vb2) by (nonlinear_arith)
        requires
            g == a3 * d1,
            a3 == v1 * v2,
            vb1 == v1 * be,
            vb2 == v2 * be,
    ;
    assert(4 * a1 * c1 == 4 * (a1 * c1) && 4 * a2 * c2 == 4 * (a2 * c2)) by (nonlinear_arith);
    // c2 + s1 r = v1 beta1
    assert((b1 + b2) * b3 == (b1 + b2) * b2 + 4 * ((d1 * v2) * sr)) by (nonlinear_arith)
        requires
            b3 - b2 == 2 * vr,
            b1 + b2 == 2 * ds,
            ds == d1 * s1,
            vr == v2 * r,
            sr == s1 * r,
    ;
    assert((b1 + b2) * b2 == b1 * b2 + b2 * b2) by (nonlinear_arith);
    assert((d1 * v2) * (c2 + sr) == (d1 * v2) * c2 + (d1 * v2) * sr) by (nonlinear_arith);
    assert((d1 * v2) * (c2 + sr) == (d1 * v2) * vb1);
    assert(d1 * v2 > 0) by (nonlinear_arith)
        requires
            d1 > 0,
            v2 > 0,
    ;
    lemma_mul_equality_converse(d1 * v2, c2 + sr, vb1);
    assert(det(-r, v1, -be, s1) == vb1 - sr) by (nonlinear_arith)
        requires
            vb1 == v1 * be,
            sr == s1 * r,
    ;
    // c1 + s1 alpha = v2 beta1
    assert((b1 + b2) * b3 == (b1 + b2) * b1 + 4 * ((d1 * v1) * sa)) by (nonlinear_arith)
        requires
            b3 - b1 == 2 * va,
            b1 + b2 == 2 * ds,
            ds == d1 * s1,
            va == v1 * al,
            sa == s1 * al,
    ;
    assert((b1 + b2) * b1 == b1 * b1 + b1 * b2) by (nonlinear_arith);
    assert((d1 * v1) * (c1 + sa) == (d1 * v1) * c1 + (d1 * v1) * sa) by (nonlinear_arith);
    assert((d1 * v1) * (c1 + sa) == (d1 * v1) * vb2);
    assert(d1 * v1 > 0) by (nonlinear_arith)
        requires
            d1 > 0,
            v1 > 0,
    ;
    lemma_mul_equality_converse(d1 * v1, c1 + sa, vb2);
    assert(det(-al, v2, -be, s1) == vb2 - sa) by (nonlinear_arith)
        requires
            vb2 == v2 * be,
            sa == s1 * al,
    ;
}


/// The relation among three columns of a matrix of two rows, used with the
/// minors of a second matrix in the place of those of the first: the
/// matrix made of two columns of the second and of the adjugate of the same
/// two columns of the first takes a third column of the first to the
/// minor times the third column of the second.
proof fn lemma_column(
    pi: int,
    qi: int,
    pj: int,
    qj: int,
    pk: int,
    qk: int,
    ri: int,
    si: int,
    rj: int,
    sj: int,
    rk: int,
    sk: int,
)
    requires
        det(pk, qk, pj, qj) == det(rk, sk, rj, sj),
        det(pi, qi, pk, qk) == det(ri, si, rk, sk),
        det(pi, qi, pj, qj) == det(ri, si, rj, sj),
    ensures
        (ri * qj - rj * qi) * pk + (rj * pi - ri * pj) * qk == det(pi, qi, pj, qj) * rk,
        (si * qj - sj * qi) * pk + (sj * pi - si * pj) * qk == det(pi, qi, pj, qj) * sk,
{
    let dkj = det(pk, qk, pj, qj);
    let dik = det(pi, qi, pk, qk);
    let dij = det(ri, si, rj, sj);
    // regroup by the columns of the second matrix
    assert((ri * qj - rj * qi) * pk + (rj * pi - ri * pj) * qk == ri * dkj + rj * dik) by {
        let (a, b, c, d) = (qj * pk, pj * qk, pi * qk, qi * pk);
        assert((ri * qj) * pk == ri * a && (rj * qi) * pk == rj * d && (rj * pi) * qk == rj * c && (ri
            * pj) * qk == ri * b) by (nonlinear_arith)
            requires
                a == qj * pk,
                b == pj * qk,
                c == pi * qk,
                d == qi * pk,
        ;
        assert((ri * qj - rj * qi) * pk == (ri * qj) * pk - (rj * qi) * pk) by (nonlinear_arith);
        assert((rj * pi - ri * pj) * qk == (rj * pi) * qk - (ri * pj) * qk) by (nonlinear_arith);
        assert(ri * (a - b) == ri * a - ri * b && rj * (c - d) == rj * c - rj * d)
            by (nonlinear_arith);
        assert(dkj == a - b && dik == c - d) by (nonlinear_arith)
            requires
                dkj == pk * qj - pj * qk,
                dik == pi * qk - pk * qi,
                a == qj * pk,
                b == pj * qk,
                c == pi * qk,
                d == qi * pk,
        ;
    }
    assert((si * qj - sj * qi) * pk + (sj * pi - si * pj) * qk == si * dkj + sj * dik) by {
        let (a, b, c, d) = (qj * pk, pj * qk, pi * qk, qi * pk);
        assert((si * qj) * pk == si * a && (sj * qi) * pk == sj * d && (sj * pi) * qk == sj * c && (si
            * pj) * qk == si * b) by (nonlinear_arith)
            requires
                a == qj * pk,
                b == pj * qk,
                c == pi * qk,
                d == qi * pk,
        ;
        assert((si * qj - sj * qi) * pk == (si * qj) * pk - (sj * qi) * pk) by (nonlinear_arith);
        assert((sj * pi - si * pj) * qk == (sj * pi) * qk - (si * pj) * qk) by (nonlinear_arith);
        assert(si * (a - b) == si * a - si * b && sj * (c - d) == sj * c - sj * d)
            by (nonlinear_arith);
        assert(dkj == a - b && dik == c - d) by (nonlinear_arith)
            requires
                dkj == pk * qj - pj * qk,
                dik == pi * qk - pk * qi,
                a == qj * pk,
                b == pj * qk,
                c == pi * qk,
                d == qi * pk,
        ;
    }
    // the relation among the three columns of the second matrix
    assert(ri * dkj + rj * dik == dij * rk) by {
        let (e1, e2, e3, e4) = (rk * sj, rj * sk, ri * sk, rk * si);
        assert(dkj == e1 - e2 && dik == e3 - e4) by (nonlinear_arith)
            requires
                dkj == rk * sj - rj * sk,
                dik == ri * sk - rk * si,
                e1 == rk * sj,
                e2 == rj * sk,
                e3 == ri * sk,
                e4 == rk * si,
        ;
        assert(ri * (e1 - e2) == ri * e1 - ri * e2 && rj * (e3 - e4) == rj * e3 - rj * e4)
            by (nonlinear_arith);
        assert(ri * e2 == rj * e3) by (nonlinear_arith)
            requires
                e2 == rj * sk,
                e3 == ri * sk,
        ;
        assert(ri * e1 == (ri * sj) * rk && rj * e4 == (rj * si) * rk) by (nonlinear_arith)
            requires
                e1 == rk * sj,
                e4 == rk * si,
        ;
        assert((ri * sj - rj * si) * rk == (ri * sj) * rk - (rj * si) * rk) by (nonlinear_arith);
    }
    assert(si * dkj + sj * dik == dij * sk) by {
        let (e1, e2, e3, e4) = (rk * sj, rj * sk, ri * sk, rk * si);
        assert(dkj == e1 - e2 && dik == e3 - e4) by (nonlinear_arith)
            requires
                dkj == rk * sj - rj * sk,
                dik == ri * sk - rk * si,
                e1 == rk * sj,
                e2 == rj * sk,
                e3 == ri * sk,
                e4 == rk * si,
        ;
        assert(si * (e1 - e2) == si * e1 - si * e2 && sj * (e3 - e4) == sj * e3 - sj * e4)
            by (nonlinear_arith);
        assert(si * e1 == sj * e4) by (nonlinear_arith)
            requires
                e1 == rk * sj,
                e4 == rk * si,
        ;
        assert(sj * e3 == (ri * sj) * sk && si * e2 == (rj * si) * sk) by (nonlinear_arith)
            requires
                e3 == ri * sk,
                e2 == rj * sk,
        ;
        assert((ri * sj - rj * si) * sk == (ri * sj) * sk - (rj * si) * sk) by (nonlinear_arith);
    }
}

/// The matrix that takes the columns of the first map to those of the
/// second, where the two have the same minors and a combination of the
/// minors with the coefficients `l`, `mu` and `nu` is one.
pub open spec fn row_matrix(n: Bilinear, m: Bilinear, l: int, mu: int, nu: int) -> (
    int,
    int,
    int,
    int,
) {
    (
        l * (m.p0 * n.q1 - m.p1 * n.q0) + mu * ((m.p0 * n.q3 - m.p3 * n.q0) - (m.p1 * n.q2 - m.p2
            * n.q1)) + nu * (m.p2 * n.q3 - m.p3 * n.q2),
        l * (m.p1 * n.p0 - m.p0 * n.p1) + mu * ((m.p3 * n.p0 - m.p0 * n.p3) - (m.p2 * n.p1 - m.p1
            * n.p2)) + nu * (m.p3 * n.p2 - m.p2 * n.p3),
        l * (m.q0 * n.q1 - m.q1 * n.q0) + mu * ((m.q0 * n.q3 - m.q3 * n.q0) - (m.q1 * n.q2 - m.q2
            * n.q1)) + nu * (m.q2 * n.q3 - m.q3 * n.q2),
        l * (m.q1 * n.p0 - m.q0 * n.p1) + mu * ((m.q3 * n.p0 - m.q0 * n.p3) - (m.q2 * n.p1 - m.q1
            * n.p2)) + nu * (m.q3 * n.p2 - m.q2 * n.p3),
    )
}

/// The two maps have the same six minors.
pub open spec fn same_minors(n: Bilinear, m: Bilinear) -> bool {
    &&& det(n.p0, n.q0, n.p1, n.q1) == det(m.p0, m.q0, m.p1, m.q1)
    &&& det(n.p0, n.q0, n.p2, n.q2) == det(m.p0, m.q0, m.p2, m.q2)
    &&& det(n.p0, n.q0, n.p3, n.q3) == det(m.p0, m.q0, m.p3, m.q3)
    &&& det(n.p1, n.q1, n.p2, n.q2) == det(m.p1, m.q1, m.p2, m.q2)
    &&& det(n.p1, n.q1, n.p3, n.q3) == det(m.p1, m.q1, m.p3, m.q3)
    &&& det(n.p2, n.q2, n.p3, n.q3) == det(m.p2, m.q2, m.p3, m.q3)
}

/// The row matrix takes one column of the first map to the same column of
/// the second.
proof fn lemma_rows_column(
    n: Bilinear,
    m: Bilinear,
    l: int,
    mu: int,
    nu: int,
    pk: int,
    qk: int,
    rk: int,
    sk: int,
)
    requires
        same_minors(n, m),
        det(n.p0, n.q0, pk, qk) == det(m.p0, m.q0, rk, sk),
        det(n.p1, n.q1, pk, qk) == det(m.p1, m.q1, rk, sk),
        det(n.p2, n.q2, pk, qk) == det(m.p2, m.q2, rk, sk),
        det(n.p3, n.q3, pk, qk) == det(m.p3, m.q3, rk, sk),
        l * det(n.p0, n.q0, n.p1, n.q1) + mu * (det(n.p0, n.q0, n.p3, n.q3) - det(
            n.p1,
            n.q1,
            n.p2,
            n.q2,
        )) + nu * det(n.p2, n.q2, n.p3, n.q3) == 1,
    ensures
        row_matrix(n, m, l, mu, nu).0 * pk + row_matrix(n, m, l, mu, nu).1 * qk == rk,
        row_matrix(n, m, l, mu, nu).2 * pk + row_matrix(n, m, l, mu, nu).3 * qk == sk,
{
    let (d01, d03, d12, d23) = (
        det(n.p0, n.q0, n.p1, n.q1),
        det(n.p0, n.q0, n.p3, n.q3),
        det(n.p1, n.q1, n.p2, n.q2),
        det(n.p2, n.q2, n.p3, n.q3),
    );
    lemma_column(n.p0, n.q0, n.p1, n.q1, pk, qk, m.p0, m.q0, m.p1, m.q1, rk, sk);
    lemma_column(n.p0, n.q0, n.p3, n.q3, pk, qk, m.p0, m.q0, m.p3, m.q3, rk, sk);
    lemma_column(n.p1, n.q1, n.p2, n.q2, pk, qk, m.p1, m.q1, m.p2, m.q2, rk, sk);
    lemma_column(n.p2, n.q2, n.p3, n.q3, pk, qk, m.p2, m.q2, m.p3, m.q3, rk, sk);
    let t = row_matrix(n, m, l, mu, nu);
    // first row
    let (a1, a2, a3, a4) = (
        m.p0 * n.q1 - m.p1 * n.q0,
        m.p0 * n.q3 - m.p3 * n.q0,
        m.p1 * n.q2 - m.p2 * n.q1,
        m.p2 * n.q3 - m.p3 * n.q2,
    );
    let (b1, b2, b3, b4) = (
        m.p1 * n.p0 - m.p0 * n.p1,
        m.p3 * n.p0 - m.p0 * n.p3,
        m.p2 * n.p1 - m.p1 * n.p2,
        m.p3 * n.p2 - m.p2 * n.p3,
    );
    lemma_combine(l, mu, nu, a1, a2, a3, a4, b1, b2, b3, b4, pk, qk);
    lemma_scale(l, mu, nu, d01, d03, d12, d23, rk);
    // second row
    let (c1, c2, c3, c4) = (
        m.q0 * n.q1 - m.q1 * n.q0,
        m.q0 * n.q3 - m.q3 * n.q0,
        m.q1 * n.q2 - m.q2 * n.q1,
        m.q2 * n.q3 - m.q3 * n.q2,
    );
    let (e1, e2, e3, e4) = (
        m.q1 * n.p0 - m.q0 * n.p1,
        m.q3 * n.p0 - m.q0 * n.p3,
        m.q2 * n.p1 - m.q1 * n.p2,
        m.q3 * n.p2 - m.q2 * n.p3,
    );
    lemma_combine(l, mu, nu, c1, c2, c3, c4, e1, e2, e3, e4, pk, qk);
    lemma_scale(l, mu, nu, d01, d03, d12, d23, sk);
}

/// A combination of four rows applied to a column.
proof fn lemma_combine(
    l: int,
    mu: int,
    nu: int,
    a1: int,
    a2: int,
    a3: int,
    a4: int,
    b1: int,
    b2: int,
    b3: int,
    b4: int,
    p: int,
    q: int,
)
    ensures
        (l * a1 + mu * (a2 - a3) + nu * a4) * p + (l * b1 + mu * (b2 - b3) + nu * b4) * q == l * (a1
            * p + b1 * q) + mu * ((a2 * p + b2 * q) - (a3 * p + b3 * q)) + nu * (a4 * p + b4 * q),
{
    let (x1, x2, x3) = (l * a1, mu * (a2 - a3), nu * a4);
    let (y1, y2, y3) = (l * b1, mu * (b2 - b3), nu * b4);
    assert((x1 + x2 + x3) * p == x1 * p + x2 * p + x3 * p) by (nonlinear_arith);
    assert((y1 + y2 + y3) * q == y1 * q + y2 * q + y3 * q) by (nonlinear_arith);
    assert(x1 * p == l * (a1 * p) && y1 * q == l * (b1 * q)) by (nonlinear_arith)
        requires
            x1 == l * a1,
            y1 == l * b1,
    ;
    assert(x3 * p == nu * (a4 * p) && y3 * q == nu * (b4 * q)) by (nonlinear_arith)
        requires
            x3 == nu * a4,
            y3 == nu * b4,
    ;
    assert(x2 * p == mu * (a2 * p) - mu * (a3 * p)) by (nonlinear_arith)
        requires
            x2 == mu * (a2 - a3),
    ;
    assert(y2 * q == mu * (b2 * q) - mu * (b3 * q)) by (nonlinear_arith)
        requires
            y2 == mu * (b2 - b3),
    ;
    let (u1, u2, u3, u4) = (a1 * p + b1 * q, a2 * p + b2 * q, a3 * p + b3 * q, a4 * p + b4 * q);
    assert(l * u1 == l * (a1 * p) + l * (b1 * q)) by (nonlinear_arith)
        requires
            u1 == a1 * p + b1 * q,
    ;
    assert(nu * u4 == nu * (a4 * p) + nu * (b4 * q)) by (nonlinear_arith)
        requires
            u4 == a4 * p + b4 * q,
    ;
    assert(mu * (u2 - u3) == mu * (a2 * p) + mu * (b2 * q) - mu * (a3 * p) - mu * (b3 * q))
        by (nonlinear_arith)
        requires
            u2 == a2 * p + b2 * q,
            u3 == a3 * p + b3 * q,
    ;
}

/// A combination that is one, times a number.
proof fn lemma_scale(l: int, mu: int, nu: int, d01: int, d03: int, d12: int, d23: int, r: int)
    requires
        l * d01 + mu * (d03 - d12) + nu * d23 == 1,
    ensures
        l * (d01 * r) + mu * (d03 * r - d12 * r) + nu * (d23 * r) == r,
{
    let (x1, x2, x3) = (l * d01, mu * (d03 - d12), nu * d23);
    assert((x1 + x2 + x3) * r == x1 * r + x2 * r + x3 * r) by (nonlinear_arith);
    assert((x1 + x2 + x3) * r == r) by (nonlinear_arith)
        requires
            x1 + x2 + x3 == 1,
    ;
    assert(x1 * r == l * (d01 * r)) by (nonlinear_arith)
        requires
            x1 == l * d01,
    ;
    assert(x3 * r == nu * (d23 * r)) by (nonlinear_arith)
        requires
            x3 == nu * d23,
    ;
    assert(x2 * r == mu * (d03 * r - d12 * r)) by (nonlinear_arith)
        requires
            x2 == mu * (d03 - d12),
    ;
}


/// The second map is the first after the matrix `t`: column by column.
pub open spec fn is_image(n: Bilinear, m: Bilinear, t: (int, int, int, int)) -> bool {
    &&& m.p0 == t.0 * n.p0 + t.1 * n.q0
    &&& m.q0 == t.2 * n.p0 + t.3 * n.q0
    &&& m.p1 == t.0 * n.p1 + t.1 * n.q1
    &&& m.q1 == t.2 * n.p1 + t.3 * n.q1
    &&& m.p2 == t.0 * n.p2 + t.1 * n.q2
    &&& m.q2 == t.2 * n.p2 + t.3 * n.q2
    &&& m.p3 == t.0 * n.p3 + t.1 * n.q3
    &&& m.q3 == t.2 * n.p3 + t.3 * n.q3
}

/// The determinant of the images of two columns under a matrix.
proof fn lemma_det_image(a: int, b: int, c: int, d: int, p: int, q: int, r: int, s: int)
    ensures
        det(a * p + b * q, c * p + d * q, a * r + b * s, c * r + d * s) == (a * d - b * c) * det(
            p,
            q,
            r,
            s,
        ),
{
    crate::united::lemma_expand(a, p, b, q, c, r, d, s);
    crate::united::lemma_expand(a, r, b, s, c, p, d, q);
    let (ad, bc, ps, rq) = (a * d, b * c, p * s, r * q);
    assert((ad - bc) * (ps - rq) == ad * ps - ad * rq - bc * ps + bc * rq) by (nonlinear_arith);
    assert((a * c) * (p * r) == (a * c) * (r * p)) by (nonlinear_arith);
    assert((a * d) * (p * s) == ad * ps && (a * d) * (r * q) == ad * rq && (b * c) * (r * q) == bc
        * rq && (b * c) * (p * s) == bc * ps);
    assert((b * c) * (r * q) == (b * c) * (q * r) && (a * d) * (r * q) == (a * d) * (q * r) && (b
        * d) * (s * q) == (b * d) * (q * s)) by (nonlinear_arith);
    assert((b * c) * (s * p) == (b * c) * (p * s) && (a * d) * (s * p) == (a * d) * (p * s))
        by (nonlinear_arith);
}

/// Two maps with the same minors, of which a combination is one, are one
/// the image of the other under a matrix of determinant one.
pub proof fn lemma_rows(n: Bilinear, m: Bilinear, l: int, mu: int, nu: int) -> (t: (
    int,
    int,
    int,
    int,
))
    requires
        same_minors(n, m),
        l * det(n.p0, n.q0, n.p1, n.q1) + mu * (det(n.p0, n.q0, n.p3, n.q3) - det(
            n.p1,
            n.q1,
            n.p2,
            n.q2,
        )) + nu * det(n.p2, n.q2, n.p3, n.q3) == 1,
    ensures
        is_image(n, m, t),
        t.0 * t.3 - t.1 * t.2 == 1,
{
    let t = row_matrix(n, m, l, mu, nu);
    lemma_rows_column(n, m, l, mu, nu, n.p0, n.q0, m.p0, m.q0);
    lemma_rows_column(n, m, l, mu, nu, n.p1, n.q1, m.p1, m.q1);
    lemma_rows_column(n, m, l, mu, nu, n.p2, n.q2, m.p2, m.q2);
    lemma_rows_column(n, m, l, mu, nu, n.p3, n.q3, m.p3, m.q3);
    let e = t.0 * t.3 - t.1 * t.2;
    let (d01, d03, d12, d23) = (
        det(n.p0, n.q0, n.p1, n.q1),
        det(n.p0, n.q0, n.p3, n.q3),
        det(n.p1, n.q1, n.p2, n.q2),
        det(n.p2, n.q2, n.p3, n.q3),
    );
    lemma_det_image(t.0, t.1, t.2, t.3, n.p0, n.q0, n.p1, n.q1);
    lemma_det_image(t.0, t.1, t.2, t.3, n.p0, n.q0, n.p3, n.q3);
    lemma_det_image(t.0, t.1, t.2, t.3, n.p1, n.q1, n.p2, n.q2);
    lemma_det_image(t.0, t.1, t.2, t.3, n.p2, n.q2, n.p3, n.q3);
    assert(e * d01 == d01 && e * d03 == d03 && e * d12 == d12 && e * d23 == d23);
    let (x1, x2, x3) = (l * d01, mu * (d03 - d12), nu * d23);
    assert(e * (x1 + x2 + x3) == e * x1 + e * x2 + e * x3) by (nonlinear_arith);
    assert(e * x1 == l * (e * d01)) by (nonlinear_arith)
        requires
            x1 == l * d01,
    ;
    assert(e * x3 == nu * (e * d23)) by (nonlinear_arith)
        requires
            x3 == nu * d23,
    ;
    assert(e * x2 == mu * (e * d03 - e * d12)) by (nonlinear_arith)
        requires
            x2 == mu * (d03 - d12),
    ;
    assert(e * (x1 + x2 + x3) == e) by (nonlinear_arith)
        requires
            x1 + x2 + x3 == 1,
    ;
    t
}

/// Two forms that take the same values at two points and at their sum are
/// equal, where the two points are independent.
proof fn lemma_forms_agree(f: FormModel, h: FormModel, p0: int, q0: int, p1: int, q1: int)
    requires
        value_at(f, p0, q0) == value_at(h, p0, q0),
        value_at(f, p1, q1) == value_at(h, p1, q1),
        value_at(f, p0 + p1, q0 + q1) == value_at(h, p0 + p1, q0 + q1),
        det(p0, q0, p1, q1) != 0,
    ensures
        f == h,
{
    // after the substitution by the two points the forms are equal
    let fk = transform(f, p0, p1, q0, q1);
    let hk = transform(h, p0, p1, q0, q1);
    lemma_transform_value(f, p0, p1, q0, q1, 1, 1);
    lemma_transform_value(h, p0, p1, q0, q1, 1, 1);
    lemma_unit_values(fk);
    lemma_unit_values(hk);
    assert(fk.a == hk.a && fk.c == hk.c);
    assert(fk == hk);
    // the substitution by the adjugate leads back, up to the determinant
    let d = det(p0, q0, p1, q1);
    lemma_transform_twice(f, p0, p1, q0, q1, q1, -p1, -q0, p0);
    lemma_transform_twice(h, p0, p1, q0, q1, q1, -p1, -q0, p0);
    assert(p0 * q1 + p1 * (-q0) == d && p0 * (-p1) + p1 * p0 == 0 && q0 * q1 + q1 * (-q0) == 0 && q0
        * (-p1) + q1 * p0 == d) by (nonlinear_arith)
        requires
            d == p0 * q1 - p1 * q0,
    ;
    let fd = transform(f, d, 0, 0, d);
    let hd = transform(h, d, 0, 0, d);
    assert(fd == hd);
    lemma_scaled(f, d);
    lemma_scaled(h, d);
    let dd = d * d;
    assert(dd > 0) by (nonlinear_arith)
        requires
            dd == d * d,
            d != 0,
    ;
    lemma_mul_equality_converse(dd, f.a, h.a);
    lemma_mul_equality_converse(dd, f.b, h.b);
    lemma_mul_equality_converse(dd, f.c, h.c);
}

/// The substitution by a multiple of the unit matrix multiplies the
/// coefficients by the square of the factor.
proof fn lemma_scaled(f: FormModel, d: int)
    ensures
        transform(f, d, 0, 0, d).a == (d * d) * f.a,
        transform(f, d, 0, 0, d).b == (d * d) * f.b,
        transform(f, d, 0, 0, d).c == (d * d) * f.c,
{
    let (a, b, c) = (f.a, f.b, f.c);
    let dd = d * d;
    assert(a * (d * d) + b * (d * 0) + c * (0int * 0) == dd * a) by (nonlinear_arith)
        requires
            dd == d * d,
    ;
    assert(a * (0int * 0) + b * (0 * d) + c * (d * d) == dd * c) by (nonlinear_arith)
        requires
            dd == d * d,
    ;
    assert(2 * (a * (d * 0)) + b * (d * d + 0 * 0) + 2 * (c * (0 * d)) == dd * b)
        by (nonlinear_arith)
        requires
            dd == d * d,
    ;
}

/// All composites of two forms lie in one class: two composites of the
/// same two forms, of which the first is primitive, are equivalent.
pub proof fn law_composites_are_equivalent(
    f1: FormModel,
    f2: FormModel,
    f: FormModel,
    n: Bilinear,
    g: FormModel,
    m: Bilinear,
)
    requires
        is_composite(f1, f2, f, n),
        is_composite(f1, f2, g, m),
        is_primitive(f1),
        f1.a != 0,
    ensures
        is_equivalent(g, f),
{
    let (l, mu, nu) = lemma_primitive_combination(f1);
    let t = lemma_rows(n, m, l, mu, nu);
    let h = transform(g, t.0, t.1, t.2, t.3);
    // both forms take the same values at the images of the first map
    assert forall|x2: int, y2: int|
        value_at(f, #[trigger] bil_x(n, 1, 0, x2, y2), #[trigger] bil_y(n, 1, 0, x2, y2))
            == value_at(h, bil_x(n, 1, 0, x2, y2), bil_y(n, 1, 0, x2, y2)) by {
        let (x, y) = (bil_x(n, 1, 0, x2, y2), bil_y(n, 1, 0, x2, y2));
        lemma_transform_value(g, t.0, t.1, t.2, t.3, x, y);
        lemma_image_point(n, m, t, 1, 0, x2, y2);
        assert(value_at(f1, 1, 0) * value_at(f2, x2, y2) == value_at(f, x, y));
        assert(value_at(f1, 1, 0) * value_at(f2, x2, y2) == value_at(
            g,
            bil_x(m, 1, 0, x2, y2),
            bil_y(m, 1, 0, x2, y2),
        ));
    }
    lemma_point(n, 1, 0);
    lemma_point(n, 0, 1);
    lemma_point(n, 1, 1);
    assert(value_at(f, bil_x(n, 1, 0, 1, 0), bil_y(n, 1, 0, 1, 0)) == value_at(
        h,
        bil_x(n, 1, 0, 1, 0),
        bil_y(n, 1, 0, 1, 0),
    ));
    assert(value_at(f, bil_x(n, 1, 0, 0, 1), bil_y(n, 1, 0, 0, 1)) == value_at(
        h,
        bil_x(n, 1, 0, 0, 1),
        bil_y(n, 1, 0, 0, 1),
    ));
    assert(value_at(f, bil_x(n, 1, 0, 1, 1), bil_y(n, 1, 0, 1, 1)) == value_at(
        h,
        bil_x(n, 1, 0, 1, 1),
        bil_y(n, 1, 0, 1, 1),
    ));
    lemma_forms_agree(f, h, n.p0, n.q0, n.p1, n.q1);
}

/// The image of the first map at the points `(1, 0)` and `(x2, y2)`, for
/// `x2` and `y2` zero or one.
proof fn lemma_point(n: Bilinear, x2: int, y2: int)
    requires
        (x2 == 0 || x2 == 1) && (y2 == 0 || y2 == 1),
    ensures
        bil_x(n, 1, 0, x2, y2) == n.p0 * x2 + n.p1 * y2,
        bil_y(n, 1, 0, x2, y2) == n.q0 * x2 + n.q1 * y2,
{
    assert(n.p0 * (1 * x2) + n.p1 * (1 * y2) + n.p2 * (x2 * 0) + n.p3 * (0 * y2) == n.p0 * x2 + n.p1
        * y2) by (nonlinear_arith)
        requires
            (x2 == 0 || x2 == 1) && (y2 == 0 || y2 == 1),
    ;
    assert(n.q0 * (1 * x2) + n.q1 * (1 * y2) + n.q2 * (x2 * 0) + n.q3 * (0 * y2) == n.q0 * x2 + n.q1
        * y2) by (nonlinear_arith)
        requires
            (x2 == 0 || x2 == 1) && (y2 == 0 || y2 == 1),
    ;
}

/// The second map at a pair of points is the matrix applied to the first
/// map at that pair.
proof fn lemma_image_point(
    n: Bilinear,
    m: Bilinear,
    t: (int, int, int, int),
    x1: int,
    y1: int,
    x2: int,
    y2: int,
)
    requires
        is_image(n, m, t),
    ensures
        bil_x(m, x1, y1, x2, y2) == t.0 * bil_x(n, x1, y1, x2, y2) + t.1 * bil_y(n, x1, y1, x2, y2),
        bil_y(m, x1, y1, x2, y2) == t.2 * bil_x(n, x1, y1, x2, y2) + t.3 * bil_y(n, x1, y1, x2, y2),
{
    let (m11, m12, m21, m22) = (x1 * x2, x1 * y2, x2 * y1, y1 * y2);
    lemma_image_row(t.0, t.1, n, m11, m12, m21, m22);
    lemma_image_row(t.2, t.3, n, m11, m12, m21, m22);
}

/// One row of a matrix applied to a map.
proof fn lemma_image_row(a: int, b: int, n: Bilinear, m11: int, m12: int, m21: int, m22: int)
    ensures
        (a * n.p0 + b * n.q0) * m11 + (a * n.p1 + b * n.q1) * m12 + (a * n.p2 + b * n.q2) * m21 + (a
            * n.p3 + b * n.q3) * m22 == a * (n.p0 * m11 + n.p1 * m12 + n.p2 * m21 + n.p3 * m22) + b
            * (n.q0 * m11 + n.q1 * m12 + n.q2 * m21 + n.q3 * m22),
{
    let (x0, x1, x2, x3) = (n.p0 * m11, n.p1 * m12, n.p2 * m21, n.p3 * m22);
    let (y0, y1, y2, y3) = (n.q0 * m11, n.q1 * m12, n.q2 * m21, n.q3 * m22);
    assert(a * (x0 + x1 + x2 + x3) == a * x0 + a * x1 + a * x2 + a * x3) by (nonlinear_arith);
    assert(b * (y0 + y1 + y2 + y3) == b * y0 + b * y1 + b * y2 + b * y3) by (nonlinear_arith);
    assert((a * n.p0 + b * n.q0) * m11 == a * x0 + b * y0) by (nonlinear_arith)
        requires
            x0 == n.p0 * m11,
            y0 == n.q0 * m11,
    ;
    assert((a * n.p1 + b * n.q1) * m12 == a * x1 + b * y1) by (nonlinear_arith)
        requires
            x1 == n.p1 * m12,
            y1 == n.q1 * m12,
    ;
    assert((a * n.p2 + b * n.q2) * m21 == a * x2 + b * y2) by (nonlinear_arith)
        requires
            x2 == n.p2 * m21,
            y2 == n.q2 * m21,
    ;
    assert((a * n.p3 + b * n.q3) * m22 == a * x3 + b * y3) by (nonlinear_arith)
        requires
            x3 == n.p3 * m22,
            y3 == n.q3 * m22,
    ;
}


/// The determinant of two combinations of columns.
proof fn lemma_det_combination(
    a: int,
    b: int,
    c: int,
    d: int,
    u1: int,
    u2: int,
    v1: int,
    v2: int,
    w1: int,
    w2: int,
    z1: int,
    z2: int,
)
    ensures
        det(a * u1 + b * v1, a * u2 + b * v2, c * w1 + d * z1, c * w2 + d * z2) == (a * c) * det(
            u1,
            u2,
            w1,
            w2,
        ) + (a * d) * det(u1, u2, z1, z2) + (b * c) * det(v1, v2, w1, w2) + (b * d) * det(
            v1,
            v2,
            z1,
            z2,
        ),
{
    crate::united::lemma_expand(a, u1, b, v1, c, w2, d, z2);
    crate::united::lemma_expand(c, w1, d, z1, a, u2, b, v2);
    let (ac, ad, bc, bd) = (a * c, a * d, b * c, b * d);
    assert(ac * (u1 * w2 - w1 * u2) == ac * (u1 * w2) - ac * (w1 * u2)) by (nonlinear_arith);
    assert(ad * (u1 * z2 - z1 * u2) == ad * (u1 * z2) - ad * (z1 * u2)) by (nonlinear_arith);
    assert(bc * (v1 * w2 - w1 * v2) == bc * (v1 * w2) - bc * (w1 * v2)) by (nonlinear_arith);
    assert(bd * (v1 * z2 - z1 * v2) == bd * (v1 * z2) - bd * (z1 * v2)) by (nonlinear_arith);
    assert((c * a) == ac && (d * a) == ad && (c * b) == bc && (d * b) == bd) by (nonlinear_arith)
        requires
            ac == a * c,
            ad == a * d,
            bc == b * c,
            bd == b * d,
    ;
    // the second product of sums, term by term
    assert((c * a) * (w1 * u2) == ac * (w1 * u2) && (c * b) * (w1 * v2) == bc * (w1 * v2) && (d * a)
        * (z1 * u2) == ad * (z1 * u2) && (d * b) * (z1 * v2) == bd * (z1 * v2));
    assert((c * b) * (u2 * z1) == (c * b) * (z1 * u2) && (d * a) * (u2 * z1) == (d * a) * (z1 * u2))
        by (nonlinear_arith);
    assert((c * b) * (v2 * w1) == (c * b) * (w1 * v2) && (d * a) * (u2 * z1) == ad * (z1 * u2))
        by (nonlinear_arith)
        requires
            ad == d * a,
    ;
}

/// The map of a composite after a substitution in the first form.
pub open spec fn substituted(n: Bilinear, p: int, q: int, r: int, s: int) -> Bilinear {
    Bilinear {
        p0: p * n.p0 + r * n.p2,
        q0: p * n.q0 + r * n.q2,
        p1: p * n.p1 + r * n.p3,
        q1: p * n.q1 + r * n.q3,
        p2: q * n.p0 + s * n.p2,
        q2: q * n.q0 + s * n.q2,
        p3: q * n.p1 + s * n.p3,
        q3: q * n.q1 + s * n.q3,
    }
}

/// The map of a composite with the two forms exchanged.
pub open spec fn exchanged(n: Bilinear) -> Bilinear {
    Bilinear {
        p0: n.p0,
        q0: n.q0,
        p1: n.p2,
        q1: n.q2,
        p2: n.p1,
        q2: n.q1,
        p3: n.p3,
        q3: n.q3,
    }
}

/// A composite of two forms is a composite of the same two forms in the
/// other order.
pub proof fn lemma_composite_exchanged(f1: FormModel, f2: FormModel, f: FormModel, n: Bilinear)
    requires
        is_composite(f1, f2, f, n),
    ensures
        is_composite(f2, f1, f, exchanged(n)),
{
    let m = exchanged(n);
    assert forall|x1: int, y1: int, x2: int, y2: int|
        value_at(f2, x1, y1) * value_at(f1, x2, y2) == value_at(
            f,
            #[trigger] bil_x(m, x1, y1, x2, y2),
            #[trigger] bil_y(m, x1, y1, x2, y2),
        ) by {
        assert(x2 * x1 == x1 * x2 && y2 * y1 == y1 * y2) by (nonlinear_arith);
        assert(bil_x(m, x1, y1, x2, y2) == bil_x(n, x2, y2, x1, y1));
        assert(bil_y(m, x1, y1, x2, y2) == bil_y(n, x2, y2, x1, y1));
        assert(value_at(f1, x2, y2) * value_at(f2, x1, y1) == value_at(
            f,
            bil_x(n, x2, y2, x1, y1),
            bil_y(n, x2, y2, x1, y1),
        ));
        assert(value_at(f2, x1, y1) * value_at(f1, x2, y2) == value_at(f1, x2, y2) * value_at(
            f2,
            x1,
            y1,
        )) by (nonlinear_arith);
    }
    assert(det(n.p2, n.q2, n.p1, n.q1) == -det(n.p1, n.q1, n.p2, n.q2)) by (nonlinear_arith);
}

/// A composite of two forms is a composite of the first form after a
/// substitution of determinant one and of the second form.
pub proof fn lemma_composite_substituted(
    f1: FormModel,
    f2: FormModel,
    f: FormModel,
    n: Bilinear,
    p: int,
    q: int,
    r: int,
    s: int,
)
    requires
        is_composite(f1, f2, f, n),
        p * s - q * r == 1,
    ensures
        is_composite(transform(f1, p, q, r, s), f2, f, substituted(n, p, q, r, s)),
{
    let g1 = transform(f1, p, q, r, s);
    let m = substituted(n, p, q, r, s);
    assert forall|x1: int, y1: int, x2: int, y2: int|
        value_at(g1, x1, y1) * value_at(f2, x2, y2) == value_at(
            f,
            #[trigger] bil_x(m, x1, y1, x2, y2),
            #[trigger] bil_y(m, x1, y1, x2, y2),
        ) by {
        let (x, y) = (p * x1 + q * y1, r * x1 + s * y1);
        lemma_transform_value(f1, p, q, r, s, x1, y1);
        assert(value_at(f1, x, y) * value_at(f2, x2, y2) == value_at(
            f,
            bil_x(n, x, y, x2, y2),
            bil_y(n, x, y, x2, y2),
        ));
        lemma_substituted_row(n.p0, n.p1, n.p2, n.p3, p, q, r, s, x1, y1, x2, y2);
        lemma_substituted_row(n.q0, n.q1, n.q2, n.q3, p, q, r, s, x1, y1, x2, y2);
    }
    let (d01, d02, d03, d12, d13, d23) = (
        det(n.p0, n.q0, n.p1, n.q1),
        det(n.p0, n.q0, n.p2, n.q2),
        det(n.p0, n.q0, n.p3, n.q3),
        det(n.p1, n.q1, n.p2, n.q2),
        det(n.p1, n.q1, n.p3, n.q3),
        det(n.p2, n.q2, n.p3, n.q3),
    );
    let (pp, pq, pr, ps, qq, qr, qs, rr, rs, ss) = (
        p * p,
        p * q,
        p * r,
        p * s,
        q * q,
        q * r,
        q * s,
        r * r,
        r * s,
        s * s,
    );
    assert(r * p == pr && q * p == pq && r * q == qr && s * p == ps && s * q == qs && s * r == rs)
        by (nonlinear_arith)
        requires
            pr == p * r,
            pq == p * q,
            qr == q * r,
            ps == p * s,
            qs == q * s,
            rs == r * s,
    ;
    // the minors of a column with itself vanish, and exchange changes the sign
    assert(det(n.p0, n.q0, n.p0, n.q0) == 0 && det(n.p1, n.q1, n.p1, n.q1) == 0 && det(
        n.p2,
        n.q2,
        n.p2,
        n.q2,
    ) == 0 && det(n.p3, n.q3, n.p3, n.q3) == 0) by (nonlinear_arith);
    assert(det(n.p2, n.q2, n.p1, n.q1) == -d12 && det(n.p2, n.q2, n.p0, n.q0) == -d02 && det(
        n.p3,
        n.q3,
        n.p1,
        n.q1,
    ) == -d13 && det(n.p3, n.q3, n.p0, n.q0) == -d03 && det(n.p1, n.q1, n.p0, n.q0) == -d01 && det(
        n.p3,
        n.q3,
        n.p2,
        n.q2,
    ) == -d23) by (nonlinear_arith)
        requires
            d01 == det(n.p0, n.q0, n.p1, n.q1),
            d02 == det(n.p0, n.q0, n.p2, n.q2),
            d03 == det(n.p0, n.q0, n.p3, n.q3),
            d12 == det(n.p1, n.q1, n.p2, n.q2),
            d13 == det(n.p1, n.q1, n.p3, n.q3),
            d23 == det(n.p2, n.q2, n.p3, n.q3),
    ;
    // the six minors of the new map
    lemma_det_combination(p, r, p, r, n.p0, n.q0, n.p2, n.q2, n.p1, n.q1, n.p3, n.q3);
    lemma_det_combination(p, r, q, s, n.p0, n.q0, n.p2, n.q2, n.p0, n.q0, n.p2, n.q2);
    lemma_det_combination(p, r, q, s, n.p0, n.q0, n.p2, n.q2, n.p1, n.q1, n.p3, n.q3);
    lemma_det_combination(p, r, q, s, n.p1, n.q1, n.p3, n.q3, n.p0, n.q0, n.p2, n.q2);
    lemma_det_combination(p, r, q, s, n.p1, n.q1, n.p3, n.q3, n.p1, n.q1, n.p3, n.q3);
    lemma_det_combination(q, s, q, s, n.p0, n.q0, n.p2, n.q2, n.p1, n.q1, n.p3, n.q3);
    let (a1, b1, c1) = (f1.a, f1.b, f1.c);
    // the leading coefficient
    assert(det(m.p0, m.q0, m.p1, m.q1) == pp * d01 + pr * d03 - pr * d12 + rr * d23) by {
        assert(pr * (-d12) == -(pr * d12)) by (nonlinear_arith);
    }
    assert(pp * d01 + pr * d03 - pr * d12 + rr * d23 == a1 * pp + b1 * pr + c1 * rr) by (nonlinear_arith)
        requires
            d01 == a1,
            d03 - d12 == b1,
            d23 == c1,
    ;
    // the last coefficient
    assert(det(m.p2, m.q2, m.p3, m.q3) == qq * d01 + qs * d03 - qs * d12 + ss * d23) by {
        assert(qs * (-d12) == -(qs * d12)) by (nonlinear_arith);
    }
    assert(qq * d01 + qs * d03 - qs * d12 + ss * d23 == a1 * qq + b1 * qs + c1 * ss) by (nonlinear_arith)
        requires
            d01 == a1,
            d03 - d12 == b1,
            d23 == c1,
    ;
    // the coefficients of the second form
    assert(det(m.p0, m.q0, m.p2, m.q2) == d02 && det(m.p1, m.q1, m.p3, m.q3) == d13) by {
        assert(ps * d02 + qr * (-d02) == (ps - qr) * d02 && ps * d13 + qr * (-d13) == (ps - qr) * d13)
            by (nonlinear_arith);
        assert((ps - qr) * d02 == d02 && (ps - qr) * d13 == d13) by (nonlinear_arith)
            requires
                ps - qr == 1,
        ;
        assert(pq * 0 == 0 && rs * 0 == 0) by (nonlinear_arith);
    }
    // the two middle coefficients
    let e03 = det(m.p0, m.q0, m.p3, m.q3);
    let e12 = det(m.p1, m.q1, m.p2, m.q2);
    assert(e03 == pq * d01 + ps * d03 - qr * d12 + rs * d23) by {
        assert(qr * (-d12) == -(qr * d12)) by (nonlinear_arith);
    }
    assert(e12 == -(pq * d01) + ps * d12 - qr * d03 - rs * d23) by {
        assert(pq * (-d01) == -(pq * d01) && qr * (-d03) == -(qr * d03) && rs * (-d23) == -(rs
            * d23)) by (nonlinear_arith);
    }
    assert(e03 + e12 == f2.b) by (nonlinear_arith)
        requires
            e03 == pq * d01 + ps * d03 - qr * d12 + rs * d23,
            e12 == -(pq * d01) + ps * d12 - qr * d03 - rs * d23,
            d03 + d12 == f2.b,
            ps - qr == 1,
    ;
    assert(e03 - e12 == 2 * (a1 * pq) + b1 * (ps + qr) + 2 * (c1 * rs)) by (nonlinear_arith)
        requires
            e03 == pq * d01 + ps * d03 - qr * d12 + rs * d23,
            e12 == -(pq * d01) + ps * d12 - qr * d03 - rs * d23,
            d01 == a1,
            d03 - d12 == b1,
            d23 == c1,
    ;
}

/// One row of a map after a substitution in the first argument.
proof fn lemma_substituted_row(
    n0: int,
    n1: int,
    n2: int,
    n3: int,
    p: int,
    q: int,
    r: int,
    s: int,
    x1: int,
    y1: int,
    x2: int,
    y2: int,
)
    ensures
        n0 * ((p * x1 + q * y1) * x2) + n1 * ((p * x1 + q * y1) * y2) + n2 * (x2 * (r * x1 + s * y1))
            + n3 * ((r * x1 + s * y1) * y2) == (p * n0 + r * n2) * (x1 * x2) + (p * n1 + r * n3) * (x1
            * y2) + (q * n0 + s * n2) * (x2 * y1) + (q * n1 + s * n3) * (y1 * y2),
{
    let (m11, m12, m21, m22) = (x1 * x2, x1 * y2, x2 * y1, y1 * y2);
    assert((p * x1 + q * y1) * x2 == p * m11 + q * m21) by (nonlinear_arith)
        requires
            m11 == x1 * x2,
            m21 == x2 * y1,
    ;
    assert((p * x1 + q * y1) * y2 == p * m12 + q * m22) by (nonlinear_arith)
        requires
            m12 == x1 * y2,
            m22 == y1 * y2,
    ;
    assert(x2 * (r * x1 + s * y1) == r * m11 + s * m21) by (nonlinear_arith)
        requires
            m11 == x1 * x2,
            m21 == x2 * y1,
    ;
    assert((r * x1 + s * y1) * y2 == r * m12 + s * m22) by (nonlinear_arith)
        requires
            m12 == x1 * y2,
            m22 == y1 * y2,
    ;
    assert(n0 * (p * m11 + q * m21) == (p * n0) * m11 + (q * n0) * m21) by (nonlinear_arith);
    assert(n1 * (p * m12 + q * m22) == (p * n1) * m12 + (q * n1) * m22) by (nonlinear_arith);
    assert(n2 * (r * m11 + s * m21) == (r * n2) * m11 + (s * n2) * m21) by (nonlinear_arith);
    assert(n3 * (r * m12 + s * m22) == (r * n3) * m12 + (s * n3) * m22) by (nonlinear_arith);
    assert((p * n0 + r * n2) * m11 == (p * n0) * m11 + (r * n2) * m11) by (nonlinear_arith);
    assert((p * n1 + r * n3) * m12 == (p * n1) * m12 + (r * n3) * m12) by (nonlinear_arith);
    assert((q * n0 + s * n2) * m21 == (q * n0) * m21 + (s * n2) * m21) by (nonlinear_arith);
    assert((q * n1 + s * n3) * m22 == (q * n1) * m22 + (s * n3) * m22) by (nonlinear_arith);
}


/// A positive primitive form of discriminant `delta`: a member of a class
/// of the class group, reduced or not.
pub open spec fn is_proper(delta: int, f: FormModel) -> bool {
    f.a > 0 && delta < 0 && discriminant(f) == delta && is_primitive(f)
}

/// The united form that the composition of two proper forms reduces, as a
/// composite of the two forms in the order in which they are given.
pub proof fn lemma_composite_of(delta: int, h: FormModel, z: FormModel) -> (r: (FormModel, Bilinear))
    requires
        is_proper(delta, h),
        is_proper(delta, z),
    ensures
        is_composite(h, z, r.0, r.1),
        r.0.a > 0,
        discriminant(r.0) == delta,
        compose_spec(delta, h, z) == reduce_spec(r.0),
{
    let (f1, f2) = if precedes(h, z) {
        (h, z)
    } else {
        (z, h)
    };
    let u = lemma_union(delta, f1, f2);
    lemma_union_is_composite(delta, f1, f2, u);
    let (v1, v2) = (u.v1, u.v2);
    assert(v1 * v2 > 0) by (nonlinear_arith)
        requires
            v1 > 0,
            v2 > 0,
    ;
    if precedes(h, z) {
        (u.form, union_map(u))
    } else {
        lemma_composite_exchanged(f1, f2, u.form, union_map(u));
        (u.form, exchanged(union_map(u)))
    }
}

/// Composition depends on the class of its first operand only: equivalent
/// proper forms give the same composition with a third.
pub proof fn lemma_compose_class(delta: int, h: FormModel, h2: FormModel, z: FormModel)
    requires
        is_proper(delta, h),
        is_proper(delta, h2),
        is_proper(delta, z),
        is_equivalent(h, h2),
    ensures
        compose_spec(delta, h, z) == compose_spec(delta, h2, z),
{
    let (u, n) = lemma_composite_of(delta, h, z);
    let (u2, n2) = lemma_composite_of(delta, h2, z);
    let (p, q, r, s) = choose|p: int, q: int, r: int, s: int|
        p * s - q * r == 1 && h2 == #[trigger] transform(h, p, q, r, s);
    lemma_composite_substituted(h, z, u, n, p, q, r, s);
    law_composites_are_equivalent(h2, z, u, substituted(n, p, q, r, s), u2, n2);
    lemma_reduce(u);
    law_reduce_stays_in_class(u);
    law_equivalent_transitive(u2, u, reduce_spec(u));
    law_reduce_is_canonical(u2, reduce_spec(u));
}

/// The composition of two proper forms does not depend on their order.
pub proof fn lemma_compose_proper_commutes(delta: int, h: FormModel, z: FormModel)
    requires
        is_proper(delta, h),
        is_proper(delta, z),
    ensures
        compose_spec(delta, h, z) == compose_spec(delta, z, h),
{
    if precedes(h, z) && precedes(z, h) {
        let (a, b, c, e) = (h.a, h.b, h.c, z.c);
        assert(c == e) by (nonlinear_arith)
            requires
                a > 0,
                b * b - 4 * a * c == b * b - 4 * a * e,
        ;
    }
}

/// Composition depends on the classes of its operands only.
pub proof fn law_composition_of_classes(
    delta: int,
    x: FormModel,
    x2: FormModel,
    y: FormModel,
    y2: FormModel,
)
    requires
        is_proper(delta, x),
        is_proper(delta, x2),
        is_proper(delta, y),
        is_proper(delta, y2),
        is_equivalent(x, x2),
        is_equivalent(y, y2),
    ensures
        compose_spec(delta, x, y) == compose_spec(delta, x2, y2),
{
    lemma_compose_class(delta, x, x2, y);
    lemma_compose_proper_commutes(delta, x2, y);
    lemma_compose_class(delta, y, y2, x2);
    lemma_compose_proper_commutes(delta, y2, x2);
}

/// A form of negative discriminant with positive leading coefficient takes
/// positive values away from the origin.
pub proof fn lemma_positive_values(f: FormModel, x: int, y: int)
    requires
        f.a > 0,
        discriminant(f) < 0,
        x != 0 || y != 0,
    ensures
        value_at(f, x, y) > 0,
{
    let delta = discriminant(f);
    lemma_norm(delta, f, x, y);
    let u = 2 * (f.a * x) + f.b * y;
    let (uu, yy) = (u * u, y * y);
    let v = value_at(f, x, y);
    assert(uu >= 0 && yy >= 0) by (nonlinear_arith)
        requires
            uu == u * u,
            yy == y * y,
    ;
    if y != 0 {
        assert(delta * yy < 0) by (nonlinear_arith)
            requires
                delta < 0,
                yy == y * y,
                y != 0,
        ;
    } else {
        let ax = f.a * x;
        assert(f.b * y == 0) by (nonlinear_arith)
            requires
                y == 0,
        ;
        assert(delta * yy == 0) by (nonlinear_arith)
            requires
                yy == y * y,
                y == 0,
        ;
        assert(uu > 0) by (nonlinear_arith)
            requires
                uu == u * u,
                u == 2 * ax,
                ax == f.a * x,
                f.a > 0,
                x != 0,
        ;
    }
    let av = f.a * v;
    assert(v > 0) by (nonlinear_arith)
        requires
            4 * av > 0,
            av == f.a * v,
            f.a > 0,
    ;
}

/// The discriminant, by the values of the form at two points and at their
/// sum: `(f(u + v) - f(u) - f(v))^2 - 4 f(u) f(v) = delta det(u, v)^2`.
proof fn lemma_discriminant_by_values(f: FormModel, u1: int, u2: int, v1: int, v2: int)
    requires
        f.a != 0,
    ensures
        (2 * (f.a * (u1 * v1)) + f.b * (u1 * v2 + v1 * u2) + 2 * (f.c * (u2 * v2))) * (2 * (f.a * (u1
            * v1)) + f.b * (u1 * v2 + v1 * u2) + 2 * (f.c * (u2 * v2))) - 4 * (value_at(f, u1, u2)
            * value_at(f, v1, v2)) == discriminant(f) * (det(u1, u2, v1, v2) * det(u1, u2, v1, v2)),
{
    let (a, b, c) = (f.a, f.b, f.c);
    let delta = discriminant(f);
    let pol = 2 * (a * (u1 * v1)) + b * (u1 * v2 + v1 * u2) + 2 * (c * (u2 * v2));
    let (fu, fv) = (value_at(f, u1, u2), value_at(f, v1, v2));
    let (bu, bv) = (2 * (a * u1) + b * u2, 2 * (a * v1) + b * v2);
    let d = det(u1, u2, v1, v2);
    lemma_norm(delta, f, u1, u2);
    lemma_norm(delta, f, v1, v2);
    // 2 a pol = bu bv - delta u2 v2
    let w = u2 * v2;
    assert((2 * a) * pol == bu * bv - delta * w) by {
        crate::united::lemma_expand(2 * a, u1, b, u2, 2 * a, v1, b, v2);
        assert((2 * a) * u1 == 2 * (a * u1) && (2 * a) * v1 == 2 * (a * v1)) by (nonlinear_arith);
        let (aa, ab, bb, ac) = (a * a, a * b, b * b, a * c);
        assert(((2 * a) * (2 * a)) * (u1 * v1) == 4 * (aa * (u1 * v1))) by (nonlinear_arith)
            requires
                aa == a * a,
        ;
        assert(((2 * a) * b) * (u1 * v2) == 2 * (ab * (u1 * v2)) && (b * (2 * a)) * (v1 * u2) == 2
            * (ab * (v1 * u2))) by (nonlinear_arith)
            requires
                ab == a * b,
        ;
        assert((b * b) * (u2 * v2) == bb * w);
        assert(4 * a * c == 4 * ac) by (nonlinear_arith)
            requires
                ac == a * c,
        ;
        assert(delta * w == bb * w - 4 * (ac * w)) by (nonlinear_arith)
            requires
                delta == bb - 4 * ac,
        ;
        let (t1, t2, t3) = (a * (u1 * v1), b * (u1 * v2 + v1 * u2), c * w);
        assert((2 * a) * (2 * t1 + t2 + 2 * t3) == 4 * (a * t1) + 2 * (a * t2) + 4 * (a * t3))
            by (nonlinear_arith);
        assert(a * t1 == aa * (u1 * v1)) by (nonlinear_arith)
            requires
                t1 == a * (u1 * v1),
                aa == a * a,
        ;
        assert(a * t2 == ab * (u1 * v2) + ab * (v1 * u2)) by (nonlinear_arith)
            requires
                t2 == b * (u1 * v2 + v1 * u2),
                ab == a * b,
        ;
        assert(a * t3 == ac * w) by (nonlinear_arith)
            requires
                t3 == c * w,
                ac == a * c,
        ;
    }
    // bu v2 - bv u2 = 2 a det
    assert(bu * v2 - bv * u2 == (2 * a) * d) by {
        assert(bu * v2 == 2 * ((a * u1) * v2) + (b * u2) * v2) by (nonlinear_arith)
            requires
                bu == 2 * (a * u1) + b * u2,
        ;
        assert(bv * u2 == 2 * ((a * v1) * u2) + (b * v2) * u2) by (nonlinear_arith)
            requires
                bv == 2 * (a * v1) + b * v2,
        ;
        assert((b * u2) * v2 == (b * v2) * u2) by (nonlinear_arith);
        assert((a * u1) * v2 == a * (u1 * v2) && (a * v1) * u2 == a * (v1 * u2)) by (nonlinear_arith);
        assert((2 * a) * (u1 * v2 - v1 * u2) == 2 * (a * (u1 * v2)) - 2 * (a * (v1 * u2)))
            by (nonlinear_arith);
    }
    // the product of the two norms, with the other sign
    lemma_norms_multiply(delta, bu, u2, bv, -v2);
    let nv = -v2;
    assert(nv * nv == v2 * v2 && u2 * nv == -w && bu * nv == -(bu * v2)) by (nonlinear_arith)
        requires
            nv == -v2,
            w == u2 * v2,
    ;
    assert(delta * (-w) == -(delta * w)) by (nonlinear_arith);
    let g = bu * bv - delta * w;
    let h = bv * u2 - bu * v2;
    assert((bu * bu - delta * (u2 * u2)) * (bv * bv - delta * (v2 * v2)) == g * g - delta * (h * h));
    let ad = (2 * a) * d;
    assert(h * h == ad * ad) by (nonlinear_arith)
        requires
            -h == ad,
    ;
    let (pp, dd) = (pol * pol, d * d);
    let m = 4 * (a * a);
    assert(g * g == m * pp && ad * ad == m * dd) by (nonlinear_arith)
        requires
            g == (2 * a) * pol,
            ad == (2 * a) * d,
            pp == pol * pol,
            dd == d * d,
            m == 4 * (a * a),
    ;
    let (x, y) = (a * fu, a * fv);
    assert((4 * x) * (4 * y) == m * (4 * (fu * fv))) by (nonlinear_arith)
        requires
            x == a * fu,
            y == a * fv,
            m == 4 * (a * a),
    ;
    assert(delta * (m * dd) == m * (delta * dd)) by (nonlinear_arith);
    assert(m * (4 * (fu * fv)) == m * pp - m * (delta * dd));
    assert(m * (pp - 4 * (fu * fv) - delta * dd) == m * pp - m * (4 * (fu * fv)) - m * (delta * dd))
        by (nonlinear_arith);
    assert(m > 0) by (nonlinear_arith)
        requires
            m == 4 * (a * a),
            a != 0,
    ;
    assert(pp - 4 * (fu * fv) - delta * dd == 0) by (nonlinear_arith)
        requires
            m * (pp - 4 * (fu * fv) - delta * dd) == 0,
            m > 0,
    ;
}

/// A substitution of determinant one keeps the discriminant.
pub proof fn lemma_transform_discriminant(f: FormModel, p: int, q: int, r: int, s: int)
    requires
        f.a != 0,
        p * s - q * r == 1,
    ensures
        discriminant(transform(f, p, q, r, s)) == discriminant(f),
{
    let g = transform(f, p, q, r, s);
    lemma_discriminant_by_values(f, p, r, q, s);
    let d = det(p, r, q, s);
    assert(d == 1);
    assert(discriminant(f) * (d * d) == discriminant(f)) by (nonlinear_arith)
        requires
            d == 1,
    ;
    assert(4 * g.a * g.c == 4 * (g.a * g.c)) by (nonlinear_arith);
}

/// A substitution of determinant one takes a proper form to a proper form.
pub proof fn lemma_transform_proper(delta: int, f: FormModel, p: int, q: int, r: int, s: int)
    requires
        is_proper(delta, f),
        p * s - q * r == 1,
    ensures
        is_proper(delta, transform(f, p, q, r, s)),
        is_equivalent(f, transform(f, p, q, r, s)),
{
    let g = transform(f, p, q, r, s);
    lemma_transform_discriminant(f, p, q, r, s);
    assert(p != 0 || r != 0) by (nonlinear_arith)
        requires
            p * s - q * r == 1,
    ;
    lemma_positive_values(f, p, r);
    // a common divisor of the new coefficients divides the old ones
    lemma_transform_back(f, p, q, r, s);
    assert forall|k: int| k > 1 implies !(#[trigger] (g.a % k) == 0 && g.b % k == 0 && g.c % k == 0) by {
        if g.a % k == 0 && g.b % k == 0 && g.c % k == 0 {
            lemma_transform_value(g, s, -q, -r, p, 1, 0);
            lemma_transform_value(g, s, -q, -r, p, 0, 1);
            lemma_transform_value(g, s, -q, -r, p, 1, 1);
            lemma_unit_values(f);
            lemma_value_divisible(k, g, s * 1 + (-q) * 0, (-r) * 1 + p * 0);
            lemma_value_divisible(k, g, s * 0 + (-q) * 1, (-r) * 0 + p * 1);
            lemma_value_divisible(k, g, s * 1 + (-q) * 1, (-r) * 1 + p * 1);
            crate::form::lemma_divides_combination(k, f.a + f.b + f.c, f.a, 1, -1);
            crate::form::lemma_divides_combination(k, 1 * (f.a + f.b + f.c) + (-1) * f.a, f.c, 1, -1);
            assert(f.a % k == 0 && f.b % k == 0 && f.c % k == 0);
        }
    }
}

} // verus!
