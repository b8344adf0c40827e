//! Polynomials over GF(256) and their interpolation at zero.

use crate::gf256::{
    fadd, finv, fmul, lemma_add_laws, lemma_add_rearrange, lemma_inverse, lemma_mul_associative,
    lemma_mul_commutative, lemma_mul_distributive, lemma_mul_distributive_left, lemma_mul_unit,
    lemma_no_zero_divisors,
};
use vstd::prelude::*;

verus! {

/// The value at `x` of the polynomial over GF(256) with coefficients `c`, constant term
/// first.
pub open spec fn poly_eval(c: Seq<u8>, x: u8) -> u8
    decreases c.len(),
{
    if c.len() == 0 {
        0
    } else {
        fadd(c[0], fmul(x, poly_eval(c.drop_first(), x)))
    }
}

/// `u / (u - v)`.
pub open spec fn ratio(u: u8, v: u8) -> u8 {
    fmul(u, finv(fadd(u, v)))
}

/// The product of `xs[m] / (xs[m] - xs[j])` over the `m < n` other than `j`.
pub open spec fn basis_upto(xs: Seq<u8>, j: int, n: nat) -> u8
    decreases n,
{
    if n == 0 {
        1
    } else if n - 1 == j {
        basis_upto(xs, j, (n - 1) as nat)
    } else {
        fmul(basis_upto(xs, j, (n - 1) as nat), ratio(xs[n - 1], xs[j]))
    }
}

/// The value at zero of the Lagrange basis polynomial of the point `xs[j]` among the
/// points `xs`.
pub open spec fn basis(xs: Seq<u8>, j: int) -> u8 {
    basis_upto(xs, j, xs.len())
}

/// The sum of the first `n` entries of `s`.
pub open spec fn seq_sum(s: Seq<u8>, n: nat) -> u8
    decreases n,
{
    if n == 0 {
        0
    } else {
        fadd(seq_sum(s, (n - 1) as nat), s[n - 1])
    }
}

/// The terms `ys[j] * basis(xs, j)` of the interpolation sum.
pub open spec fn terms(xs: Seq<u8>, ys: Seq<u8>) -> Seq<u8> {
    Seq::new(xs.len(), |j: int| fmul(ys[j], basis(xs, j)))
}

/// The value at zero of the polynomial of least degree that takes the value `ys[j]` at
/// the point `xs[j]`, for every `j`.
pub open spec fn interpolate(xs: Seq<u8>, ys: Seq<u8>) -> u8 {
    seq_sum(terms(xs, ys), xs.len())
}

/// The basis values at zero of all the points.
pub open spec fn basis_values(xs: Seq<u8>) -> Seq<u8> {
    Seq::new(xs.len(), |j: int| basis(xs, j))
}

/// No two entries of `xs` are equal.
pub open spec fn distinct(xs: Seq<u8>) -> bool {
    forall|i: int, j: int| 0 <= i < j < xs.len() ==> xs[i] != xs[j]
}

/// The quotient of the polynomial `c` by `x - a`.
pub open spec fn quotient(c: Seq<u8>, a: u8) -> Seq<u8>
    decreases c.len(),
{
    if c.len() <= 1 {
        Seq::empty()
    } else {
        seq![poly_eval(c.drop_first(), a)] + quotient(c.drop_first(), a)
    }
}

/// `(a b)(c d) == (a c)(b d)`.
pub proof fn lemma_mul_swap4(a: u8, b: u8, c: u8, d: u8)
    ensures
        fmul(fmul(a, b), fmul(c, d)) == fmul(fmul(a, c), fmul(b, d)),
{
    lemma_mul_associative(a, b, fmul(c, d));
    lemma_mul_associative(b, c, d);
    lemma_mul_commutative(b, c);
    lemma_mul_associative(c, b, d);
    lemma_mul_associative(a, c, fmul(b, d));
}

/// `a (b c) == b (a c)`.
pub proof fn lemma_mul_left_commute(a: u8, b: u8, c: u8)
    ensures
        fmul(a, fmul(b, c)) == fmul(b, fmul(a, c)),
{
    lemma_mul_associative(a, b, c);
    lemma_mul_commutative(a, b);
    lemma_mul_associative(b, a, c);
}

/// The inverse of a product is the product of the inverses.
pub proof fn lemma_inverse_of_product(a: u8, b: u8)
    requires
        a != 0,
        b != 0,
    ensures
        fmul(a, b) != 0,
        finv(fmul(a, b)) == fmul(finv(a), finv(b)),
{
    let p = fmul(a, b);
    let u = fmul(finv(a), finv(b));
    if p == 0 {
        lemma_no_zero_divisors(a, b);
    }
    lemma_inverse(a);
    lemma_inverse(b);
    lemma_inverse(p);
    lemma_mul_swap4(a, b, finv(a), finv(b));
    lemma_mul_unit(1);
    lemma_mul_associative(finv(p), p, u);
    lemma_mul_unit(u);
    lemma_mul_unit(finv(p));
}

/// `(b / (b - y)) (a / (a - y)) == (a / (a - b)) (b / (b - y)) + (b / (b - a)) (a / (a - y))`.
proof fn lemma_partial_fractions(a: u8, b: u8, y: u8)
    requires
        a != b,
        a != y,
        b != y,
    ensures
        fmul(ratio(b, y), ratio(a, y)) == fadd(
            fmul(ratio(a, b), ratio(b, y)),
            fmul(ratio(b, a), ratio(a, y)),
        ),
{
    let dab = a ^ b;
    let dby = b ^ y;
    let day = a ^ y;
    lemma_add_rearrange(a, b, y, 0);
    lemma_add_rearrange(b, y, 0, 0);
    lemma_add_rearrange(a, y, 0, 0);
    let ia = finv(dab);
    let ib = finv(dby);
    let ic = finv(day);
    let ab = fmul(a, b);
    let bc = fmul(ib, ic);
    lemma_inverse(dab);
    lemma_inverse(dby);
    lemma_inverse(day);
    // left side: (b ib)(a ic) == (a b)(ib ic)
    lemma_mul_swap4(b, ib, a, ic);
    lemma_mul_commutative(b, a);
    // right side: (a ia)(b ib) ^ (b ia)(a ic) == (a b)(ia ib ^ ia ic)
    lemma_mul_swap4(a, ia, b, ib);
    lemma_mul_swap4(b, ia, a, ic);
    lemma_mul_distributive(ab, fmul(ia, ib), fmul(ia, ic));
    lemma_mul_distributive(ia, ib, ic);
    // ib ^ ic == (ib ic)(a ^ b)
    lemma_mul_associative(ib, ic, day);
    lemma_mul_unit(ib);
    lemma_mul_commutative(ib, ic);
    lemma_mul_associative(ic, ib, dby);
    lemma_mul_unit(ic);
    lemma_mul_distributive(bc, day, dby);
    // ia ((ib ic)(a ^ b)) == ib ic
    lemma_mul_left_commute(ia, bc, dab);
    lemma_mul_unit(bc);
}

/// `a / (a - b) + b / (b - a) == 1`.
proof fn lemma_ratio_pair(a: u8, b: u8)
    requires
        a != b,
    ensures
        fadd(ratio(a, b), ratio(b, a)) == 1,
{
    let d = a ^ b;
    lemma_add_rearrange(a, b, 0, 0);
    lemma_inverse(d);
    lemma_mul_distributive_left(a, b, finv(d));
}

/// `basis_upto` looks only at the first `n` points and at the point `j`.
proof fn lemma_basis_upto_agree(xs1: Seq<u8>, j1: int, xs2: Seq<u8>, j2: int, n: nat)
    requires
        forall|m: int| 0 <= m < n ==> xs1[m] == xs2[m],
        xs1[j1] == xs2[j2],
        j1 == j2 || (j1 >= n && j2 >= n),
    ensures
        basis_upto(xs1, j1, n) == basis_upto(xs2, j2, n),
    decreases n,
{
    if n > 0 {
        lemma_basis_upto_agree(xs1, j1, xs2, j2, (n - 1) as nat);
    }
}

/// A sum of zeros is zero.
proof fn lemma_sum_zero(s: Seq<u8>, n: nat)
    requires
        forall|j: int| 0 <= j < n ==> s[j] == 0,
    ensures
        seq_sum(s, n) == 0,
    decreases n,
{
    if n > 0 {
        lemma_sum_zero(s, (n - 1) as nat);
        lemma_add_laws(0, 0, 0);
    }
}

/// Sums are linear: if `s[j] == p u[j] + q v[j]` for all `j < n`, the sums are related in
/// the same way.
proof fn lemma_sum_linear(s: Seq<u8>, p: u8, u: Seq<u8>, q: u8, v: Seq<u8>, n: nat)
    requires
        forall|j: int| 0 <= j < n ==> s[j] == fadd(fmul(p, u[j]), fmul(q, v[j])),
    ensures
        seq_sum(s, n) == fadd(fmul(p, seq_sum(u, n)), fmul(q, seq_sum(v, n))),
    decreases n,
{
    if n == 0 {
        lemma_mul_unit(p);
        lemma_mul_unit(q);
        lemma_add_laws(0, 0, 0);
    } else {
        let m = (n - 1) as nat;
        lemma_sum_linear(s, p, u, q, v, m);
        lemma_mul_distributive(p, seq_sum(u, m), u[n - 1]);
        lemma_mul_distributive(q, seq_sum(v, m), v[n - 1]);
        let a = fmul(p, seq_sum(u, m));
        let b = fmul(q, seq_sum(v, m));
        let c = fmul(p, u[n - 1]);
        let d = fmul(q, v[n - 1]);
        lemma_add_rearrange(a, b, c, d);
    }
}

/// The basis values at zero add up to one.
pub proof fn lemma_basis_sum_one(xs: Seq<u8>)
    requires
        xs.len() >= 1,
        distinct(xs),
    ensures
        seq_sum(basis_values(xs), xs.len()) == 1,
    decreases xs.len(),
{
    let f = basis_values(xs);
    if xs.len() == 1 {
        reveal_with_fuel(basis_upto, 2);
        reveal_with_fuel(seq_sum, 2);
        lemma_add_laws(1, 0, 0);
    } else {
        let n = (xs.len() - 2) as nat;
        let y = xs.take(n as int);
        let b = xs[n as int];
        let a = xs[n as int + 1];
        let yb = y.push(b);
        let ya = y.push(a);
        let g = basis_values(yb);
        let h = basis_values(ya);
        lemma_basis_sum_one(yb);
        lemma_basis_sum_one(ya);
        let ra = ratio(a, b);
        let rb = ratio(b, a);
        assert forall|j: int| 0 <= j < n implies f[j] == fadd(fmul(ra, g[j]), fmul(rb, h[j])) by {
            let beta = basis_upto(xs, j, n);
            lemma_basis_upto_agree(xs, j, yb, j, n);
            lemma_basis_upto_agree(xs, j, ya, j, n);
            let qb = ratio(b, xs[j]);
            let qa = ratio(a, xs[j]);
            reveal_with_fuel(basis_upto, 3);
            lemma_mul_associative(beta, qb, qa);
            lemma_partial_fractions(a, b, xs[j]);
            lemma_mul_distributive(beta, fmul(ra, qb), fmul(rb, qa));
            lemma_mul_left_commute(beta, ra, qb);
            lemma_mul_left_commute(beta, rb, qa);
        }
        lemma_sum_linear(f, ra, g, rb, h, n);
        // the two last points
        reveal_with_fuel(basis_upto, 3);
        lemma_basis_upto_agree(xs, n as int, yb, n as int, n);
        lemma_basis_upto_agree(xs, n as int + 1, ya, n as int, n);
        lemma_mul_commutative(g[n as int], ra);
        lemma_mul_commutative(h[n as int], rb);
        reveal_with_fuel(seq_sum, 3);
        let sg = seq_sum(g, n);
        let sh = seq_sum(h, n);
        lemma_mul_distributive(ra, sg, g[n as int]);
        lemma_mul_distributive(rb, sh, h[n as int]);
        lemma_mul_unit(ra);
        lemma_mul_unit(rb);
        lemma_ratio_pair(a, b);
        let t1 = fmul(ra, sg);
        let t2 = fmul(rb, sh);
        let t3 = fmul(ra, g[n as int]);
        let t4 = fmul(rb, h[n as int]);
        lemma_add_rearrange(t1, t2, t3, t4);
    }
}

/// Division with remainder by `x - a`: `c(x) == c(a) + (x - a) q(x)`.
pub proof fn lemma_division(c: Seq<u8>, a: u8, x: u8)
    ensures
        poly_eval(c, x) == fadd(
            poly_eval(c, a),
            fmul(fadd(x, a), poly_eval(quotient(c, a), x)),
        ),
        quotient(c, a).len() == (if c.len() == 0 {
            0
        } else {
            c.len() - 1
        }),
    decreases c.len(),
{
    let d = fadd(x, a);
    lemma_mul_unit(d);
    lemma_mul_unit(x);
    lemma_mul_unit(a);
    if c.len() == 0 {
        lemma_add_laws(0, 0, 0);
    } else if c.len() == 1 {
        reveal_with_fuel(poly_eval, 2);
        lemma_add_laws(c[0], 0, 0);
    } else {
        let c1 = c.drop_first();
        let r = poly_eval(c1, a);
        let q1 = quotient(c1, a);
        let v = poly_eval(q1, x);
        lemma_division(c1, a, x);
        let q = quotient(c, a);
        assert(q.drop_first() =~= q1);
        lemma_mul_distributive(x, r, fmul(d, v));
        lemma_mul_distributive(d, r, fmul(x, v));
        lemma_mul_distributive_left(x, a, r);
        lemma_mul_left_commute(x, d, v);
        let c0 = c[0];
        let xr = fmul(x, r);
        let ar = fmul(a, r);
        let w = fmul(x, fmul(d, v));
        lemma_add_rearrange(c0, xr, w, ar);
    }
}

/// One term of the interpolation sum over the points `xs`, split by division by
/// `x - a`, where `a` is the last point: the term is a multiple of the basis value plus
/// `a` times the term of the quotient over the other points.
proof fn lemma_term_split(xs: Seq<u8>, c: Seq<u8>, j: int)
    requires
        distinct(xs),
        0 <= j < xs.len() - 1,
    ensures
        ({
            let n = xs.len() - 1;
            let a = xs[n];
            let q = quotient(c, a);
            fmul(poly_eval(c, xs[j]), basis(xs, j)) == fadd(
                fmul(poly_eval(c, a), basis(xs, j)),
                fmul(a, fmul(poly_eval(q, xs[j]), basis(xs.take(n), j))),
            )
        }),
{
    let n = (xs.len() - 1) as nat;
    let a = xs[n as int];
    let x0 = xs.take(n as int);
    let q = quotient(c, a);
    let pa = poly_eval(c, a);
    let xj = xs[j];
    let d = fadd(xj, a);
    let qj = poly_eval(q, xj);
    let beta = basis(x0, j);
    let r = ratio(a, xj);
    lemma_division(c, a, xj);
    lemma_add_rearrange(xj, a, 0, 0);
    lemma_inverse(d);
    lemma_basis_upto_agree(xs, j, x0, j, n);
    // ((xj - a) qj) (beta r) == (qj beta) (d r), and d r == a
    lemma_mul_commutative(d, qj);
    lemma_mul_swap4(qj, d, beta, r);
    lemma_mul_left_commute(d, a, finv(d));
    lemma_mul_unit(a);
    lemma_mul_commutative(fmul(qj, beta), a);
    lemma_mul_distributive_left(pa, fmul(d, qj), basis(xs, j));
}

/// Interpolation recovers the polynomial: from the values of a polynomial with at most as
/// many coefficients as there are points, at distinct points, the interpolated value at
/// zero is the polynomial's value at zero.
pub proof fn lemma_interpolation(xs: Seq<u8>, c: Seq<u8>, ys: Seq<u8>)
    requires
        distinct(xs),
        c.len() <= xs.len(),
        ys.len() == xs.len(),
        forall|j: int| 0 <= j < xs.len() ==> ys[j] == poly_eval(c, xs[j]),
    ensures
        interpolate(xs, ys) == poly_eval(c, 0),
    decreases xs.len(),
{
    let t = terms(xs, ys);
    if c.len() == 0 {
        assert forall|j: int| 0 <= j < xs.len() implies t[j] == 0 by {
            lemma_mul_unit(basis(xs, j));
        }
        lemma_sum_zero(t, xs.len());
    } else {
        let n = (xs.len() - 1) as nat;
        let a = xs[n as int];
        let x0 = xs.take(n as int);
        let q = quotient(c, a);
        let pa = poly_eval(c, a);
        let y0 = Seq::new(n, |j: int| poly_eval(q, x0[j]));
        lemma_division(c, a, 0);
        lemma_interpolation(x0, q, y0);
        lemma_basis_sum_one(xs);
        let bs = basis_values(xs);
        let t0 = terms(x0, y0);
        assert forall|j: int| 0 <= j < n implies t[j] == fadd(fmul(pa, bs[j]), fmul(a, t0[j])) by {
            lemma_term_split(xs, c, j);
        }
        lemma_sum_linear(t, pa, bs, a, t0, n);
        lemma_mul_distributive(pa, seq_sum(bs, n), bs[n as int]);
        lemma_mul_unit(pa);
        lemma_add_laws(a, 0, 0);
        let s1 = fmul(pa, seq_sum(bs, n));
        let s2 = fmul(a, seq_sum(t0, n));
        let s3 = fmul(pa, bs[n as int]);
        lemma_add_rearrange(s1, s2, s3, 0);
    }
}

} // verus!
