//! The field GF(256): bytes as polynomials over GF(2) modulo `x^8 + x^4 + x^3 + x + 1`.

use crate::error::{outcome, CoreError, CoreResult, Failure};
use vstd::prelude::*;

verus! {

/// Multiplication by the polynomial `x`, reduced modulo `x^8 + x^4 + x^3 + x + 1`.
pub open spec fn xtime(a: u8) -> u8 {
    if a & 0x80 != 0 {
        (a << 1) ^ 0x1b
    } else {
        a << 1
    }
}

/// `a` if bit `i` of `b` is set, zero otherwise.
pub open spec fn pick(a: u8, b: u8, i: u8) -> u8 {
    if (b >> i) & 1 != 0 {
        a
    } else {
        0
    }
}

/// `a1 .. a7` are `a * x`, `a * x^2`, .., `a * x^7`.
pub open spec fn chain(a: u8, a1: u8, a2: u8, a3: u8, a4: u8, a5: u8, a6: u8, a7: u8) -> bool {
    &&& a1 == xtime(a)
    &&& a2 == xtime(a1)
    &&& a3 == xtime(a2)
    &&& a4 == xtime(a3)
    &&& a5 == xtime(a4)
    &&& a6 == xtime(a5)
    &&& a7 == xtime(a6)
}

/// The sum of those `a_i` whose bit `i` is set in `b`.
pub open spec fn comb(a: u8, a1: u8, a2: u8, a3: u8, a4: u8, a5: u8, a6: u8, a7: u8, b: u8) -> u8 {
    pick(a, b, 0) ^ pick(a1, b, 1) ^ pick(a2, b, 2) ^ pick(a3, b, 3) ^ pick(a4, b, 4) ^ pick(
        a5,
        b,
        5,
    ) ^ pick(a6, b, 6) ^ pick(a7, b, 7)
}

/// The product of two elements of GF(256): the sum of `a * x^i` over the bits `i` set in `b`.
#[verifier::opaque]
pub open spec fn fmul(a: u8, b: u8) -> u8 {
    let a1 = xtime(a);
    let a2 = xtime(a1);
    let a3 = xtime(a2);
    let a4 = xtime(a3);
    let a5 = xtime(a4);
    let a6 = xtime(a5);
    let a7 = xtime(a6);
    comb(a, a1, a2, a3, a4, a5, a6, a7, b)
}

/// The sum of two elements of GF(256); subtraction is the same operation.
pub open spec fn fadd(a: u8, b: u8) -> u8 {
    a ^ b
}

/// `a` raised to the power `e`.
pub open spec fn fpow(a: u8, e: nat) -> u8
    decreases e,
{
    if e == 0 {
        1
    } else {
        fmul(a, fpow(a, (e - 1) as nat))
    }
}

/// The multiplicative inverse of a nonzero element.
#[verifier::opaque]
pub open spec fn finv(a: u8) -> u8 {
    fpow(a, 254)
}

/// The byte made of the `k` highest bits of `b`.
pub open spec fn top_bits(b: u8, k: nat) -> u8 {
    if k == 0 {
        0
    } else if k >= 8 {
        b
    } else {
        b >> ((8 - k) as u8)
    }
}

/// Multiplication by `x` is additive.
proof fn lemma_xtime_additive(a: u8, b: u8)
    ensures
        xtime(a ^ b) == xtime(a) ^ xtime(b),
{
    assert(xtime(a ^ b) == xtime(a) ^ xtime(b)) by (bit_vector);
}

/// One and zero: `a * 1 == 1 * a == a` and `a * 0 == 0 * a == 0`.
pub proof fn lemma_mul_unit(a: u8)
    ensures
        fmul(a, 1) == a,
        fmul(1, a) == a,
        fmul(a, 0) == 0,
        fmul(0, a) == 0,
{
    reveal(fmul);
    let a1 = xtime(a);
    let a2 = xtime(a1);
    let a3 = xtime(a2);
    let a4 = xtime(a3);
    let a5 = xtime(a4);
    let a6 = xtime(a5);
    let a7 = xtime(a6);
    assert({
        &&& chain(1, 2, 4, 8, 16, 32, 64, 128)
        &&& chain(0, 0, 0, 0, 0, 0, 0, 0)
        &&& comb(1, 2, 4, 8, 16, 32, 64, 128, a) == a
        &&& comb(0, 0, 0, 0, 0, 0, 0, 0, a) == 0
        &&& comb(a, a1, a2, a3, a4, a5, a6, a7, 1) == a
        &&& comb(a, a1, a2, a3, a4, a5, a6, a7, 0) == 0
    }) by (bit_vector);
}

/// Multiplication distributes over addition on the right.
pub proof fn lemma_mul_distributive(a: u8, b: u8, c: u8)
    ensures
        fmul(a, b ^ c) == fmul(a, b) ^ fmul(a, c),
{
    reveal(fmul);
    let a1 = xtime(a);
    let a2 = xtime(a1);
    let a3 = xtime(a2);
    let a4 = xtime(a3);
    let a5 = xtime(a4);
    let a6 = xtime(a5);
    let a7 = xtime(a6);
    assert({
        let with_b = comb(a, a1, a2, a3, a4, a5, a6, a7, b);
        let with_c = comb(a, a1, a2, a3, a4, a5, a6, a7, c);
        comb(a, a1, a2, a3, a4, a5, a6, a7, b ^ c) == with_b ^ with_c
    }) by (bit_vector);
}

/// Multiplication distributes over addition on the left.
pub proof fn lemma_mul_distributive_left(a: u8, b: u8, c: u8)
    ensures
        fmul(a ^ b, c) == fmul(a, c) ^ fmul(b, c),
{
    reveal(fmul);
    let a1 = xtime(a);
    let a2 = xtime(a1);
    let a3 = xtime(a2);
    let a4 = xtime(a3);
    let a5 = xtime(a4);
    let a6 = xtime(a5);
    let a7 = xtime(a6);
    let b1 = xtime(b);
    let b2 = xtime(b1);
    let b3 = xtime(b2);
    let b4 = xtime(b3);
    let b5 = xtime(b4);
    let b6 = xtime(b5);
    let b7 = xtime(b6);
    let d = a ^ b;
    let d1 = xtime(d);
    let d2 = xtime(d1);
    let d3 = xtime(d2);
    let d4 = xtime(d3);
    let d5 = xtime(d4);
    let d6 = xtime(d5);
    let d7 = xtime(d6);
    lemma_xtime_additive(a, b);
    lemma_xtime_additive(a1, b1);
    lemma_xtime_additive(a2, b2);
    lemma_xtime_additive(a3, b3);
    lemma_xtime_additive(a4, b4);
    lemma_xtime_additive(a5, b5);
    lemma_xtime_additive(a6, b6);
    assert({
        let of_a = comb(a, a1, a2, a3, a4, a5, a6, a7, c);
        let of_b = comb(b, b1, b2, b3, b4, b5, b6, b7, c);
        comb(d, d1, d2, d3, d4, d5, d6, d7, c) == of_a ^ of_b
    }) by (bit_vector)
        requires
            d == a ^ b,
            d1 == a1 ^ b1,
            d2 == a2 ^ b2,
            d3 == a3 ^ b3,
            d4 == a4 ^ b4,
            d5 == a5 ^ b5,
            d6 == a6 ^ b6,
            d7 == a7 ^ b7,
    ;
}

/// Multiplication by `x` goes through the choice of a term.
proof fn lemma_xtime_pick(v: u8, b: u8, i: u8)
    ensures
        xtime(pick(v, b, i)) == pick(xtime(v), b, i),
{
    assert(xtime(0) == 0) by (bit_vector);
}

/// `(a x) b == (a b) x`.
proof fn lemma_mul_xtime_left(a: u8, b: u8)
    ensures
        fmul(xtime(a), b) == xtime(fmul(a, b)),
{
    reveal(fmul);
    let a1 = xtime(a);
    let a2 = xtime(a1);
    let a3 = xtime(a2);
    let a4 = xtime(a3);
    let a5 = xtime(a4);
    let a6 = xtime(a5);
    let a7 = xtime(a6);
    let s1 = pick(a, b, 0) ^ pick(a1, b, 1);
    let s2 = s1 ^ pick(a2, b, 2);
    let s3 = s2 ^ pick(a3, b, 3);
    let s4 = s3 ^ pick(a4, b, 4);
    let s5 = s4 ^ pick(a5, b, 5);
    let s6 = s5 ^ pick(a6, b, 6);
    lemma_xtime_pick(a, b, 0);
    lemma_xtime_pick(a1, b, 1);
    lemma_xtime_pick(a2, b, 2);
    lemma_xtime_pick(a3, b, 3);
    lemma_xtime_pick(a4, b, 4);
    lemma_xtime_pick(a5, b, 5);
    lemma_xtime_pick(a6, b, 6);
    lemma_xtime_pick(a7, b, 7);
    lemma_xtime_additive(pick(a, b, 0), pick(a1, b, 1));
    lemma_xtime_additive(s1, pick(a2, b, 2));
    lemma_xtime_additive(s2, pick(a3, b, 3));
    lemma_xtime_additive(s3, pick(a4, b, 4));
    lemma_xtime_additive(s4, pick(a5, b, 5));
    lemma_xtime_additive(s5, pick(a6, b, 6));
    lemma_xtime_additive(s6, pick(a7, b, 7));
}

/// `a (b x) == (a b) x`.
#[verifier::rlimit(100)]
proof fn lemma_mul_xtime_right(a: u8, b: u8)
    ensures
        fmul(a, xtime(b)) == xtime(fmul(a, b)),
{
    reveal(fmul);
    let a1 = xtime(a);
    let a2 = xtime(a1);
    let a3 = xtime(a2);
    let a4 = xtime(a3);
    let a5 = xtime(a4);
    let a6 = xtime(a5);
    let a7 = xtime(a6);
    let a8 = xtime(a7);
    let s: u8 = b << 1;
    let r: u8 = if b & 0x80 != 0 {
        0x1b
    } else {
        0
    };
    // the bits of `b << 1` select the same terms one place further up
    assert(comb(a, a1, a2, a3, a4, a5, a6, a7, b << 1) == pick(a1, b, 0) ^ pick(a2, b, 1) ^ pick(
        a3,
        b,
        2,
    ) ^ pick(a4, b, 3) ^ pick(a5, b, 4) ^ pick(a6, b, 5) ^ pick(a7, b, 6)) by (bit_vector);
    // the bit that falls off the top comes back as `x^4 + x^3 + x + 1`
    assert(xtime(b) == (b << 1) ^ r && comb(a, a1, a2, a3, a4, a5, a6, a7, r) == pick(a8, b, 7))
        by (bit_vector)
        requires
            chain(a, a1, a2, a3, a4, a5, a6, a7),
            a8 == xtime(a7),
            r == (if b & 0x80 != 0 {
                0x1bu8
            } else {
                0u8
            }),
    ;
    lemma_mul_distributive(a, s, r);
    lemma_mul_xtime_left(a, b);
}

/// The `k` highest bits of `b` are the `k - 1` highest, times `x`, plus the next bit.
proof fn lemma_top_bits_step(b: u8, k: nat)
    requires
        1 <= k <= 8,
    ensures
        top_bits(b, k) == xtime(top_bits(b, (k - 1) as nat)) ^ (top_bits(b, k) & 1),
        top_bits(b, k) & 1 == 0 || top_bits(b, k) & 1 == 1,
{
    let j = (8 - k) as u8;
    let j1 = (9 - k) as u8;
    let h = top_bits(b, (k - 1) as nat);
    assert((b >> j) == xtime(h) ^ ((b >> j) & 1) && (((b >> j) & 1) == 0 || ((b >> j) & 1) == 1)
        && b >> 0u8 == b) by (bit_vector)
        requires
            j <= 7,
            j1 == j + 1,
            h == (if j == 7 {
                0u8
            } else {
                b >> j1
            }),
    ;
}

/// Multiplication by the `k` highest bits of `b` is commutative.
proof fn lemma_commutative_upto(a: u8, b: u8, k: nat)
    requires
        k <= 8,
    ensures
        fmul(a, top_bits(b, k)) == fmul(top_bits(b, k), a),
    decreases k,
{
    lemma_mul_unit(a);
    if k > 0 {
        let h = top_bits(b, (k - 1) as nat);
        let e = top_bits(b, k) & 1;
        lemma_commutative_upto(a, b, (k - 1) as nat);
        lemma_top_bits_step(b, k);
        lemma_mul_distributive(a, xtime(h), e);
        lemma_mul_distributive_left(xtime(h), e, a);
        lemma_mul_xtime_right(a, h);
        lemma_mul_xtime_left(h, a);
    }
}

/// Multiplication is commutative.
pub proof fn lemma_mul_commutative(a: u8, b: u8)
    ensures
        fmul(a, b) == fmul(b, a),
{
    lemma_commutative_upto(a, b, 8);
}

/// Multiplication with the `k` highest bits of `b` in the middle is associative.
proof fn lemma_associative_upto(a: u8, b: u8, c: u8, k: nat)
    requires
        k <= 8,
    ensures
        fmul(fmul(a, top_bits(b, k)), c) == fmul(a, fmul(top_bits(b, k), c)),
    decreases k,
{
    lemma_mul_unit(a);
    lemma_mul_unit(c);
    if k > 0 {
        let h = top_bits(b, (k - 1) as nat);
        let e = top_bits(b, k) & 1;
        lemma_associative_upto(a, b, c, (k - 1) as nat);
        lemma_top_bits_step(b, k);
        // (a * (x h + e)) * c
        lemma_mul_distributive(a, xtime(h), e);
        lemma_mul_xtime_right(a, h);
        lemma_mul_distributive_left(xtime(fmul(a, h)), fmul(a, e), c);
        lemma_mul_xtime_left(fmul(a, h), c);
        // a * ((x h + e) * c)
        lemma_mul_distributive_left(xtime(h), e, c);
        lemma_mul_xtime_left(h, c);
        lemma_mul_distributive(a, xtime(fmul(h, c)), fmul(e, c));
        lemma_mul_xtime_right(a, fmul(h, c));
    }
}

/// Multiplication is associative.
pub proof fn lemma_mul_associative(a: u8, b: u8, c: u8)
    ensures
        fmul(fmul(a, b), c) == fmul(a, fmul(b, c)),
{
    lemma_associative_upto(a, b, c, 8);
}

/// Powers add up: `a^(m + n) == a^m * a^n`.
pub proof fn lemma_pow_add(a: u8, m: nat, n: nat)
    ensures
        fpow(a, m + n) == fmul(fpow(a, m), fpow(a, n)),
    decreases m,
{
    if m == 0 {
        lemma_mul_unit(fpow(a, n));
    } else {
        lemma_pow_add(a, (m - 1) as nat, n);
        lemma_mul_associative(a, fpow(a, (m - 1) as nat), fpow(a, n));
    }
}

/// Powers of a square: `(a * a)^m == a^(2 m)`.
pub proof fn lemma_pow_square(a: u8, m: nat)
    ensures
        fpow(fmul(a, a), m) == fpow(a, 2 * m),
    decreases m,
{
    if m > 0 {
        lemma_pow_square(a, (m - 1) as nat);
        lemma_mul_unit(a);
        assert(fpow(a, 2) == fmul(a, a)) by {
            reveal_with_fuel(fpow, 3);
        }
        lemma_pow_add(a, 2, (2 * (m - 1)) as nat);
    }
}

/// Every nonzero element has an inverse: `a * a^254 == 1`.
#[verifier::rlimit(100)]
pub proof fn lemma_inverse(a: u8)
    requires
        a != 0,
    ensures
        fmul(a, finv(a)) == 1,
        fmul(finv(a), a) == 1,
        finv(a) != 0,
{
    reveal(fmul);
    reveal(finv);
    let a1 = xtime(a);
    let a2 = xtime(a1);
    let a3 = xtime(a2);
    let a4 = xtime(a3);
    let a5 = xtime(a4);
    let a6 = xtime(a5);
    let a7 = xtime(a6);
    let p = fmul(a, a);
    let p1 = xtime(p);
    let p2 = xtime(p1);
    let p3 = xtime(p2);
    let p4 = xtime(p3);
    let p5 = xtime(p4);
    let p6 = xtime(p5);
    let p7 = xtime(p6);
    let q = fmul(p, p);
    let q1 = xtime(q);
    let q2 = xtime(q1);
    let q3 = xtime(q2);
    let q4 = xtime(q3);
    let q5 = xtime(q4);
    let q6 = xtime(q5);
    let q7 = xtime(q6);
    let r = fmul(q, q);
    let r1 = xtime(r);
    let r2 = xtime(r1);
    let r3 = xtime(r2);
    let r4 = xtime(r3);
    let r5 = xtime(r4);
    let r6 = xtime(r5);
    let r7 = xtime(r6);
    let s = fmul(r, r);
    let s1 = xtime(s);
    let s2 = xtime(s1);
    let s3 = xtime(s2);
    let s4 = xtime(s3);
    let s5 = xtime(s4);
    let s6 = xtime(s5);
    let s7 = xtime(s6);
    let t = fmul(s, s);
    let t1 = xtime(t);
    let t2 = xtime(t1);
    let t3 = xtime(t2);
    let t4 = xtime(t3);
    let t5 = xtime(t4);
    let t6 = xtime(t5);
    let t7 = xtime(t6);
    let u = fmul(t, t);
    let u1 = xtime(u);
    let u2 = xtime(u1);
    let u3 = xtime(u2);
    let u4 = xtime(u3);
    let u5 = xtime(u4);
    let u6 = xtime(u5);
    let u7 = xtime(u6);
    let v = fmul(u, u);
    let v1 = xtime(v);
    let v2 = xtime(v1);
    let v3 = xtime(v2);
    let v4 = xtime(v3);
    let v5 = xtime(v4);
    let v6 = xtime(v5);
    let v7 = xtime(v6);
    let w2 = fmul(q, p);
    let w3 = fmul(r, w2);
    let w4 = fmul(s, w3);
    let w5 = fmul(t, w4);
    let w6 = fmul(u, w5);
    let w7 = fmul(v, w6);
    let z = fmul(a, w7);
    assert(z == 1) by (bit_vector)
        requires
            a != 0,
            chain(a, a1, a2, a3, a4, a5, a6, a7),
            p == comb(a, a1, a2, a3, a4, a5, a6, a7, a),
            chain(p, p1, p2, p3, p4, p5, p6, p7),
            q == comb(p, p1, p2, p3, p4, p5, p6, p7, p),
            chain(q, q1, q2, q3, q4, q5, q6, q7),
            r == comb(q, q1, q2, q3, q4, q5, q6, q7, q),
            chain(r, r1, r2, r3, r4, r5, r6, r7),
            s == comb(r, r1, r2, r3, r4, r5, r6, r7, r),
            chain(s, s1, s2, s3, s4, s5, s6, s7),
            t == comb(s, s1, s2, s3, s4, s5, s6, s7, s),
            chain(t, t1, t2, t3, t4, t5, t6, t7),
            u == comb(t, t1, t2, t3, t4, t5, t6, t7, t),
            chain(u, u1, u2, u3, u4, u5, u6, u7),
            v == comb(u, u1, u2, u3, u4, u5, u6, u7, u),
            chain(v, v1, v2, v3, v4, v5, v6, v7),
            w2 == comb(q, q1, q2, q3, q4, q5, q6, q7, p),
            w3 == comb(r, r1, r2, r3, r4, r5, r6, r7, w2),
            w4 == comb(s, s1, s2, s3, s4, s5, s6, s7, w3),
            w5 == comb(t, t1, t2, t3, t4, t5, t6, t7, w4),
            w6 == comb(u, u1, u2, u3, u4, u5, u6, u7, w5),
            w7 == comb(v, v1, v2, v3, v4, v5, v6, v7, w6),
            z == comb(a, a1, a2, a3, a4, a5, a6, a7, w7),
    ;
    lemma_mul_unit(a);
    assert(fpow(a, 1) == a) by {
        reveal_with_fuel(fpow, 2);
    }
    lemma_pow_add(a, 1, 1);
    lemma_pow_add(a, 2, 2);
    lemma_pow_add(a, 4, 4);
    lemma_pow_add(a, 8, 8);
    lemma_pow_add(a, 16, 16);
    lemma_pow_add(a, 32, 32);
    lemma_pow_add(a, 64, 64);
    lemma_pow_add(a, 4, 2);
    lemma_pow_add(a, 8, 6);
    lemma_pow_add(a, 16, 14);
    lemma_pow_add(a, 32, 30);
    lemma_pow_add(a, 64, 62);
    lemma_pow_add(a, 128, 126);
    lemma_mul_commutative(a, finv(a));
}

/// A product is zero only if one of its factors is.
pub proof fn lemma_no_zero_divisors(a: u8, b: u8)
    requires
        fmul(a, b) == 0,
    ensures
        a == 0 || b == 0,
{
    if a != 0 {
        lemma_inverse(a);
        lemma_mul_associative(finv(a), a, b);
        lemma_mul_unit(b);
        lemma_mul_unit(finv(a));
    }
}

/// Addition is bitwise exclusive or: commutative, associative, and every element is its
/// own negative.
pub proof fn lemma_add_laws(a: u8, b: u8, c: u8)
    ensures
        fadd(a, b) == fadd(b, a),
        fadd(fadd(a, b), c) == fadd(a, fadd(b, c)),
        fadd(a, 0) == a,
        fadd(0, a) == a,
        fadd(a, a) == 0,
        fadd(a, b) == 0 <==> a == b,
{
    assert(a ^ b == b ^ a && (a ^ b) ^ c == a ^ (b ^ c) && a ^ 0 == a && 0 ^ a == a && a ^ a == 0
        && (a ^ b == 0 <==> a == b)) by (bit_vector);
}

/// Rearrangements of sums, and that a sum is zero only of equal elements.
pub proof fn lemma_add_rearrange(a: u8, b: u8, c: u8, d: u8)
    ensures
        a ^ b == b ^ a,
        (a != b) == (a ^ b != 0),
        (a ^ c) ^ (b ^ c) == a ^ b,
        (a ^ b) ^ (c ^ d) == (a ^ c) ^ (b ^ d),
        ((a ^ b) ^ c) ^ d == (a ^ c) ^ (b ^ d),
        a ^ (b ^ c) == (a ^ d) ^ ((b ^ d) ^ c),
        (a ^ b) ^ c == (a ^ c) ^ b,
{
    assert(a ^ b == b ^ a && ((a != b) == (a ^ b != 0)) && (a ^ c) ^ (b ^ c) == a ^ b && (a ^ b)
        ^ (c ^ d) == (a ^ c) ^ (b ^ d) && ((a ^ b) ^ c) ^ d == (a ^ c) ^ (b ^ d) && a ^ (b ^ c) == (
    a ^ d) ^ ((b ^ d) ^ c) && (a ^ b) ^ c == (a ^ c) ^ b) by (bit_vector);
}

/// `a * x^i`.
pub open spec fn xtime_iter(a: u8, i: nat) -> u8
    decreases i,
{
    if i == 0 {
        a
    } else {
        xtime(xtime_iter(a, (i - 1) as nat))
    }
}

/// The part of the product `a * b` that the lowest `i` bits of `b` contribute.
pub open spec fn partial_product(a: u8, b: u8, i: nat) -> u8
    decreases i,
{
    if i == 0 {
        0
    } else if i == 1 {
        pick(a, b, 0)
    } else {
        partial_product(a, b, (i - 1) as nat) ^ pick(
            xtime_iter(a, (i - 1) as nat),
            b,
            (i - 1) as u8,
        )
    }
}

/// `b` without its `i` lowest bits.
pub open spec fn low_dropped(b: u8, i: nat) -> u8 {
    if i == 0 {
        b
    } else if i >= 8 {
        0
    } else {
        b >> (i as u8)
    }
}

/// Multiplies two elements of GF(256) by shifting and adding.
pub fn gf_mul(a: u8, b: u8) -> (p: u8)
    ensures
        p == fmul(a, b),
{
    let mut x: u8 = a;
    let mut y: u8 = b;
    let mut p: u8 = 0;
    let mut i: u8 = 0;
    while i < 8
        invariant
            i <= 8,
            x == xtime_iter(a, i as nat),
            p == partial_product(a, b, i as nat),
            y == low_dropped(b, i as nat),
        decreases 8 - i,
    {
        proof {
            let j: u8 = (i + 1) as u8;
            assert(0u8 ^ x == x && p ^ 0u8 == p && (i < 7 ==> (b >> i) >> 1u8 == b >> j) && b
                >> 0u8 == b && (b >> 7u8) >> 1u8 == 0) by (bit_vector)
                requires
                    j == i + 1,
            ;
        }
        if (y & 1) != 0 {
            p ^= x;
        }
        let hi: u8 = x & 0x80;
        x = x << 1;
        if hi != 0 {
            x ^= 0x1b;
        }
        y = y >> 1;
        i += 1;
    }
    proof {
        reveal(fmul);
        reveal_with_fuel(xtime_iter, 9);
        reveal_with_fuel(partial_product, 9);
    }
    p
}

/// Raises an element of GF(256) to a power by squaring and multiplying.
pub fn gf_pow(a: u8, exp: u16) -> (r: u8)
    ensures
        r == fpow(a, exp as nat),
{
    let mut base: u8 = a;
    let mut e: u16 = exp;
    let mut result: u8 = 1;
    proof {
        lemma_mul_unit(fpow(a, exp as nat));
    }
    while e > 0
        invariant
            fmul(result, fpow(base, e as nat)) == fpow(a, exp as nat),
        decreases e,
    {
        proof {
            assert(((e & 1) != 0 <==> e % 2 == 1) && e >> 1 == e / 2) by (bit_vector);
            let half = (e / 2) as nat;
            lemma_pow_square(base, half);
            if e % 2 == 1 {
                lemma_mul_associative(result, base, fpow(base, (e - 1) as nat));
            }
        }
        if (e & 1) != 0 {
            result = gf_mul(result, base);
        }
        base = gf_mul(base, base);
        e = e >> 1;
    }
    proof {
        lemma_mul_unit(result);
    }
    result
}

/// The inverse of `a` as a result: zero has none.
pub open spec fn inv_spec(a: u8) -> Result<Gf256, Failure> {
    if a == 0 {
        Err(Failure::DivisionByZero)
    } else {
        Ok(Gf256(finv(a)))
    }
}

/// The quotient `a / b` as a result: there is none for `b == 0`.
pub open spec fn div_spec(a: u8, b: u8) -> Result<Gf256, Failure> {
    if b == 0 {
        Err(Failure::DivisionByZero)
    } else {
        Ok(Gf256(fmul(a, finv(b))))
    }
}

/// An element of the field GF(256), bytes read as polynomials over GF(2) modulo
/// `x^8 + x^4 + x^3 + x + 1`.
#[derive(Clone, Copy, Debug, PartialEq, Eq, Structural)]
pub struct Gf256(pub u8);

impl Gf256 {
    /// The multiplicative inverse; zero has none.
    pub fn inv(self) -> (r: CoreResult<Gf256>)
        ensures
            outcome(r) == inv_spec(self.0),
    {
        if self.0 == 0 {
            return Err(CoreError::DivisionByZero);
        }
        proof {
            reveal(finv);
        }
        Ok(Gf256(gf_pow(self.0, 254)))
    }

    /// `self / rhs`, which is `self` times the inverse of `rhs`.
    pub fn checked_div(self, rhs: Gf256) -> (r: CoreResult<Gf256>)
        ensures
            outcome(r) == div_spec(self.0, rhs.0),
    {
        match rhs.inv() {
            Ok(i) => Ok(self * i),
            Err(e) => Err(e),
        }
    }
}

impl std::ops::Add for Gf256 {
    type Output = Gf256;

    fn add(self, rhs: Gf256) -> (r: Gf256) {
        Gf256(self.0 ^ rhs.0)
    }
}

impl vstd::std_specs::ops::AddSpecImpl for Gf256 {
    open spec fn obeys_add_spec() -> bool {
        true
    }

    open spec fn add_req(self, rhs: Gf256) -> bool {
        true
    }

    open spec fn add_spec(self, rhs: Gf256) -> Gf256 {
        Gf256(fadd(self.0, rhs.0))
    }
}

impl std::ops::Sub for Gf256 {
    type Output = Gf256;

    fn sub(self, rhs: Gf256) -> (r: Gf256) {
        self + rhs
    }
}

impl vstd::std_specs::ops::SubSpecImpl for Gf256 {
    open spec fn obeys_sub_spec() -> bool {
        true
    }

    open spec fn sub_req(self, rhs: Gf256) -> bool {
        true
    }

    open spec fn sub_spec(self, rhs: Gf256) -> Gf256 {
        Gf256(fadd(self.0, rhs.0))
    }
}

impl std::ops::Mul for Gf256 {
    type Output = Gf256;

    fn mul(self, rhs: Gf256) -> (r: Gf256) {
        Gf256(gf_mul(self.0, rhs.0))
    }
}

impl vstd::std_specs::ops::MulSpecImpl for Gf256 {
    open spec fn obeys_mul_spec() -> bool {
        true
    }

    open spec fn mul_req(self, rhs: Gf256) -> bool {
        true
    }

    open spec fn mul_spec(self, rhs: Gf256) -> Gf256 {
        Gf256(fmul(self.0, rhs.0))
    }
}

} // verus!
