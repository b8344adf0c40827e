//! What the CRC notices: every change that stays within sixteen consecutive bits.

use crate::bits::{bit, byte_bits, lemma_byte_bit, lemma_byte_from_bits};
use crate::mnemo_words::{be16, crc16, crc_feed, crc_shift, crc_shifts};
use vstd::prelude::*;

verus! {

/// The shift register after `bytes`, from the value `start`.
pub open spec fn register(start: u16, bytes: Seq<u8>) -> u16
    decreases bytes.len(),
{
    if bytes.len() == 0 {
        start
    } else {
        crc_feed(register(start, bytes.drop_last()), bytes.last())
    }
}

/// Byte by byte, the bits in which two byte strings of one length differ.
pub open spec fn differences(a: Seq<u8>, b: Seq<u8>) -> Seq<u8> {
    Seq::new(a.len(), |i: int| a[i] ^ b[i])
}

/// `a` and `b` are of one length and differ, but only within the sixteen bits of the
/// string that start at bit `at`.
pub open spec fn burst(a: Seq<u8>, b: Seq<u8>, at: int) -> bool {
    &&& a.len() == b.len()
    &&& a != b
    &&& 0 <= at
    &&& at + 16 <= 8 * a.len()
    &&& forall|t: int|
        0 <= t < 8 * a.len() && !(at <= t < at + 16) ==> byte_bits(a)[t] == byte_bits(b)[t]
}

/// One shift is linear, and only zero is shifted to zero.
proof fn lemma_shift_laws(a: u16, b: u16)
    by (bit_vector)
    ensures
        crc_shift(a ^ b) == crc_shift(a) ^ crc_shift(b),
        crc_shift(a) == 0 <==> a == 0,
{
}

/// A value with room above it is shifted without the polynomial.
proof fn lemma_shift_plain(x: u16, k: u16)
    by (bit_vector)
    requires
        1 <= k <= 15,
        x >> ((16 - k) as u16) == 0,
    ensures
        crc_shift(x << ((k - 1) as u16)) == x << k,
        k >= 2 ==> x >> ((17 - k) as u16) == 0,
{
}

/// Shifting `m` times and then `n` times is shifting `m + n` times.
proof fn lemma_shifts_add(x: u16, m: nat, n: nat)
    ensures
        crc_shifts(crc_shifts(x, m), n) == crc_shifts(x, m + n),
    decreases n,
{
    if n > 0 {
        lemma_shifts_add(x, m, (n - 1) as nat);
        assert(((m + n) - 1) as nat == m + ((n - 1) as nat));
    }
}

/// Shifting is linear.
proof fn lemma_shifts_linear(a: u16, b: u16, n: nat)
    ensures
        crc_shifts(a ^ b, n) == crc_shifts(a, n) ^ crc_shifts(b, n),
    decreases n,
{
    if n > 0 {
        lemma_shifts_linear(a, b, (n - 1) as nat);
        lemma_shift_laws(crc_shifts(a, (n - 1) as nat), crc_shifts(b, (n - 1) as nat));
    }
}

/// Only zero is shifted to zero.
proof fn lemma_shifts_kernel(a: u16, n: nat)
    ensures
        crc_shifts(a, n) == 0 <==> a == 0,
    decreases n,
{
    if n > 0 {
        lemma_shifts_kernel(a, (n - 1) as nat);
        lemma_shift_laws(crc_shifts(a, (n - 1) as nat), 0);
    }
}

/// A value with `k` bits of room above it is shifted `k` times without the polynomial.
proof fn lemma_shifts_plain(x: u16, k: nat)
    requires
        k <= 15,
        k >= 1 ==> x >> ((16 - k) as u16) == 0,
    ensures
        crc_shifts(x, k) == x << (k as u16),
    decreases k,
{
    if k == 0 {
        assert(x << 0u16 == x) by (bit_vector);
    } else {
        lemma_shift_plain(x, k as u16);
        lemma_shifts_plain(x, (k - 1) as nat);
    }
}

/// What the window of sixteen bits in three bytes holds, and where it stands.
proof fn lemma_window_bits(a0: u16, a1: u16, a2: u16, k: u16)
    by (bit_vector)
    requires
        1 <= k <= 8,
        a0 < 256,
        a1 < 256,
        a2 < 256,
        a0 >> k == 0,
        a2 & (((1u16 << k) - 1) as u16) == 0,
    ensures
        a0 >> 8u16 == 0,
        a1 >> 8u16 == 0,
        a2 >> 8u16 == 0,
        k < 8 ==> a1 >> ((8 + k) as u16) == 0,
        (a2 >> k) >> ((16 - k) as u16) == 0,
        (a2 >> k) << k == a2,
        a1 << 0u16 == a1,
        ((a0 << ((16 - k) as u16)) ^ (a1 << ((8 - k) as u16))) ^ (a2 >> k) == 0 ==> a0 == 0 && a1
            == 0 && a2 == 0,
{
}

/// A byte's place in the register.
proof fn lemma_feed_byte(s: u16, b: u8)
    by (bit_vector)
    ensures
        (b as u16) < 256,
        b == 0 ==> s ^ ((b as u16) << 8) == s,
        s == 0 ==> s ^ ((b as u16) << 8) == (b as u16) << 8,
        (b as u16) == 0 ==> b == 0,
{
}

/// Feeding bytes is linear in the register and the byte.
proof fn lemma_feed_linear(x: u16, y: u16, p: u8, q: u8)
    ensures
        crc_feed(x ^ y, p ^ q) == crc_feed(x, p) ^ crc_feed(y, q),
{
    assert((x ^ y) ^ (((p ^ q) as u16) << 8) == (x ^ ((p as u16) << 8)) ^ (y ^ ((q as u16) << 8)))
        by (bit_vector);
    lemma_shifts_linear(x ^ ((p as u16) << 8), y ^ ((q as u16) << 8), 8);
}

/// A zero byte leaves a register at zero, and no other there.
proof fn lemma_feed_zero(s: u16)
    ensures
        crc_feed(s, 0) == 0 <==> s == 0,
{
    lemma_feed_byte(s, 0);
    lemma_shifts_kernel(s, 8);
}

/// Three bytes that change something within sixteen bits, `8 - k` bits into the first
/// byte, do not leave a register at zero.
#[verifier::rlimit(40)]
proof fn lemma_window(u0: u8, u1: u8, u2: u8, k: u16)
    requires
        1 <= k <= 8,
        (u0 as u16) >> k == 0,
        (u2 as u16) & (((1u16 << k) - 1) as u16) == 0,
        crc_feed(crc_feed(crc_feed(0, u0), u1), u2) == 0,
    ensures
        u0 == 0 && u1 == 0 && u2 == 0,
{
    let a0 = u0 as u16;
    let a1 = u1 as u16;
    let a2 = u2 as u16;
    lemma_feed_byte(0, u0);
    lemma_feed_byte(0, u1);
    lemma_feed_byte(0, u2);
    lemma_window_bits(a0, a1, a2, k);
    let kn = k as nat;
    let p0 = a0 << ((16 - k) as u16);
    let p1 = a1 << ((8 - k) as u16);
    let p2 = a2 >> k;
    let long = (16 + kn) as nat;
    // The bytes as they stand in the register are shifted values.
    lemma_shifts_plain(a0, 8);
    lemma_shifts_plain(a1, 8);
    lemma_shifts_plain(a2, 8);
    let t1 = crc_feed(0, u0);
    assert(t1 == crc_shifts(crc_shifts(a0, 8), 8));
    lemma_shifts_add(a0, 8, 8);
    let t2 = crc_feed(t1, u1);
    lemma_shifts_linear(t1, a1 << 8, 8);
    lemma_shifts_add(a0, 16, 8);
    lemma_shifts_add(a1, 8, 8);
    assert(t2 == crc_shifts(a0, 24) ^ crc_shifts(a1, 16));
    let t3 = crc_feed(t2, u2);
    lemma_shifts_linear(t2, a2 << 8, 8);
    lemma_shifts_linear(crc_shifts(a0, 24), crc_shifts(a1, 16), 8);
    lemma_shifts_add(a0, 24, 8);
    lemma_shifts_add(a1, 16, 8);
    lemma_shifts_add(a2, 8, 8);
    assert(t3 == (crc_shifts(a0, 32) ^ crc_shifts(a1, 24)) ^ crc_shifts(a2, 16));
    // Each is the window's part, shifted `16 + k` times.
    lemma_shifts_plain(a0, (16 - kn) as nat);
    lemma_shifts_add(a0, (16 - kn) as nat, long);
    assert(crc_shifts(a0, 32) == crc_shifts(p0, long));
    lemma_shifts_plain(a1, (8 - kn) as nat);
    lemma_shifts_add(a1, (8 - kn) as nat, long);
    assert(crc_shifts(a1, 24) == crc_shifts(p1, long));
    lemma_shifts_plain(p2, kn);
    lemma_shifts_add(p2, kn, 16);
    assert(crc_shifts(a2, 16) == crc_shifts(p2, long));
    lemma_shifts_linear(p0, p1, long);
    lemma_shifts_linear(p0 ^ p1, p2, long);
    lemma_shifts_kernel((p0 ^ p1) ^ p2, long);
}

/// The register after one more byte.
proof fn lemma_register_step(start: u16, e: Seq<u8>, i: int)
    requires
        0 <= i < e.len(),
    ensures
        register(start, e.take(i + 1)) == crc_feed(register(start, e.take(i)), e[i]),
{
    assert(e.take(i + 1).drop_last() =~= e.take(i));
}

/// Zero bytes leave a register at zero.
proof fn lemma_register_zeros(e: Seq<u8>, n: int)
    requires
        0 <= n <= e.len(),
        forall|i: int| 0 <= i < n ==> e[i] == 0,
    ensures
        register(0, e.take(n)) == 0,
    decreases n,
{
    if n > 0 {
        lemma_register_zeros(e, n - 1);
        lemma_register_step(0, e, n - 1);
        lemma_feed_zero(0);
    }
}

/// Zero bytes do not bring a register to zero.
proof fn lemma_register_stays(e: Seq<u8>, from: int, to: int)
    requires
        0 <= from <= to <= e.len(),
        register(0, e.take(from)) != 0,
        forall|i: int| from <= i < to ==> e[i] == 0,
    ensures
        register(0, e.take(to)) != 0,
    decreases to - from,
{
    if from < to {
        lemma_register_stays(e, from, to - 1);
        lemma_register_step(0, e, to - 1);
        lemma_feed_zero(register(0, e.take(to - 1)));
    }
}

/// Bytes that are zero but within sixteen bits, and not zero there, do not leave a
/// register at zero.
#[verifier::rlimit(40)]
proof fn lemma_window_register(e: Seq<u8>, j: int, k: u16)
    requires
        0 <= j,
        j + 2 <= e.len(),
        1 <= k <= 8,
        forall|i: int| 0 <= i < j ==> e[i] == 0,
        forall|i: int| j + 3 <= i < e.len() ==> e[i] == 0,
        (e[j] as u16) >> k == 0,
        j + 2 < e.len() ==> (e[j + 2] as u16) & (((1u16 << k) - 1) as u16) == 0,
        e[j] != 0 || e[j + 1] != 0 || (j + 2 < e.len() && e[j + 2] != 0),
    ensures
        register(0, e) != 0,
{
    lemma_register_zeros(e, j);
    lemma_register_step(0, e, j);
    lemma_register_step(0, e, j + 1);
    let t2 = register(0, e.take(j + 2));
    if j + 2 < e.len() {
        lemma_register_step(0, e, j + 2);
        if register(0, e.take(j + 3)) == 0 {
            lemma_window(e[j], e[j + 1], e[j + 2], k);
        }
        lemma_register_stays(e, j + 3, e.len() as int);
    } else {
        if t2 == 0 {
            lemma_feed_zero(0);
            assert((0u8 as u16) & (((1u16 << k) - 1) as u16) == 0) by (bit_vector);
            lemma_window(e[j], e[j + 1], 0, k);
        }
    }
    assert(e.take(e.len() as int) =~= e);
}

/// The register after the differences of two strings is the difference of the registers
/// after them.
pub proof fn lemma_register_difference(s: u16, t: u16, a: Seq<u8>, b: Seq<u8>)
    requires
        a.len() == b.len(),
    ensures
        register(s ^ t, differences(a, b)) == register(s, a) ^ register(t, b),
    decreases a.len(),
{
    if a.len() > 0 {
        lemma_register_difference(s, t, a.drop_last(), b.drop_last());
        assert(differences(a, b).drop_last() =~= differences(a.drop_last(), b.drop_last()));
        lemma_feed_linear(
            register(s, a.drop_last()),
            register(t, b.drop_last()),
            a.last(),
            b.last(),
        );
    }
}

/// The CRC is the register that starts at `0xFFFF`.
pub proof fn lemma_crc_register(d: Seq<u8>)
    ensures
        crc16(d) == register(0xFFFF, d),
    decreases d.len(),
{
    if d.len() > 0 {
        lemma_crc_register(d.drop_last());
    }
}

/// The two bytes of a register bring it to zero.
proof fn lemma_check_bits(s: u16)
    by (bit_vector)
    ensures
        (s ^ ((((s / 0x100) as u8) as u16) << 8)) >> 8u16 == 0,
        ((s ^ ((((s / 0x100) as u8) as u16) << 8)) << 8u16) ^ ((((s % 0x100) as u8) as u16) << 8)
            == 0,
{
}

/// Bytes followed by their CRC bring the register to zero.
pub proof fn lemma_framed_register(d: Seq<u8>)
    ensures
        register(0xFFFF, d + be16(crc16(d))) == 0,
{
    let s = crc16(d);
    let f = d + be16(s);
    let g = f.drop_last();
    let high = (s / 0x100) as u8;
    let low = (s % 0x100) as u8;
    lemma_crc_register(d);
    assert(g.drop_last() =~= d);
    assert(g.last() == high);
    assert(f.last() == low);
    lemma_check_bits(s);
    let rest = s ^ ((high as u16) << 8);
    lemma_shifts_plain(rest, 8);
    assert(register(0xFFFF, g) == crc_feed(s, high));
    assert(register(0xFFFF, g) == rest << 8);
    assert(register(0xFFFF, f) == crc_feed(rest << 8, low));
    lemma_shifts_kernel(0, 8);
}

/// The bits in which two bytes differ, where their bits from `k` up are the same.
proof fn lemma_same_high_bits(x: u8, y: u8, k: u32)
    by (bit_vector)
    requires
        1 <= k <= 8,
        0 >= k ==> bit(x as u32, 0) == bit(y as u32, 0),
        1 >= k ==> bit(x as u32, 1) == bit(y as u32, 1),
        2 >= k ==> bit(x as u32, 2) == bit(y as u32, 2),
        3 >= k ==> bit(x as u32, 3) == bit(y as u32, 3),
        4 >= k ==> bit(x as u32, 4) == bit(y as u32, 4),
        5 >= k ==> bit(x as u32, 5) == bit(y as u32, 5),
        6 >= k ==> bit(x as u32, 6) == bit(y as u32, 6),
        7 >= k ==> bit(x as u32, 7) == bit(y as u32, 7),
    ensures
        ((x ^ y) as u16) >> (k as u16) == 0,
{
}

/// The bits in which two bytes differ, where their bits below `k` are the same.
proof fn lemma_same_low_bits(x: u8, y: u8, k: u32)
    by (bit_vector)
    requires
        1 <= k <= 8,
        0 < k ==> bit(x as u32, 0) == bit(y as u32, 0),
        1 < k ==> bit(x as u32, 1) == bit(y as u32, 1),
        2 < k ==> bit(x as u32, 2) == bit(y as u32, 2),
        3 < k ==> bit(x as u32, 3) == bit(y as u32, 3),
        4 < k ==> bit(x as u32, 4) == bit(y as u32, 4),
        5 < k ==> bit(x as u32, 5) == bit(y as u32, 5),
        6 < k ==> bit(x as u32, 6) == bit(y as u32, 6),
        7 < k ==> bit(x as u32, 7) == bit(y as u32, 7),
    ensures
        ((x ^ y) as u16) & (((1u16 << (k as u16)) - 1) as u16) == 0,
{
}

/// Bytes differ in no bit exactly when they are the same.
proof fn lemma_no_difference(x: u8, y: u8)
    by (bit_vector)
    ensures
        x ^ y == 0 <==> x == y,
{
}

/// Equal registers differ in no bit.
proof fn lemma_same_registers(s: u16, x: u16, y: u16)
    by (bit_vector)
    ensures
        s ^ s == 0,
        x == y ==> x ^ y == 0,
{
}

/// Two strings that differ only within sixteen bits do not leave registers from one start
/// at the same value.
#[verifier::rlimit(40)]
pub proof fn lemma_burst_moves_register(start: u16, a: Seq<u8>, b: Seq<u8>, at: int)
    requires
        burst(a, b, at),
    ensures
        register(start, a) != register(start, b),
{
    let e = differences(a, b);
    let j = at / 8;
    let h = at % 8;
    let k = (8 - h) as u16;
    assert forall|i: int| 0 <= i < e.len() && (i < j || j + 3 <= i) implies e[i] == 0 by {
        lemma_byte_from_bits(a, b, i);
        lemma_no_difference(a[i], b[i]);
    }
    assert((e[j] as u16) >> k == 0) by {
        lemma_byte_bit(a, j, 0);
        lemma_byte_bit(a, j, 1);
        lemma_byte_bit(a, j, 2);
        lemma_byte_bit(a, j, 3);
        lemma_byte_bit(a, j, 4);
        lemma_byte_bit(a, j, 5);
        lemma_byte_bit(a, j, 6);
        lemma_byte_bit(a, j, 7);
        lemma_byte_bit(b, j, 0);
        lemma_byte_bit(b, j, 1);
        lemma_byte_bit(b, j, 2);
        lemma_byte_bit(b, j, 3);
        lemma_byte_bit(b, j, 4);
        lemma_byte_bit(b, j, 5);
        lemma_byte_bit(b, j, 6);
        lemma_byte_bit(b, j, 7);
        lemma_same_high_bits(a[j], b[j], k as u32);
    }
    if j + 2 < e.len() {
        let m = j + 2;
        assert((e[m] as u16) & (((1u16 << k) - 1) as u16) == 0) by {
            lemma_byte_bit(a, m, 0);
            lemma_byte_bit(a, m, 1);
            lemma_byte_bit(a, m, 2);
            lemma_byte_bit(a, m, 3);
            lemma_byte_bit(a, m, 4);
            lemma_byte_bit(a, m, 5);
            lemma_byte_bit(a, m, 6);
            lemma_byte_bit(a, m, 7);
            lemma_byte_bit(b, m, 0);
            lemma_byte_bit(b, m, 1);
            lemma_byte_bit(b, m, 2);
            lemma_byte_bit(b, m, 3);
            lemma_byte_bit(b, m, 4);
            lemma_byte_bit(b, m, 5);
            lemma_byte_bit(b, m, 6);
            lemma_byte_bit(b, m, 7);
            lemma_same_low_bits(a[m], b[m], k as u32);
        }
    }
    if e[j] == 0 && e[j + 1] == 0 && (j + 2 < e.len() ==> e[j + 2] == 0) {
        assert forall|i: int| 0 <= i < a.len() implies a[i] == b[i] by {
            assert(e[i] == 0);
            lemma_no_difference(a[i], b[i]);
        }
        assert(a =~= b);
    }
    lemma_window_register(e, j, k);
    lemma_register_difference(start, start, a, b);
    lemma_same_registers(start, register(start, a), register(start, b));
}

/// A CRC-framed message that is changed only within sixteen consecutive bits no longer
/// ends in the CRC of what stands before: the change is noticed.
pub proof fn lemma_crc_notices_burst(d: Seq<u8>, changed: Seq<u8>, at: int)
    requires
        burst(d + be16(crc16(d)), changed, at),
    ensures
        be16(crc16(changed.take(changed.len() - 2))) != changed.skip(changed.len() - 2),
{
    let f = d + be16(crc16(d));
    let d2 = changed.take(changed.len() - 2);
    lemma_framed_register(d);
    lemma_burst_moves_register(0xFFFF, f, changed, at);
    if be16(crc16(d2)) == changed.skip(changed.len() - 2) {
        lemma_framed_register(d2);
        assert(changed =~= d2 + be16(crc16(d2)));
    }
}

} // verus!
