//! Bits in groups: bytes as indices of eleven bits, and back.

use vstd::prelude::*;

verus! {

/// Whether bit `j` of `v` is set, bit 0 being the lowest.
pub open spec fn bit(v: u32, j: u32) -> bool {
    (v >> j) & 1 == 1
}

/// The `k` lowest bits of `v`, the highest of them first.
pub open spec fn low_bits(v: u32, k: nat) -> Seq<bool> {
    Seq::new(k, |t: int| bit(v, (k - 1 - t) as u32))
}

/// The bits of a byte string, eight for each byte, the highest first.
pub open spec fn byte_bits(bytes: Seq<u8>) -> Seq<bool> {
    Seq::new(8 * bytes.len(), |t: int| bit(bytes[t / 8] as u32, (7 - t % 8) as u32))
}

/// The bits of a list of word indices, eleven for each index, the highest first.
pub open spec fn index_bits(ix: Seq<u16>) -> Seq<bool> {
    Seq::new(11 * ix.len(), |t: int| bit(ix[t / 11] as u32, (10 - t % 11) as u32))
}

/// `n` bits that are not set.
pub open spec fn zeros(n: nat) -> Seq<bool> {
    Seq::new(n, |t: int| false)
}

/// Every index is below 2048.
pub open spec fn in_range(ix: Seq<u16>) -> bool {
    forall|i: int| 0 <= i < ix.len() ==> #[trigger] ix[i] < 2048
}

/// The indices `ix` spell the bytes `bytes`: their bits are the bits of the bytes,
/// followed by fewer than eleven bits of zero padding.
pub open spec fn packs(ix: Seq<u16>, bytes: Seq<u8>) -> bool {
    &&& in_range(ix)
    &&& 0 <= 11 * ix.len() - 8 * bytes.len() < 11
    &&& index_bits(ix) == byte_bits(bytes) + zeros((11 * ix.len() - 8 * bytes.len()) as nat)
}

/// The bytes `bytes` spell the indices `ix`: their bits are the bits of the indices,
/// followed by fewer than eight bits of zero padding.
pub open spec fn unpacks(bytes: Seq<u8>, ix: Seq<u16>) -> bool {
    &&& 0 <= 8 * bytes.len() - 11 * ix.len() < 8
    &&& byte_bits(bytes) == index_bits(ix) + zeros((8 * bytes.len() - 11 * ix.len()) as nat)
}

/// Bits of `(acc << w) | v`: the low `w` are those of `v`, the others those of `acc`.
proof fn lemma_push(acc: u32, k: u32, v: u32, w: u32, t: u32, d: u32)
    by (bit_vector)
    requires
        w == 8 || w == 11,
        k <= 10,
        acc >> k == 0,
        v >> w == 0,
        t < 22,
        t >= w ==> d + w == t,
    ensures
        bit((acc << w) | v, t) == (if t < w {
            bit(v, t)
        } else {
            bit(acc, d)
        }),
        ((acc << w) | v) >> ((k + w) as u32) == 0,
{
}

/// Bits of the `w` bits taken from `acc` above its `s` lowest, and of those `s` lowest.
proof fn lemma_pop(acc: u32, s: u32, w: u32, mask: u32, t: u32, u: u32)
    by (bit_vector)
    requires
        (w == 8 && mask == 0xff) || (w == 11 && mask == 0x7ff),
        s <= 10,
        t < 11,
        u == t + s,
    ensures
        t < w ==> bit((acc >> s) & mask, t) == bit(acc, u),
        (acc >> s) & mask <= mask,
        (1u32 << s) >= 1,
        t < s ==> bit(acc & (((1u32 << s) - 1) as u32), t) == bit(acc, t),
        (acc & (((1u32 << s) - 1) as u32)) >> s == 0,
{
}

/// Bits of the last group: the `k` bits left over, moved up to the top of `w` bits.
proof fn lemma_tail(acc: u32, k: u32, w: u32, mask: u32, sh: u32, t: u32, d: u32)
    by (bit_vector)
    requires
        (w == 8 && mask == 0xff) || (w == 11 && mask == 0x7ff),
        1 <= k < w,
        acc >> k == 0,
        sh + k == w,
        t < w,
        t >= sh ==> d + sh == t,
    ensures
        bit((acc << sh) & mask, t) == (if t >= sh {
            bit(acc, d)
        } else {
            false
        }),
        (acc << sh) & mask <= mask,
{
}

/// Numbers below `2^11` with the same eleven bits are the same, and zero has no bit set.
proof fn lemma_same_bits(a: u32, b: u32)
    by (bit_vector)
    requires
        a < 2048,
        b < 2048,
        bit(a, 0) == bit(b, 0),
        bit(a, 1) == bit(b, 1),
        bit(a, 2) == bit(b, 2),
        bit(a, 3) == bit(b, 3),
        bit(a, 4) == bit(b, 4),
        bit(a, 5) == bit(b, 5),
        bit(a, 6) == bit(b, 6),
        bit(a, 7) == bit(b, 7),
        bit(a, 8) == bit(b, 8),
        bit(a, 9) == bit(b, 9),
        bit(a, 10) == bit(b, 10),
    ensures
        a == b,
{
}

/// A number below `2^w` has nothing above its `w` lowest bits.
proof fn lemma_fits(v: u32, w: u32)
    by (bit_vector)
    requires
        (w == 8 && v < 256) || (w == 11 && v < 2048),
    ensures
        v >> w == 0,
        0u32 >> 0u32 == 0,
{
}

/// Packs bytes into indices of eleven bits, highest bit first, the last index filled up
/// with zero bits.
pub fn bytes_to_indices(bytes: &[u8]) -> (out: Vec<u16>)
    ensures
        packs(out@, bytes@),
        out@ == packing(bytes@),
{
    let mut out: Vec<u16> = Vec::new();
    let mut acc: u32 = 0;
    let mut acc_bits: u32 = 0;
    let mut i: usize = 0;
    proof {
        lemma_fits(0, 8);
    }
    while i < bytes.len()
        invariant
            i <= bytes@.len(),
            acc_bits <= 10,
            acc >> acc_bits == 0,
            in_range(out@),
            byte_bits(bytes@.take(i as int)) == index_bits(out@) + low_bits(acc, acc_bits as nat),
        decreases bytes@.len() - i,
    {
        let b = bytes[i] as u32;
        let ghost acc0 = acc;
        let ghost k0 = acc_bits;
        proof {
            lemma_fits(b, 8);
            lemma_push(acc0, k0, b, 8, 0, 0);
        }
        acc = (acc << 8) | b;
        acc_bits = acc_bits + 8;
        proof {
            let prev = bytes@.take(i as int);
            let next = bytes@.take(i + 1);
            assert(byte_bits(next) =~= byte_bits(prev) + low_bits(b, 8));
            let joint = low_bits(acc0, k0 as nat) + low_bits(b, 8);
            assert(low_bits(acc, acc_bits as nat) =~= joint) by {
                assert forall|t: int| 0 <= t < acc_bits implies low_bits(acc, acc_bits as nat)[t]
                    == joint[t] by {
                    let j = (acc_bits - 1 - t) as u32;
                    lemma_push(acc0, k0, b, 8, j, if j >= 8 {
                        (j - 8) as u32
                    } else {
                        0
                    });
                }
            }
        }
        while acc_bits >= 11
            invariant
                i < bytes@.len(),
                acc_bits <= 18,
                acc >> acc_bits == 0,
                in_range(out@),
                byte_bits(bytes@.take(i + 1)) == index_bits(out@) + low_bits(acc, acc_bits as nat),
            decreases acc_bits,
        {
            let shift = acc_bits - 11;
            let ghost acc1 = acc;
            let ghost k1 = acc_bits;
            proof {
                lemma_pop(acc1, shift, 11, 0x7ff, 0, shift);
            }
            let idx = ((acc >> shift) & 0x7ff) as u16;
            out.push(idx);
            acc = acc & ((1u32 << shift) - 1);
            acc_bits = shift;
            proof {
                assert(low_bits(acc1, k1 as nat) =~= low_bits(idx as u32, 11) + low_bits(
                    acc,
                    acc_bits as nat,
                )) by {
                    assert forall|t: int| 0 <= t < k1 implies low_bits(acc1, k1 as nat)[t] == (
                    low_bits(idx as u32, 11) + low_bits(acc, acc_bits as nat))[t] by {
                        let j = (k1 - 1 - t) as u32;
                        if t < 11 {
                            lemma_pop(acc1, shift, 11, 0x7ff, (11 - 1 - t) as u32, j);
                        } else {
                            lemma_pop(acc1, shift, 11, 0x7ff, j, (j + shift) as u32);
                        }
                    }
                }
            }
        }
        i += 1;
    }
    assert(bytes@.take(bytes@.len() as int) =~= bytes@);
    if acc_bits != 0 {
        let sh = 11 - acc_bits;
        let ghost before = out@;
        let ghost acc1 = acc;
        proof {
            lemma_tail(acc1, acc_bits, 11, 0x7ff, sh, 0, 0);
        }
        let idx = ((acc << sh) & 0x7ff) as u16;
        out.push(idx);
        proof {
            assert(index_bits(out@) =~= index_bits(before) + low_bits(idx as u32, 11));
            let padded = low_bits(acc1, acc_bits as nat) + zeros(sh as nat);
            assert(low_bits(idx as u32, 11) =~= padded) by {
                assert forall|t: int| 0 <= t < 11 implies low_bits(idx as u32, 11)[t]
                    == padded[t] by {
                    let j = (11 - 1 - t) as u32;
                    lemma_tail(acc1, acc_bits, 11, 0x7ff, sh, j, if j >= sh {
                        (j - sh) as u32
                    } else {
                        0
                    });
                }
            }
            assert(index_bits(out@) =~= byte_bits(bytes@) + zeros(sh as nat));
        }
    }
    proof {
        lemma_packs_exist(bytes@);
        lemma_packs_unique(out@, packing(bytes@), bytes@);
    }
    out
}

/// Unpacks indices of eleven bits into bytes, highest bit first, the last byte filled up
/// with zero bits.
pub fn indices_to_bytes(ix: &[u16]) -> (out: Vec<u8>)
    requires
        in_range(ix@),
    ensures
        unpacks(out@, ix@),
        out@ == unpacking(ix@),
{
    let mut out: Vec<u8> = Vec::new();
    let mut acc: u32 = 0;
    let mut acc_bits: u32 = 0;
    let mut i: usize = 0;
    proof {
        lemma_fits(0, 8);
    }
    while i < ix.len()
        invariant
            i <= ix@.len(),
            in_range(ix@),
            acc_bits <= 7,
            acc >> acc_bits == 0,
            index_bits(ix@.take(i as int)) == byte_bits(out@) + low_bits(acc, acc_bits as nat),
        decreases ix@.len() - i,
    {
        let v = ix[i] as u32;
        let ghost acc0 = acc;
        let ghost k0 = acc_bits;
        proof {
            lemma_fits(v, 11);
            lemma_push(acc0, k0, v, 11, 0, 0);
        }
        acc = (acc << 11) | v;
        acc_bits = acc_bits + 11;
        proof {
            let prev = ix@.take(i as int);
            let next = ix@.take(i + 1);
            assert(index_bits(next) =~= index_bits(prev) + low_bits(v, 11));
            let joint = low_bits(acc0, k0 as nat) + low_bits(v, 11);
            assert(low_bits(acc, acc_bits as nat) =~= joint) by {
                assert forall|t: int| 0 <= t < acc_bits implies low_bits(acc, acc_bits as nat)[t]
                    == joint[t] by {
                    let j = (acc_bits - 1 - t) as u32;
                    lemma_push(acc0, k0, v, 11, j, if j >= 11 {
                        (j - 11) as u32
                    } else {
                        0
                    });
                }
            }
        }
        while acc_bits >= 8
            invariant
                i < ix@.len(),
                acc_bits <= 18,
                acc >> acc_bits == 0,
                index_bits(ix@.take(i + 1)) == byte_bits(out@) + low_bits(acc, acc_bits as nat),
            decreases acc_bits,
        {
            let shift = acc_bits - 8;
            let ghost acc1 = acc;
            let ghost k1 = acc_bits;
            proof {
                lemma_pop(acc1, shift, 8, 0xff, 0, shift);
            }
            let byte = ((acc >> shift) & 0xff) as u8;
            out.push(byte);
            acc = acc & ((1u32 << shift) - 1);
            acc_bits = shift;
            proof {
                assert(low_bits(acc1, k1 as nat) =~= low_bits(byte as u32, 8) + low_bits(
                    acc,
                    acc_bits as nat,
                )) by {
                    assert forall|t: int| 0 <= t < k1 implies low_bits(acc1, k1 as nat)[t] == (
                    low_bits(byte as u32, 8) + low_bits(acc, acc_bits as nat))[t] by {
                        let j = (k1 - 1 - t) as u32;
                        if t < 8 {
                            lemma_pop(acc1, shift, 8, 0xff, (8 - 1 - t) as u32, j);
                        } else {
                            lemma_pop(acc1, shift, 8, 0xff, j, (j + shift) as u32);
                        }
                    }
                }
            }
        }
        i += 1;
    }
    assert(ix@.take(ix@.len() as int) =~= ix@);
    if acc_bits != 0 {
        let sh = 8 - acc_bits;
        let ghost before = out@;
        let ghost acc1 = acc;
        let byte = ((acc << sh) & 0xff) as u8;
        out.push(byte);
        proof {
            assert(byte_bits(out@) =~= byte_bits(before) + low_bits(byte as u32, 8));
            let padded = low_bits(acc1, acc_bits as nat) + zeros(sh as nat);
            assert(low_bits(byte as u32, 8) =~= padded) by {
                assert forall|t: int| 0 <= t < 8 implies low_bits(byte as u32, 8)[t]
                    == padded[t] by {
                    let j = (8 - 1 - t) as u32;
                    lemma_tail(acc1, acc_bits, 8, 0xff, sh, j, if j >= sh {
                        (j - sh) as u32
                    } else {
                        0
                    });
                }
            }
            assert(byte_bits(out@) =~= index_bits(ix@) + zeros(sh as nat));
        }
    }
    proof {
        lemma_unpacks_exist(ix@);
        lemma_unpacks_unique(out@, unpacking(ix@), ix@);
    }
    out
}

/// Where bit `r` of byte `j` stands in the bits of a byte string.
pub proof fn lemma_byte_bit(x: Seq<u8>, j: int, r: int)
    requires
        0 <= j < x.len(),
        0 <= r < 8,
    ensures
        byte_bits(x)[8 * j + 7 - r] == bit(x[j] as u32, r as u32),
{
}

/// Where bit `r` of index `j` stands in the bits of a list of indices.
proof fn lemma_index_bit(x: Seq<u16>, j: int, r: int)
    requires
        0 <= j < x.len(),
        0 <= r < 11,
    ensures
        index_bits(x)[11 * j + 10 - r] == bit(x[j] as u32, r as u32),
{
}

/// A byte has no bit set above its eight.
proof fn lemma_high_bits_clear(a: u32)
    by (bit_vector)
    requires
        a < 256,
    ensures
        !bit(a, 8),
        !bit(a, 9),
        !bit(a, 10),
{
}

/// Bytes with the same bits are the same.
pub proof fn lemma_byte_from_bits(x: Seq<u8>, y: Seq<u8>, j: int)
    requires
        0 <= j < x.len(),
        j < y.len(),
        forall|t: int| 8 * j <= t < 8 * j + 8 ==> byte_bits(x)[t] == byte_bits(y)[t],
    ensures
        x[j] == y[j],
{
    lemma_byte_bit(x, j, 0);
    lemma_byte_bit(x, j, 1);
    lemma_byte_bit(x, j, 2);
    lemma_byte_bit(x, j, 3);
    lemma_byte_bit(x, j, 4);
    lemma_byte_bit(x, j, 5);
    lemma_byte_bit(x, j, 6);
    lemma_byte_bit(x, j, 7);
    lemma_high_bits_clear(x[j] as u32);
    lemma_high_bits_clear(y[j] as u32);
    lemma_same_bits(x[j] as u32, y[j] as u32);
}

/// Indices below 2048 with the same bits are the same.
pub proof fn lemma_index_from_bits(x: Seq<u16>, y: Seq<u16>, j: int)
    requires
        0 <= j < x.len(),
        j < y.len(),
        in_range(x),
        in_range(y),
        forall|t: int| 11 * j <= t < 11 * j + 11 ==> index_bits(x)[t] == index_bits(y)[t],
    ensures
        x[j] == y[j],
{
    lemma_index_bit(x, j, 0);
    lemma_index_bit(x, j, 1);
    lemma_index_bit(x, j, 2);
    lemma_index_bit(x, j, 3);
    lemma_index_bit(x, j, 4);
    lemma_index_bit(x, j, 5);
    lemma_index_bit(x, j, 6);
    lemma_index_bit(x, j, 7);
    lemma_index_bit(x, j, 8);
    lemma_index_bit(x, j, 9);
    lemma_index_bit(x, j, 10);
    lemma_same_bits(x[j] as u32, y[j] as u32);
}

/// Only one list of indices spells given bytes.
pub proof fn lemma_packs_unique(x: Seq<u16>, y: Seq<u16>, bytes: Seq<u8>)
    requires
        packs(x, bytes),
        packs(y, bytes),
    ensures
        x == y,
{
    assert forall|j: int| 0 <= j < x.len() implies x[j] == y[j] by {
        lemma_index_from_bits(x, y, j);
    }
}

/// Only one byte string spells given indices.
pub proof fn lemma_unpacks_unique(x: Seq<u8>, y: Seq<u8>, ix: Seq<u16>)
    requires
        unpacks(x, ix),
        unpacks(y, ix),
    ensures
        x == y,
{
    assert forall|j: int| 0 <= j < x.len() implies x[j] == y[j] by {
        lemma_byte_from_bits(x, y, j);
    }
}

/// Unpacking what was packed gives the bytes back, followed at most by bytes of padding.
pub proof fn lemma_unpack_of_pack(bytes: Seq<u8>, ix: Seq<u16>, out: Seq<u8>)
    requires
        packs(ix, bytes),
        unpacks(out, ix),
    ensures
        out.len() >= bytes.len(),
        out.take(bytes.len() as int) == bytes,
{
    let head = out.take(bytes.len() as int);
    assert forall|j: int| 0 <= j < bytes.len() implies head[j] == bytes[j] by {
        lemma_byte_from_bits(out, bytes, j);
    }
}

/// One for a bit that is set, zero for one that is not.
pub open spec fn one_if(b: bool) -> u32 {
    if b {
        1
    } else {
        0
    }
}

/// The number that eleven bits spell, the highest first.
pub open spec fn group(
    b0: bool,
    b1: bool,
    b2: bool,
    b3: bool,
    b4: bool,
    b5: bool,
    b6: bool,
    b7: bool,
    b8: bool,
    b9: bool,
    b10: bool,
) -> u32 {
    (one_if(b0) << 10u32) | (one_if(b1) << 9u32) | (one_if(b2) << 8u32) | (one_if(b3) << 7u32) | (
    one_if(b4) << 6u32) | (one_if(b5) << 5u32) | (one_if(b6) << 4u32) | (one_if(b7) << 3u32) | (
    one_if(b8) << 2u32) | (one_if(b9) << 1u32) | one_if(b10)
}

/// The bits of a byte string, filled up with zero bits to a multiple of eleven.
pub open spec fn padded_bits(bytes: Seq<u8>) -> Seq<bool> {
    byte_bits(bytes) + zeros((11 * ((8 * bytes.len() + 10) / 11) - 8 * bytes.len()) as nat)
}

/// The indices that spell `bytes`, one for each eleven of its bits.
#[verifier::opaque]
pub open spec fn packing(bytes: Seq<u8>) -> Seq<u16> {
    Seq::new(
        ((8 * bytes.len() + 10) / 11) as nat,
        |i: int|
            {
                let s = padded_bits(bytes);
                group(
                    s[11 * i],
                    s[11 * i + 1],
                    s[11 * i + 2],
                    s[11 * i + 3],
                    s[11 * i + 4],
                    s[11 * i + 5],
                    s[11 * i + 6],
                    s[11 * i + 7],
                    s[11 * i + 8],
                    s[11 * i + 9],
                    s[11 * i + 10],
                ) as u16
            },
    )
}

/// The number that eleven bits spell has those bits, and no others.
proof fn lemma_group_bits(
    b0: bool,
    b1: bool,
    b2: bool,
    b3: bool,
    b4: bool,
    b5: bool,
    b6: bool,
    b7: bool,
    b8: bool,
    b9: bool,
    b10: bool,
)
    by (bit_vector)
    ensures
        group(b0, b1, b2, b3, b4, b5, b6, b7, b8, b9, b10) < 2048,
        bit(group(b0, b1, b2, b3, b4, b5, b6, b7, b8, b9, b10), 10) == b0,
        bit(group(b0, b1, b2, b3, b4, b5, b6, b7, b8, b9, b10), 9) == b1,
        bit(group(b0, b1, b2, b3, b4, b5, b6, b7, b8, b9, b10), 8) == b2,
        bit(group(b0, b1, b2, b3, b4, b5, b6, b7, b8, b9, b10), 7) == b3,
        bit(group(b0, b1, b2, b3, b4, b5, b6, b7, b8, b9, b10), 6) == b4,
        bit(group(b0, b1, b2, b3, b4, b5, b6, b7, b8, b9, b10), 5) == b5,
        bit(group(b0, b1, b2, b3, b4, b5, b6, b7, b8, b9, b10), 4) == b6,
        bit(group(b0, b1, b2, b3, b4, b5, b6, b7, b8, b9, b10), 3) == b7,
        bit(group(b0, b1, b2, b3, b4, b5, b6, b7, b8, b9, b10), 2) == b8,
        bit(group(b0, b1, b2, b3, b4, b5, b6, b7, b8, b9, b10), 1) == b9,
        bit(group(b0, b1, b2, b3, b4, b5, b6, b7, b8, b9, b10), 0) == b10,
{
}

/// The bits of the `i`-th index of the packing are the `i`-th eleven bits.
proof fn lemma_packing_bit(bytes: Seq<u8>, i: int, k: int)
    requires
        0 <= i < packing(bytes).len(),
        0 <= k < 11,
    ensures
        packing(bytes)[i] < 2048,
        bit(packing(bytes)[i] as u32, (10 - k) as u32) == padded_bits(bytes)[11 * i + k],
{
    reveal(packing);
    let s = padded_bits(bytes);
    lemma_group_bits(
        s[11 * i],
        s[11 * i + 1],
        s[11 * i + 2],
        s[11 * i + 3],
        s[11 * i + 4],
        s[11 * i + 5],
        s[11 * i + 6],
        s[11 * i + 7],
        s[11 * i + 8],
        s[11 * i + 9],
        s[11 * i + 10],
    );
}

/// Every byte string has indices that spell it.
pub proof fn lemma_packs_exist(bytes: Seq<u8>)
    ensures
        packs(packing(bytes), bytes),
{
    assert(packing(bytes).len() == (8 * bytes.len() + 10) / 11) by {
        reveal(packing);
    }
    let ix = packing(bytes);
    let s = padded_bits(bytes);
    assert forall|i: int| 0 <= i < ix.len() implies #[trigger] ix[i] < 2048 by {
        lemma_packing_bit(bytes, i, 0);
    }
    assert forall|t: int| 0 <= t < 11 * ix.len() implies index_bits(ix)[t] == s[t] by {
        lemma_packing_bit(bytes, t / 11, t % 11);
    }
    assert(index_bits(ix) =~= s);
}

/// The number that eight bits spell, the highest first.
pub open spec fn octet(
    b0: bool,
    b1: bool,
    b2: bool,
    b3: bool,
    b4: bool,
    b5: bool,
    b6: bool,
    b7: bool,
) -> u32 {
    (one_if(b0) << 7u32) | (one_if(b1) << 6u32) | (one_if(b2) << 5u32) | (one_if(b3) << 4u32) | (
    one_if(b4) << 3u32) | (one_if(b5) << 2u32) | (one_if(b6) << 1u32) | one_if(b7)
}

/// The bits of a list of indices, filled up with zero bits to a multiple of eight.
pub open spec fn padded_index_bits(ix: Seq<u16>) -> Seq<bool> {
    index_bits(ix) + zeros((8 * ((11 * ix.len() + 7) / 8) - 11 * ix.len()) as nat)
}

/// The bytes that spell the indices `ix`, one for each eight of their bits.
#[verifier::opaque]
pub open spec fn unpacking(ix: Seq<u16>) -> Seq<u8> {
    Seq::new(
        ((11 * ix.len() + 7) / 8) as nat,
        |t: int|
            {
                let s = padded_index_bits(ix);
                octet(
                    s[8 * t],
                    s[8 * t + 1],
                    s[8 * t + 2],
                    s[8 * t + 3],
                    s[8 * t + 4],
                    s[8 * t + 5],
                    s[8 * t + 6],
                    s[8 * t + 7],
                ) as u8
            },
    )
}

/// The number that eight bits spell has those bits, and no others.
proof fn lemma_octet_bits(
    b0: bool,
    b1: bool,
    b2: bool,
    b3: bool,
    b4: bool,
    b5: bool,
    b6: bool,
    b7: bool,
)
    by (bit_vector)
    ensures
        octet(b0, b1, b2, b3, b4, b5, b6, b7) < 256,
        bit(octet(b0, b1, b2, b3, b4, b5, b6, b7), 7) == b0,
        bit(octet(b0, b1, b2, b3, b4, b5, b6, b7), 6) == b1,
        bit(octet(b0, b1, b2, b3, b4, b5, b6, b7), 5) == b2,
        bit(octet(b0, b1, b2, b3, b4, b5, b6, b7), 4) == b3,
        bit(octet(b0, b1, b2, b3, b4, b5, b6, b7), 3) == b4,
        bit(octet(b0, b1, b2, b3, b4, b5, b6, b7), 2) == b5,
        bit(octet(b0, b1, b2, b3, b4, b5, b6, b7), 1) == b6,
        bit(octet(b0, b1, b2, b3, b4, b5, b6, b7), 0) == b7,
{
}

/// The bits of the `t`-th byte of the unpacking are the `t`-th eight bits.
proof fn lemma_unpacking_bit(ix: Seq<u16>, t: int, k: int)
    requires
        0 <= t < unpacking(ix).len(),
        0 <= k < 8,
    ensures
        bit(unpacking(ix)[t] as u32, (7 - k) as u32) == padded_index_bits(ix)[8 * t + k],
{
    reveal(unpacking);
    let s = padded_index_bits(ix);
    lemma_octet_bits(
        s[8 * t],
        s[8 * t + 1],
        s[8 * t + 2],
        s[8 * t + 3],
        s[8 * t + 4],
        s[8 * t + 5],
        s[8 * t + 6],
        s[8 * t + 7],
    );
}

/// Every list of indices has bytes that spell it.
pub proof fn lemma_unpacks_exist(ix: Seq<u16>)
    ensures
        unpacks(unpacking(ix), ix),
{
    assert(unpacking(ix).len() == (11 * ix.len() + 7) / 8) by {
        reveal(unpacking);
    }
    let bytes = unpacking(ix);
    let s = padded_index_bits(ix);
    assert forall|t: int| 0 <= t < 8 * bytes.len() implies byte_bits(bytes)[t] == s[t] by {
        lemma_unpacking_bit(ix, t / 8, t % 8);
    }
    assert(byte_bits(bytes) =~= s);
}

/// The unpacking of the packing of a byte string starts with the byte string.
pub proof fn lemma_unpacking_of_packing(bytes: Seq<u8>)
    ensures
        in_range(packing(bytes)),
        packing(bytes).len() == (8 * bytes.len() + 10) / 11,
        unpacking(packing(bytes)).len() >= bytes.len(),
        unpacking(packing(bytes)).take(bytes.len() as int) == bytes,
{
    lemma_packs_exist(bytes);
    lemma_unpacks_exist(packing(bytes));
    lemma_unpack_of_pack(bytes, packing(bytes), unpacking(packing(bytes)));
}

/// The bytes that two lists of indices spell, where the lists differ in the index `i`
/// alone: they are as many, they differ in no bit outside that index's eleven, and they
/// differ in one of those.
#[verifier::rlimit(40)]
pub proof fn lemma_changed_index(x: Seq<u16>, y: Seq<u16>, i: int)
    requires
        in_range(x),
        in_range(y),
        x.len() == y.len(),
        0 <= i < x.len(),
        forall|j: int| 0 <= j < x.len() && j != i ==> x[j] == y[j],
        x[i] != y[i],
    ensures
        unpacking(x).len() == unpacking(y).len(),
        forall|t: int|
            0 <= t < 8 * unpacking(x).len() && !(11 * i <= t < 11 * i + 11) ==> byte_bits(
                unpacking(x),
            )[t] == byte_bits(unpacking(y))[t],
        exists|t: int|
            11 * i <= t < 11 * i + 11 && byte_bits(unpacking(x))[t] != byte_bits(unpacking(y))[t],
{
    lemma_unpacks_exist(x);
    lemma_unpacks_exist(y);
    let a = unpacking(x);
    let b = unpacking(y);
    let pad = (8 * a.len() - 11 * x.len()) as nat;
    assert(byte_bits(a) == index_bits(x) + zeros(pad));
    assert(byte_bits(b) == index_bits(y) + zeros(pad));
    assert forall|t: int| 0 <= t < 8 * a.len() && !(11 * i <= t < 11 * i + 11) implies byte_bits(
        a,
    )[t] == byte_bits(b)[t] by {
        if t < 11 * x.len() {
            assert(x[t / 11] == y[t / 11]);
            assert(index_bits(x)[t] == index_bits(y)[t]);
        }
    }
    if forall|t: int| 11 * i <= t < 11 * i + 11 ==> byte_bits(a)[t] == byte_bits(b)[t] {
        assert forall|t: int| 11 * i <= t < 11 * i + 11 implies index_bits(x)[t] == index_bits(
            y,
        )[t] by {
            assert(byte_bits(a)[t] == byte_bits(b)[t]);
            assert((index_bits(x) + zeros(pad))[t] == index_bits(x)[t]);
            assert((index_bits(y) + zeros(pad))[t] == index_bits(y)[t]);
        }
        lemma_index_from_bits(x, y, i);
    }
}

} // verus!
