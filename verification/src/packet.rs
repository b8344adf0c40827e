//! The share packet and its binary form.

use crate::crypto::{option_view, CryptoParams, ParamsView};
use crate::error::{invalid_packet, outcome, outcome_view, CoreResult, Failure};
use crate::sss::{RawShare, SetId, ShareView};
use vstd::prelude::*;

verus! {

/// One share as it travels: the raw share and, for an encrypted secret, the parameters
/// that decryption needs.
#[derive(Clone, Debug, PartialEq, Eq)]
pub struct SharePacket {
    pub set_id: SetId,
    pub k: u8,
    pub n: u8,
    pub x: u8,
    pub payload: Vec<u8>,
    pub crypto_params: Option<CryptoParams>,
}

/// A packet as a mathematical value.
pub struct PacketView {
    pub set_id: Seq<u8>,
    pub k: u8,
    pub n: u8,
    pub x: u8,
    pub payload: Seq<u8>,
    pub crypto_params: Option<ParamsView>,
}

impl View for SharePacket {
    type V = PacketView;

    open spec fn view(&self) -> PacketView {
        PacketView {
            set_id: self.set_id.0@,
            k: self.k,
            n: self.n,
            x: self.x,
            payload: self.payload@,
            crypto_params: option_view(self.crypto_params),
        }
    }
}

/// The packets of a sequence as mathematical values.
pub open spec fn packet_views(packets: Seq<SharePacket>) -> Seq<PacketView> {
    Seq::new(packets.len(), |j: int| packets[j]@)
}

/// The raw share inside a packet.
pub open spec fn share_of(p: PacketView) -> ShareView {
    ShareView { set_id: p.set_id, k: p.k, n: p.n, x: p.x, y: p.payload }
}

/// The raw shares inside the packets.
pub open spec fn shares_of(ps: Seq<PacketView>) -> Seq<ShareView> {
    Seq::new(ps.len(), |j: int| share_of(ps[j]))
}

/// The four bytes `SMN1` that every packet starts with.
pub open spec fn magic() -> Seq<u8> {
    seq![0x53u8, 0x4du8, 0x4eu8, 0x31u8]
}

/// The four bytes of `v`, highest first.
pub open spec fn be32(v: u32) -> Seq<u8> {
    seq![
        (v / 0x100_0000) as u8,
        ((v / 0x1_0000) % 0x100) as u8,
        ((v / 0x100) % 0x100) as u8,
        (v % 0x100) as u8,
    ]
}

/// The number that four bytes spell, highest first.
pub open spec fn be32_value(b: Seq<u8>) -> u32 {
    (b[0] as int * 0x100_0000 + b[1] as int * 0x1_0000 + b[2] as int * 0x100 + b[3] as int) as u32
}

/// The block of crypto parameters: salt, nonce, and the three costs.
pub open spec fn params_block(p: ParamsView) -> Seq<u8> {
    p.salt + p.nonce + be32(p.mem_cost_kib) + be32(p.time_cost) + be32(p.parallelism)
}

/// The bytes of a packet before the length field: magic, version 2, flags, `k`, `n`, `x`,
/// the set identifier, and the crypto parameters if there are any.
pub open spec fn header(p: PacketView) -> Seq<u8> {
    magic() + seq![2u8, if p.crypto_params is Some { 1u8 } else { 0u8 }, p.k, p.n, p.x] + p.set_id
        + (match p.crypto_params {
        Some(c) => params_block(c),
        None => Seq::empty(),
    })
}

/// The binary form of a packet, or why it has none.
pub open spec fn encode_spec(p: PacketView) -> Result<Seq<u8>, Failure> {
    if p.crypto_params is Some && (p.crypto_params->0.mem_cost_kib == 0
        || p.crypto_params->0.time_cost == 0 || p.crypto_params->0.parallelism == 0) {
        Err(Failure::InvalidPacket("invalid crypto params"@))
    } else if p.payload.len() > u32::MAX {
        Err(Failure::InvalidPacket("payload too large"@))
    } else {
        Ok(header(p) + be32(p.payload.len() as u32) + p.payload)
    }
}

/// The total length that a packet announces, read from a length field at `offset`.
pub open spec fn length_at(b: Seq<u8>, offset: int) -> Result<usize, Failure> {
    if b.len() < offset + 4 {
        Err(Failure::InvalidPacket("too short"@))
    } else if offset + 4 + be32_value(b.subrange(offset, offset + 4)) > usize::MAX {
        Err(Failure::InvalidPacket("length overflow"@))
    } else {
        Ok((offset + 4 + be32_value(b.subrange(offset, offset + 4))) as usize)
    }
}

/// Where the length field of a packet with this version and these flags stands.
pub open spec fn length_offset(version: u8, flags: u8) -> int {
    if version == 2 && flags & 1 != 0 {
        65
    } else {
        25
    }
}

/// The total length of the packet that starts `b`, from its header alone.
pub open spec fn total_len_spec(b: Seq<u8>) -> Result<usize, Failure> {
    if b.len() < 29 {
        Err(Failure::InvalidPacket("too short"@))
    } else if b.subrange(0, 4) != magic() {
        Err(Failure::InvalidPacket("bad magic"@))
    } else if b[4] == 1 && b[5] & 1 != 0 {
        Err(Failure::InvalidPacket("encrypted flag on version 1"@))
    } else if b[4] == 1 || b[4] == 2 {
        length_at(b, length_offset(b[4], b[5]))
    } else {
        Err(Failure::InvalidPacket("unsupported version"@))
    }
}

/// The crypto parameters in the block that starts at byte 25.
pub open spec fn params_at(b: Seq<u8>) -> ParamsView {
    ParamsView {
        salt: b.subrange(25, 41),
        nonce: b.subrange(41, 53),
        mem_cost_kib: be32_value(b.subrange(53, 57)),
        time_cost: be32_value(b.subrange(57, 61)),
        parallelism: be32_value(b.subrange(61, 65)),
    }
}

/// The packet that the bytes `b` spell, or why they spell none.
pub open spec fn decode_spec(b: Seq<u8>) -> Result<PacketView, Failure> {
    match total_len_spec(b) {
        Err(f) => Err(f),
        Ok(total) => if b.len() != total {
            Err(Failure::InvalidPacket("length mismatch"@))
        } else {
            Ok(
                PacketView {
                    set_id: b.subrange(9, 25),
                    k: b[6],
                    n: b[7],
                    x: b[8],
                    payload: b.subrange(length_offset(b[4], b[5]) + 4, b.len() as int),
                    crypto_params: if length_offset(b[4], b[5]) == 65 {
                        Some(params_at(b))
                    } else {
                        None
                    },
                },
            )
        },
    }
}

/// Reading back what `be32` wrote gives the number.
pub proof fn lemma_be32_round_trip(v: u32)
    ensures
        be32(v).len() == 4,
        be32_value(be32(v)) == v,
{
}

/// Appends the bytes `src` to `out`.
pub fn push_all(out: &mut Vec<u8>, src: &[u8])
    ensures
        final(out)@ == old(out)@ + src@,
{
    let mut i: usize = 0;
    while i < src.len()
        invariant
            i <= src@.len(),
            out@ == old(out)@ + src@.take(i as int),
        decreases src@.len() - i,
    {
        out.push(src[i]);
        i += 1;
    }
}

/// Appends the four bytes of `v`, highest first, to `out`.
pub fn push_be32(out: &mut Vec<u8>, v: u32)
    ensures
        final(out)@ == old(out)@ + be32(v),
{
    out.push((v / 0x100_0000) as u8);
    out.push(((v / 0x1_0000) % 0x100) as u8);
    out.push(((v / 0x100) % 0x100) as u8);
    out.push((v % 0x100) as u8);
}

/// The number that the four bytes of `b` from `at` on spell, highest first.
pub fn read_be32(b: &[u8], at: usize) -> (v: u32)
    requires
        at + 4 <= b@.len(),
    ensures
        v == be32_value(b@.subrange(at as int, at + 4)),
{
    (b[at] as u32) * 0x100_0000 + (b[at + 1] as u32) * 0x1_0000 + (b[at + 2] as u32) * 0x100 + (
    b[at + 3] as u32)
}

/// The sixteen bytes of `b` from `at` on.
fn read_16(b: &[u8], at: usize) -> (r: [u8; 16])
    requires
        at + 16 <= b@.len(),
    ensures
        r@ == b@.subrange(at as int, at + 16),
{
    let mut r: [u8; 16] = [0u8; 16];
    let total = b.len();
    let mut i: usize = 0;
    while i < 16
        invariant
            i <= 16,
            total == b@.len(),
            at + 16 <= b@.len(),
            forall|t: int| 0 <= t < i ==> r@[t] == b@[at + t],
        decreases 16 - i,
    {
        r[i] = b[at + i];
        i += 1;
    }
    r
}

/// The twelve bytes of `b` from `at` on.
fn read_12(b: &[u8], at: usize) -> (r: [u8; 12])
    requires
        at + 12 <= b@.len(),
    ensures
        r@ == b@.subrange(at as int, at + 12),
{
    let mut r: [u8; 12] = [0u8; 12];
    let total = b.len();
    let mut i: usize = 0;
    while i < 12
        invariant
            i <= 12,
            total == b@.len(),
            at + 12 <= b@.len(),
            forall|t: int| 0 <= t < i ==> r@[t] == b@[at + t],
        decreases 12 - i,
    {
        r[i] = b[at + i];
        i += 1;
    }
    r
}

/// A copy of the bytes `b[from .. to]`.
pub fn copy_range(b: &[u8], from: usize, to: usize) -> (r: Vec<u8>)
    requires
        from <= to <= b@.len(),
    ensures
        r@ == b@.subrange(from as int, to as int),
{
    let mut r: Vec<u8> = Vec::new();
    let mut i: usize = from;
    while i < to
        invariant
            from <= i <= to <= b@.len(),
            r@ == b@.subrange(from as int, i as int),
        decreases to - i,
    {
        r.push(b[i]);
        i += 1;
    }
    r
}

impl SharePacket {
    /// The packet of a raw share, without crypto parameters.
    pub fn from_raw_share(share: RawShare) -> (p: SharePacket)
        ensures
            share_of(p@) == share@,
            p.crypto_params is None,
    {
        SharePacket {
            set_id: share.set_id,
            k: share.k,
            n: share.n,
            x: share.x,
            payload: share.y,
            crypto_params: None,
        }
    }

    /// The same packet with the given crypto parameters.
    pub fn with_crypto_params(self, params: Option<CryptoParams>) -> (p: SharePacket)
        ensures
            share_of(p@) == share_of(self@),
            p.crypto_params == params,
    {
        let mut p = self;
        p.crypto_params = params;
        p
    }

    /// Whether the packet belongs to an encrypted secret.
    pub fn is_encrypted(&self) -> (b: bool)
        ensures
            b == self.crypto_params is Some,
    {
        self.crypto_params.is_some()
    }

    /// The raw share inside the packet.
    pub fn to_raw_share(&self) -> (r: CoreResult<RawShare>)
        ensures
            outcome_view(r) == Ok::<ShareView, Failure>(share_of(self@)),
    {
        let y = copy_range(self.payload.as_slice(), 0, self.payload.len());
        assert(y@ =~= self.payload@);
        Ok(RawShare { set_id: self.set_id, k: self.k, n: self.n, x: self.x, y })
    }

    /// The binary form of the packet, in the current version of the format.
    ///
    /// Fails for crypto parameters with a cost of zero and for a payload of more than
    /// `u32::MAX` bytes.
    pub fn encode_binary(&self) -> (r: CoreResult<Vec<u8>>)
        ensures
            outcome_view(r) == encode_spec(self@),
    {
        let flags: u8 = match self.crypto_params {
            Some(params) => {
                if params.mem_cost_kib == 0 || params.time_cost == 0 || params.parallelism == 0 {
                    return Err(invalid_packet("invalid crypto params"));
                }
                1
            },
            None => 0,
        };
        if self.payload.len() > u32::MAX as usize {
            return Err(invalid_packet("payload too large"));
        }
        let payload_len = self.payload.len() as u32;
        let mut out: Vec<u8> = Vec::with_capacity(self.payload.len());
        out.push(0x53);
        out.push(0x4d);
        out.push(0x4e);
        out.push(0x31);
        out.push(2);
        out.push(flags);
        out.push(self.k);
        out.push(self.n);
        out.push(self.x);
        assert(out@ =~= magic() + seq![2u8, flags, self.k, self.n, self.x]);
        push_all(&mut out, self.set_id.0.as_slice());
        match self.crypto_params {
            Some(params) => {
                push_all(&mut out, params.salt.as_slice());
                push_all(&mut out, params.nonce.as_slice());
                push_be32(&mut out, params.mem_cost_kib);
                push_be32(&mut out, params.time_cost);
                push_be32(&mut out, params.parallelism);
                assert(out@ =~= header(self@));
            },
            None => {
            },
        }
        push_be32(&mut out, payload_len);
        push_all(&mut out, self.payload.as_slice());
        Ok(out)
    }

    /// Reads a packet from its binary form, in either version of the format.
    ///
    /// Fails where `binary_total_len` fails, and when the bytes are not exactly as many
    /// as the header announces.
    pub fn decode_binary(bytes: &[u8]) -> (r: CoreResult<SharePacket>)
        ensures
            outcome_view(r) == decode_spec(bytes@),
    {
        let total_len = match binary_total_len(bytes) {
            Ok(t) => t,
            Err(e) => {
                return Err(e);
            },
        };
        if bytes.len() != total_len {
            return Err(invalid_packet("length mismatch"));
        }
        let version = bytes[4];
        let flags = bytes[5];
        let k = bytes[6];
        let n = bytes[7];
        let x = bytes[8];
        let set_id = read_16(bytes, 9);
        let encrypted = version == 2 && (flags & 1) != 0;
        let crypto_params = if encrypted {
            Some(
                CryptoParams {
                    salt: read_16(bytes, 25),
                    nonce: read_12(bytes, 41),
                    mem_cost_kib: read_be32(bytes, 53),
                    time_cost: read_be32(bytes, 57),
                    parallelism: read_be32(bytes, 61),
                },
            )
        } else {
            None
        };
        let payload_start: usize = if encrypted {
            69
        } else {
            29
        };
        let payload = copy_range(bytes, payload_start, bytes.len());
        Ok(SharePacket { set_id: SetId(set_id), k, n, x, payload, crypto_params })
    }
}

/// The total length of the packet whose first bytes are `bytes`, read from its header.
///
/// Fails for fewer bytes than the shortest header with its length field, a wrong magic,
/// a version other than 1 and 2, the encrypted flag on version 1, a header cut short
/// before the end of its length field, and a length that does not fit `usize`.
pub fn binary_total_len(bytes: &[u8]) -> (r: CoreResult<usize>)
    ensures
        outcome(r) == total_len_spec(bytes@),
{
    if bytes.len() < 29 {
        return Err(invalid_packet("too short"));
    }
    if bytes[0] != 0x53 || bytes[1] != 0x4d || bytes[2] != 0x4e || bytes[3] != 0x31 {
        return Err(invalid_packet("bad magic"));
    }
    assert(bytes@.subrange(0, 4) =~= magic());
    let version = bytes[4];
    let flags = bytes[5];
    let offset: usize = if version == 1 {
        if (flags & 1) != 0 {
            return Err(invalid_packet("encrypted flag on version 1"));
        }
        25
    } else if version == 2 {
        if (flags & 1) != 0 {
            65
        } else {
            25
        }
    } else {
        return Err(invalid_packet("unsupported version"));
    };
    if bytes.len() < offset + 4 {
        return Err(invalid_packet("too short"));
    }
    let payload_len = read_be32(bytes, offset);
    if payload_len as u64 > (usize::MAX - (offset + 4)) as u64 {
        return Err(invalid_packet("length overflow"));
    }
    Ok(offset + 4 + payload_len as usize)
}

/// A packet as the views of `SharePacket` values are: an identifier of 16 bytes and,
/// where there are crypto parameters, a salt of 16 bytes and a nonce of 12.
pub open spec fn well_formed(p: PacketView) -> bool {
    &&& p.set_id.len() == 16
    &&& p.crypto_params is Some ==> p.crypto_params->0.salt.len() == 16
        && p.crypto_params->0.nonce.len() == 12
}

/// Writing a packet and reading it back gives the packet.
pub proof fn lemma_binary_round_trip(p: PacketView, b: Seq<u8>)
    requires
        well_formed(p),
        encode_spec(p) == Ok::<Seq<u8>, Failure>(b),
        b.len() <= usize::MAX,
    ensures
        decode_spec(b) == Ok::<PacketView, Failure>(p),
{
    let h = header(p);
    let len = p.payload.len() as u32;
    lemma_be32_round_trip(len);
    assert(0u8 & 1 == 0 && 1u8 & 1 != 0) by (bit_vector);
    assert(b.subrange(0, 4) =~= magic());
    match p.crypto_params {
        Some(c) => {
            lemma_be32_round_trip(c.mem_cost_kib);
            lemma_be32_round_trip(c.time_cost);
            lemma_be32_round_trip(c.parallelism);
            assert(h.len() == 65);
            assert(b.subrange(65, 69) =~= be32(len));
            assert(b.subrange(9, 25) =~= p.set_id);
            assert(b.subrange(25, 41) =~= c.salt);
            assert(b.subrange(41, 53) =~= c.nonce);
            assert(b.subrange(53, 57) =~= be32(c.mem_cost_kib));
            assert(b.subrange(57, 61) =~= be32(c.time_cost));
            assert(b.subrange(61, 65) =~= be32(c.parallelism));
            assert(b.subrange(69, b.len() as int) =~= p.payload);
        },
        None => {
            assert(h.len() == 25);
            assert(b.subrange(25, 29) =~= be32(len));
            assert(b.subrange(9, 25) =~= p.set_id);
            assert(b.subrange(29, b.len() as int) =~= p.payload);
        },
    }
}

} // verus!
