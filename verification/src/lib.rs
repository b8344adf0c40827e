//! Threshold secret sharing over GF(256) with text shares.
//!
//! A secret is split into `n` packets of which any `k` give it back: the secret, encrypted
//! first if a passphrase is given, is followed by its BLAKE3 digest and shared byte by
//! byte with polynomials of degree below `k`. Packets have a binary form and four text
//! forms: Base58Check, Base64, words, and BIP39 phrases.

pub mod ascii;
pub mod bits;
pub mod bridge;
pub mod cli;
pub mod clipboard;
pub mod crc;
pub mod crypto;
pub mod domain;
pub mod error;
pub mod gf256;
pub mod lagrange;
pub mod mnemo_bip39;
pub mod mnemo_words;
pub mod packet;
pub mod render;
pub mod sss;
pub mod text;

pub use crate::error::{CoreError, CoreResult};

use crate::crypto::{
    decrypt, decrypt_spec, default_costs, encrypt, encrypt_spec, same_params, CryptoParams,
    ParamsView,
};
use crate::error::{outcome_view, Failure};
use crate::lagrange::distinct;
use crate::packet::{
    copy_range, packet_views, push_all, share_of, shares_of, PacketView, SharePacket,
};
use crate::sss::{
    combine_spec, is_sharing, lemma_combine_recovers, points, valid_threshold, views_of, RawShare,
    SetId,
};
use vstd::prelude::*;

verus! {

/// The length of the integrity tag that is split along with the secret.
pub const INTEGRITY_TAG_LEN: usize = 32;

/// The BLAKE3 digest of `data`, 32 bytes.
pub uninterp spec fn blake3_digest(data: Seq<u8>) -> Seq<u8>;

/// Hashes with `blake3::hash`. The result is named `blake3_digest`; it has 32 bytes.
#[verifier::external_body]
fn digest(data: &[u8]) -> (r: [u8; 32])
    ensures
        r@ == blake3_digest(data@),
{
    *blake3::hash(data).as_bytes()
}

/// A passphrase as a mathematical value.
pub open spec fn pass_view(passphrase: Option<&[u8]>) -> Option<Seq<u8>> {
    match passphrase {
        Some(p) => Some(p@),
        None => None,
    }
}

/// `body` followed by its digest.
pub open spec fn tagged(body: Seq<u8>) -> Seq<u8> {
    body + blake3_digest(body)
}

/// The packets of one split: `n` of them, at the points `1 ..= n`, all with the same
/// identifier, the same parameters `k` and `n`, the same crypto parameters, and payloads
/// of one length.
pub open spec fn is_sibling_set(ps: Seq<PacketView>, k: u8, n: u8) -> bool {
    &&& ps.len() == n
    &&& forall|j: int|
        0 <= j < ps.len() ==> {
            &&& (#[trigger] ps[j]).k == k
            &&& ps[j].n == n
            &&& ps[j].x == j + 1
            &&& ps[j].set_id == ps[0].set_id
            &&& ps[j].crypto_params == ps[0].crypto_params
            &&& ps[j].payload.len() == ps[0].payload.len()
        }
}

/// What was split is `body` with its digest, and `body` is the secret itself without a
/// passphrase, or its ciphertext under the passphrase and the packets' crypto parameters,
/// which is 16 bytes longer.
pub open spec fn conceals(
    ps: Seq<PacketView>,
    body: Seq<u8>,
    secret: Seq<u8>,
    passphrase: Option<Seq<u8>>,
    k: u8,
    n: u8,
) -> bool {
    &&& blake3_digest(body).len() == 32
    &&& is_sharing(shares_of(ps), tagged(body), k, n, ps[0].set_id)
    &&& match passphrase {
        None => ps[0].crypto_params is None && body == secret,
        Some(pw) => ps[0].crypto_params is Some && default_costs(ps[0].crypto_params->0)
            && encrypt_spec(secret, pw, ps[0].crypto_params->0) == Ok::<Seq<u8>, Failure>(body)
            && body.len() == secret.len() + 16,
    }
}

/// `ps` are the packets that a split of `secret` with the threshold `k`, into `n` shares,
/// under this passphrase, makes.
pub open spec fn protects(
    ps: Seq<PacketView>,
    secret: Seq<u8>,
    passphrase: Option<Seq<u8>>,
    k: u8,
    n: u8,
) -> bool {
    &&& valid_threshold(k, n)
    &&& is_sibling_set(ps, k, n)
    &&& exists|body: Seq<u8>| #[trigger] conceals(ps, body, secret, passphrase, k, n)
}

/// The length of the payload of each packet when a secret of `len` bytes is split: the
/// secret, or its ciphertext of 16 bytes more, and the digest of 32 bytes.
pub open spec fn payload_len(len: int, encrypted: bool) -> int {
    if encrypted {
        len + 48
    } else {
        len + 32
    }
}

/// A split of `secret` fails with `f`: without a passphrase, because the threshold is not
/// valid. With one, because the encryption under the parameters that were drawn, which
/// have the default costs, failed with `f`, or because it went well and the threshold is
/// not valid.
pub open spec fn refuses(
    f: Failure,
    secret: Seq<u8>,
    passphrase: Option<Seq<u8>>,
    k: u8,
    n: u8,
) -> bool {
    match passphrase {
        None => !valid_threshold(k, n) && f == (Failure::InvalidKAndN { k, n }),
        Some(pw) => exists|p: ParamsView|
            default_costs(p) && (match #[trigger] encrypt_spec(secret, pw, p) {
                Err(g) => f == g,
                Ok(_) => !valid_threshold(k, n) && f == (Failure::InvalidKAndN { k, n }),
            }),
    }
}

/// Whether some packet has other crypto parameters than the first.
pub open spec fn params_differ(ps: Seq<PacketView>) -> bool {
    exists|j: int| 0 <= j < ps.len() && (#[trigger] ps[j]).crypto_params != ps[0].crypto_params
}

/// What the combined bytes give: the data before the tag, when the tag is its digest and,
/// for an encrypted secret, the passphrase opens it.
pub open spec fn unwrap_spec(
    combined: Seq<u8>,
    params: Option<ParamsView>,
    passphrase: Option<Seq<u8>>,
) -> Result<Seq<u8>, Failure> {
    if combined.len() < 32 {
        Err(Failure::InvalidCombinedLength { len: combined.len() as usize })
    } else if blake3_digest(combined.take(combined.len() - 32)) != combined.skip(
        combined.len() - 32,
    ) {
        Err(Failure::IntegrityCheckFailed)
    } else {
        match params {
            None => Ok(combined.take(combined.len() - 32)),
            Some(p) => match passphrase {
                None => Err(Failure::PassphraseRequired),
                Some(pw) => decrypt_spec(combined.take(combined.len() - 32), pw, p),
            },
        }
    }
}

/// What combining the packets `ps` under a passphrase gives.
pub open spec fn combine_shares_spec(ps: Seq<PacketView>, passphrase: Option<Seq<u8>>) -> Result<
    Seq<u8>,
    Failure,
> {
    if ps.len() == 0 {
        Err(Failure::NotEnoughShares { k: 1, m: 0 })
    } else if params_differ(ps) {
        Err(Failure::CryptoParamsMismatch)
    } else {
        match combine_spec(shares_of(ps)) {
            Err(f) => Err(f),
            Ok(combined) => unwrap_spec(combined, ps[0].crypto_params, passphrase),
        }
    }
}

/// Each of `picked` is one of `all`.
pub open spec fn drawn_from(picked: Seq<PacketView>, all: Seq<PacketView>) -> bool {
    forall|i: int| 0 <= i < picked.len() ==> all.contains(#[trigger] picked[i])
}

/// What a split promises of `picked`, `k` or more of its packets: the shares combine to
/// the bytes that were split, which end in the digest of what stands before it.
pub open spec fn recovers(
    picked: Seq<PacketView>,
    all: Seq<PacketView>,
    secret: Seq<u8>,
    passphrase: Option<Seq<u8>>,
    k: u8,
    n: u8,
) -> bool {
    exists|body: Seq<u8>|
        {
            &&& #[trigger] conceals(all, body, secret, passphrase, k, n)
            &&& combine_spec(shares_of(picked)) == Ok::<Seq<u8>, Failure>(tagged(body))
            &&& tagged(body).take(tagged(body).len() - 32) == body
            &&& tagged(body).skip(tagged(body).len() - 32) == blake3_digest(body)
            &&& picked[0].crypto_params == all[0].crypto_params
        }
}

/// `k` or more packets of a split, none twice, combine to what was split.
pub proof fn lemma_recovers(
    picked: Seq<PacketView>,
    all: Seq<PacketView>,
    secret: Seq<u8>,
    passphrase: Option<Seq<u8>>,
    k: u8,
    n: u8,
)
    requires
        protects(all, secret, passphrase, k, n),
        drawn_from(picked, all),
        picked.len() >= k,
        distinct(points(shares_of(picked))),
    ensures
        recovers(picked, all, secret, passphrase, k, n),
        !params_differ(picked),
{
    let body = choose|body: Seq<u8>| #[trigger] conceals(all, body, secret, passphrase, k, n);
    lemma_picked_shares(all, picked);
    lemma_combine_recovers(shares_of(all), shares_of(picked), tagged(body), k, n, all[0].set_id);
    assert(tagged(body).take(tagged(body).len() - 32) =~= body);
    assert(tagged(body).skip(tagged(body).len() - 32) =~= blake3_digest(body));
}

/// Fewer packets of a split than its threshold, none taken twice, do not combine, with
/// whatever passphrase: there are not enough shares.
pub proof fn lemma_too_few_packets(
    picked: Seq<PacketView>,
    all: Seq<PacketView>,
    secret: Seq<u8>,
    passphrase: Option<Seq<u8>>,
    given: Option<Seq<u8>>,
    k: u8,
    n: u8,
)
    requires
        protects(all, secret, passphrase, k, n),
        drawn_from(picked, all),
        picked.len() < k,
        distinct(points(shares_of(picked))),
    ensures
        combine_shares_spec(picked, given) is Err,
        combine_shares_spec(picked, given)->Err_0 is NotEnoughShares,
{
    if picked.len() > 0 {
        let body = choose|body: Seq<u8>| #[trigger] conceals(all, body, secret, passphrase, k, n);
        lemma_picked_shares(all, picked);
        crate::sss::lemma_combine_needs_threshold(
            shares_of(all),
            shares_of(picked),
            tagged(body),
            k,
            n,
            all[0].set_id,
        );
    }
}

/// With the threshold one, every packet holds what was split as it is: the secret, or its
/// ciphertext, followed by the digest.
pub proof fn lemma_threshold_one(
    all: Seq<PacketView>,
    secret: Seq<u8>,
    passphrase: Option<Seq<u8>>,
    n: u8,
    j: int,
)
    requires
        protects(all, secret, passphrase, 1, n),
        0 <= j < all.len(),
    ensures
        exists|body: Seq<u8>|
            #[trigger] conceals(all, body, secret, passphrase, 1, n) && all[j].payload == tagged(
                body,
            ),
        passphrase is None ==> all[j].payload == tagged(secret),
{
    let body = choose|body: Seq<u8>| #[trigger] conceals(all, body, secret, passphrase, 1, n);
    crate::sss::lemma_single_coefficient(shares_of(all), tagged(body), n, all[0].set_id, j);
}

/// Every packet of a split has a payload as long as the secret, or its ciphertext, and the
/// digest; it has crypto parameters exactly where there is a passphrase, and they have
/// the default costs.
pub proof fn lemma_packet_shape(
    all: Seq<PacketView>,
    secret: Seq<u8>,
    passphrase: Option<Seq<u8>>,
    k: u8,
    n: u8,
    j: int,
)
    requires
        protects(all, secret, passphrase, k, n),
        0 <= j < all.len(),
    ensures
        all[j].payload.len() == payload_len(secret.len() as int, passphrase is Some),
        all[j].crypto_params is Some <==> passphrase is Some,
        passphrase is Some ==> default_costs(all[j].crypto_params->0),
{
    let body = choose|body: Seq<u8>| #[trigger] conceals(all, body, secret, passphrase, k, n);
    assert(shares_of(all)[j].y.len() == tagged(body).len());
}

/// Splits a secret without a passphrase.
pub fn tag_and_split(secret: &[u8], k: u8, n: u8) -> (r: CoreResult<Vec<SharePacket>>)
    ensures
        match r {
            Ok(packets) => protects(packet_views(packets@), secret@, None, k, n),
            Err(e) => !valid_threshold(k, n) && e@ == (Failure::InvalidKAndN { k, n }),
        },
{
    split_secret(secret, k, n, None)
}

/// Combines packets of a secret that was split without a passphrase.
pub fn combine_and_verify(packets: &[SharePacket]) -> (r: CoreResult<Vec<u8>>)
    ensures
        outcome_view(r) == combine_shares_spec(packet_views(packets@), None),
{
    combine_shares(packets, None)
}

/// Splits `secret` into `n` packets of which any `k` give it back.
///
/// With a passphrase the secret is first encrypted under fresh crypto parameters, which
/// every packet then carries. The bytes that are split are the secret, or its ciphertext,
/// followed by their BLAKE3 digest.
///
/// Without a passphrase the split succeeds for every valid threshold. With one it
/// succeeds where the encryption does and the threshold is valid.
pub fn split_secret(secret: &[u8], k: u8, n: u8, passphrase: Option<&[u8]>) -> (r: CoreResult<
    Vec<SharePacket>,
>)
    ensures
        match r {
            Ok(packets) => protects(packet_views(packets@), secret@, pass_view(passphrase), k, n),
            Err(e) => refuses(e@, secret@, pass_view(passphrase), k, n),
        },
{
    let mut data: Vec<u8>;
    let crypto_params: Option<CryptoParams>;
    match passphrase {
        Some(pw) => {
            match encrypt(secret, pw) {
                Ok((sealed, params)) => {
                    data = sealed;
                    crypto_params = Some(params);
                },
                Err(e) => {
                    return Err(e);
                },
            }
        },
        None => {
            data = copy_range(secret, 0, secret.len());
            assert(data@ =~= secret@);
            crypto_params = None;
        },
    }
    let ghost body = data@;
    let tag = digest(data.as_slice());
    push_all(&mut data, tag.as_slice());
    let set_id = SetId::random();
    let shares = match crate::sss::split(data.as_slice(), k, n, set_id) {
        Ok(s) => s,
        Err(e) => {
            return Err(e);
        },
    };
    let ghost sv = views_of(shares@);
    let ghost all = shares@;
    let mut packets: Vec<SharePacket> = Vec::new();
    for share in it: shares
        invariant
            it.seq() == all,
            sv == views_of(all),
            packets@.len() == it.index(),
            forall|t: int|
                0 <= t < it.index() ==> share_of((#[trigger] packets@[t])@) == sv[t]
                    && packets@[t].crypto_params == crypto_params,
    {
        packets.push(SharePacket::from_raw_share(share).with_crypto_params(crypto_params));
    }
    proof {
        let ps = packet_views(packets@);
        assert(conceals(ps, body, secret@, pass_view(passphrase), k, n));
    }
    Ok(packets)
}

/// The combined bytes without their tag, and the tag.
pub fn split_tag(combined: Vec<u8>) -> (r: CoreResult<(Vec<u8>, Vec<u8>)>)
    ensures
        match r {
            Ok((data, tag)) => combined@.len() >= 32 && data@ == combined@.take(
                combined@.len() - 32,
            ) && tag@ == combined@.skip(combined@.len() - 32),
            Err(e) => combined@.len() < 32 && e@ == (Failure::InvalidCombinedLength {
                len: combined@.len() as usize,
            }),
        },
{
    let len = combined.len();
    if len < INTEGRITY_TAG_LEN {
        return Err(CoreError::InvalidCombinedLength { len });
    }
    let data = copy_range(combined.as_slice(), 0, len - INTEGRITY_TAG_LEN);
    let tag = copy_range(combined.as_slice(), len - INTEGRITY_TAG_LEN, len);
    Ok((data, tag))
}

/// Holds a tag against the digest that it should be.
pub fn check_tag(tag: &[u8], expected: &[u8; 32]) -> (r: CoreResult<()>)
    ensures
        match r {
            Ok(_) => tag@ == expected@,
            Err(e) => tag@ != expected@ && e@ == Failure::IntegrityCheckFailed,
        },
{
    if tag.len() != 32 {
        return Err(CoreError::IntegrityCheckFailed);
    }
    let mut i: usize = 0;
    while i < 32
        invariant
            i <= 32,
            tag@.len() == 32,
            forall|t: int| 0 <= t < i ==> tag@[t] == expected@[t],
        decreases 32 - i,
    {
        if tag[i] != expected[i] {
            return Err(CoreError::IntegrityCheckFailed);
        }
        i += 1;
    }
    Ok(())
}

/// Combines packets into the secret they were split from.
///
/// Fails when there are no packets, when a packet's crypto parameters differ from the
/// first's, where `sss::combine` fails on the shares, when the combined bytes are shorter
/// than a tag or do not end in the digest of what stands before it, when the set is
/// encrypted and no passphrase is given, and where decryption fails.
///
/// Any `k` or more packets of one split, none twice, with the passphrase of the split,
/// give the secret.
pub fn combine_shares(packets: &[SharePacket], passphrase: Option<&[u8]>) -> (r: CoreResult<
    Vec<u8>,
>)
    ensures
        outcome_view(r) == combine_shares_spec(packet_views(packets@), pass_view(passphrase)),
        forall|all: Seq<PacketView>, secret: Seq<u8>, k: u8, n: u8|
            #![trigger protects(all, secret, pass_view(passphrase), k, n)]
            protects(all, secret, pass_view(passphrase), k, n) && drawn_from(
                packet_views(packets@),
                all,
            ) && packets@.len() >= k && distinct(points(shares_of(packet_views(packets@))))
                ==> outcome_view(r) == Ok::<Seq<u8>, Failure>(secret),
{
    let ghost ps = packet_views(packets@);
    if packets.len() == 0 {
        return Err(CoreError::NotEnoughShares { k: 1, m: 0 });
    }
    let crypto_params = packets[0].crypto_params;
    let mut shares: Vec<RawShare> = Vec::new();
    let mut i: usize = 0;
    while i < packets.len()
        invariant
            i <= packets@.len(),
            packets@.len() > 0,
            ps == packet_views(packets@),
            crypto_params == packets@[0].crypto_params,
            forall|t: int| 0 <= t < i ==> (#[trigger] ps[t]).crypto_params == ps[0].crypto_params,
            shares@.len() == i,
            forall|t: int| 0 <= t < i ==> (#[trigger] shares@[t])@ == share_of(ps[t]),
        decreases packets@.len() - i,
    {
        let p = &packets[i];
        assert(ps[i as int] == p@);
        if !same_params(&p.crypto_params, &crypto_params) {
            return Err(CoreError::CryptoParamsMismatch);
        }
        match p.to_raw_share() {
            Ok(s) => {
                shares.push(s);
            },
            Err(e) => {
                return Err(e);
            },
        }
        i += 1;
    }
    assert(views_of(shares@) =~= shares_of(ps));
    proof {
        assert forall|all: Seq<PacketView>, secret: Seq<u8>, k: u8, n: u8|
            #![trigger protects(all, secret, pass_view(passphrase), k, n)]
            protects(all, secret, pass_view(passphrase), k, n) && drawn_from(ps, all)
                && packets@.len() >= k && distinct(points(shares_of(ps))) implies recovers(
            ps,
            all,
            secret,
            pass_view(passphrase),
            k,
            n,
        ) by {
            lemma_recovers(ps, all, secret, pass_view(passphrase), k, n);
        }
    }
    let combined = match crate::sss::combine(shares.as_slice()) {
        Ok(c) => c,
        Err(e) => {
            return Err(e);
        },
    };
    let (data, tag) = match split_tag(combined) {
        Ok(parts) => parts,
        Err(e) => {
            return Err(e);
        },
    };
    let expected = digest(data.as_slice());
    match check_tag(tag.as_slice(), &expected) {
        Ok(_) => {},
        Err(e) => {
            return Err(e);
        },
    }
    let result = match crypto_params {
        None => Ok(data),
        Some(params) => {
            match passphrase {
                None => Err(CoreError::PassphraseRequired),
                Some(pw) => decrypt(data.as_slice(), pw, params),
            }
        },
    };
    result
}

/// The shares of packets drawn from a set are drawn from the set's shares.
proof fn lemma_picked_shares(all: Seq<PacketView>, picked: Seq<PacketView>)
    requires
        drawn_from(picked, all),
    ensures
        forall|i: int|
            0 <= i < picked.len() ==> shares_of(all).contains(#[trigger] shares_of(picked)[i]),
{
    assert forall|i: int| 0 <= i < picked.len() implies shares_of(all).contains(
        #[trigger] shares_of(picked)[i],
    ) by {
        let j = choose|j: int| 0 <= j < all.len() && all[j] == picked[i];
        assert(shares_of(all)[j] == shares_of(picked)[i]);
    }
}

} // verus!
