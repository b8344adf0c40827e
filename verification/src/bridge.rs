//! The library as applications call it: encodings by name, secrets and errors as text.

use crate::ascii::{base64_bytes, base64_decode, base64_encode, base64_text, max_input_len};
use crate::crypto::{erase_bytes, erase_passphrase};
use crate::domain;
use crate::domain::{DomainError, DomainFailure, Encoding};
use crate::error::{message_spec, number, CoreError, Failure};
use crate::packet::{packet_views, well_formed, PacketView, SharePacket};
use crate::render::decimal;
use crate::sss::valid_threshold;
use crate::text::same_text;
use crate::{combine_shares_spec, lemma_packet_shape, payload_len, protects, refuses};
use vstd::prelude::*;
use vstd::string::StringExecFns;

verus! {

/// The error that the bridge hands to the applications.
#[derive(Debug)]
pub enum SafepartsError {
    Error { message: String },
}

/// What is known of one share without combining it.
#[derive(Clone, Copy, Debug, PartialEq, Eq, Structural)]
pub struct ShareInfo {
    pub k: u8,
    pub n: u8,
    pub x: u8,
    pub encrypted: bool,
}

/// The encoding of a name, if it names one.
pub open spec fn encoding_of(name: Seq<char>) -> Option<Encoding> {
    if name == "base58check"@ {
        Some(Encoding::Base58)
    } else if name == "base64url"@ {
        Some(Encoding::Base64)
    } else if name == "mnemo-words"@ {
        Some(Encoding::MnemoWords)
    } else if name == "mnemo-bip39"@ {
        Some(Encoding::MnemoBip39)
    } else {
        None
    }
}

/// What the bridge says of a core error.
pub open spec fn bridge_message(f: Failure) -> Seq<char> {
    match f {
        Failure::NotEnoughShares { k, m } => "need "@ + decimal(k as nat) + " shares, got "@
            + decimal(m as nat),
        Failure::PassphraseRequired => "passphrase required"@,
        Failure::IntegrityCheckFailed => "integrity check failed"@,
        Failure::CryptoParamsMismatch => "shares use different encryption parameters"@,
        Failure::InconsistentMetadata => "shares are from different sets"@,
        Failure::DuplicateX { x } => "duplicate share index: "@ + decimal(x as nat),
        Failure::InvalidKAndN { k, n } => "invalid threshold parameters: k="@ + decimal(k as nat)
            + " n="@ + decimal(n as nat),
        Failure::InvalidX => "invalid share index"@,
        other => message_spec(other),
    }
}

/// A result of the library's texts as a result of the bridge, for an encoding other than
/// `Auto`.
pub open spec fn named<T>(r: Result<T, DomainFailure>) -> Result<T, Seq<char>> {
    match r {
        Ok(v) => Ok(v),
        Err(DomainFailure::Codec { source }) => Err(message_spec(source)),
        Err(other) => Err(domain::domain_message(other)),
    }
}

/// The text of a packet in the encoding of the given name, or what the bridge says is
/// wrong.
pub open spec fn encode_packet_spec(p: PacketView, name: Seq<char>) -> Result<
    Seq<char>,
    Seq<char>,
> {
    match encoding_of(name) {
        None => Err("unknown encoding: "@ + name),
        Some(e) => named(domain::encode_packet_spec(p, e)),
    }
}

/// The packet that a text spells in the encoding of the given name, or what the bridge
/// says is wrong.
pub open spec fn decode_packet_spec(text: Seq<char>, name: Seq<char>) -> Result<
    PacketView,
    Seq<char>,
> {
    match encoding_of(name) {
        None => Err("unknown encoding: "@ + name),
        Some(e) => named(domain::decode_packet_spec(text, e)),
    }
}

/// The packets that the texts spell in the encoding of the given name, or what the bridge
/// says is wrong with the first that spells none.
pub open spec fn decode_all_spec(texts: Seq<Seq<char>>, name: Seq<char>) -> Result<
    Seq<PacketView>,
    Seq<char>,
>
    decreases texts.len(),
{
    if texts.len() == 0 {
        Ok(Seq::empty())
    } else {
        match decode_all_spec(texts.drop_last(), name) {
            Err(m) => Err(m),
            Ok(ps) => match decode_packet_spec(texts.last(), name) {
                Err(m) => Err(m),
                Ok(p) => Ok(ps.push(p)),
            },
        }
    }
}

/// What combining the shares gives, or what the bridge says is wrong.
pub open spec fn combine_spec(
    texts: Seq<Seq<char>>,
    name: Seq<char>,
    passphrase: Option<Seq<u8>>,
) -> Result<Seq<u8>, Seq<char>> {
    match decode_all_spec(texts, name) {
        Err(m) => Err(m),
        Ok(ps) => match combine_shares_spec(ps, passphrase) {
            Err(f) => Err(bridge_message(f)),
            Ok(secret) => Ok(secret),
        },
    }
}

/// The texts behind a list of strings.
pub open spec fn texts_of(shares: Seq<String>) -> Seq<Seq<char>> {
    Seq::new(shares.len(), |i: int| shares[i]@)
}

/// A passphrase as the bytes that are handed on: its UTF-8 encoding.
pub open spec fn pass_bytes(passphrase: Option<String>) -> Option<Seq<u8>> {
    match passphrase {
        Some(p) => Some(vstd::utf8::encode_utf8(p@)),
        None => None,
    }
}

/// What a split that fails says: what the bridge says of the failure of the split itself,
/// or what is wrong with a packet of the split that has no text in the encoding.
pub open spec fn split_says(
    m: Seq<char>,
    secret: Seq<u8>,
    passphrase: Option<Seq<u8>>,
    k: u8,
    n: u8,
    name: Seq<char>,
) -> bool {
    ||| exists|f: Failure|
        #[trigger] refuses(f, secret, passphrase, k, n) && m == bridge_message(f)
    ||| exists|ps: Seq<PacketView>, i: int|
        protects(ps, secret, passphrase, k, n) && 0 <= i < ps.len() && encode_packet_spec(
            #[trigger] ps[i],
            name,
        ) == Err::<Seq<char>, Seq<char>>(m)
}

/// The shares of a secret of `len` bytes fit the encoding of the given name.
pub open spec fn shares_fit(len: int, encrypted: bool, name: Seq<char>) -> bool {
    encoding_of(name) is Some && domain::fits(
        payload_len(len, encrypted),
        encrypted,
        encoding_of(name)->0,
    )
}

/// The encoding of a name, if it names one.
pub fn encoding_named(name: &str) -> (r: Option<Encoding>)
    ensures
        r == encoding_of(name@),
{
    if same_text(name, "base58check") {
        Some(Encoding::Base58)
    } else if same_text(name, "base64url") {
        Some(Encoding::Base64)
    } else if same_text(name, "mnemo-words") {
        Some(Encoding::MnemoWords)
    } else if same_text(name, "mnemo-bip39") {
        Some(Encoding::MnemoBip39)
    } else {
        None
    }
}

/// What the bridge says of a name that names no encoding.
fn unknown_encoding(name: &str) -> (r: String)
    ensures
        r@ == "unknown encoding: "@ + name@,
{
    String::from_str("unknown encoding: ").concat(name)
}

/// What the bridge says of an error of the library's texts.
fn domain_text(e: DomainError) -> (r: String)
    ensures
        named(Err::<(), DomainFailure>(e@)) == Err::<(), Seq<char>>(r@),
{
    match e {
        DomainError::Codec { source } => source.message(),
        other => other.message(),
    }
}

/// Writes a packet as text in the encoding of the given name.
pub fn encode_packet(packet: &SharePacket, encoding: &str) -> (r: Result<String, String>)
    ensures
        match r {
            Ok(s) => encode_packet_spec(packet@, encoding@) == Ok::<Seq<char>, Seq<char>>(s@)
                && domain::written(packet@, s@, encoding_of(encoding@)->0),
            Err(m) => encode_packet_spec(packet@, encoding@) == Err::<Seq<char>, Seq<char>>(m@),
        },
{
    match encoding_named(encoding) {
        None => Err(unknown_encoding(encoding)),
        Some(e) => match domain::encode_packet(packet, e) {
            Ok(s) => Ok(s),
            Err(err) => Err(domain_text(err)),
        },
    }
}

/// Reads a packet from text in the encoding of the given name. What `encode_packet` wrote
/// for a packet under that name is read back as that packet.
pub fn decode_packet(s: &str, encoding: &str) -> (r: Result<SharePacket, String>)
    ensures
        match r {
            Ok(p) => decode_packet_spec(s@, encoding@) == Ok::<PacketView, Seq<char>>(p@),
            Err(m) => decode_packet_spec(s@, encoding@) == Err::<PacketView, Seq<char>>(m@),
        },
        forall|p: PacketView|
            #![trigger domain::written(p, s@, encoding_of(encoding@)->0)]
            encoding_of(encoding@) is Some && well_formed(p) && domain::written(
                p,
                s@,
                encoding_of(encoding@)->0,
            ) ==> r is Ok && r->Ok_0@ == p,
        forall|p: PacketView|
            #![trigger domain::written(p, crate::text::lowered(s@), encoding_of(encoding@)->0)]
            encoding_of(encoding@) is Some && domain::in_words(encoding_of(encoding@)->0)
                && well_formed(p) && domain::written(
                p,
                crate::text::lowered(s@),
                encoding_of(encoding@)->0,
            ) ==> r is Ok && r->Ok_0@ == p,
{
    match encoding_named(encoding) {
        None => Err(unknown_encoding(encoding)),
        Some(e) => match domain::decode_packet(s, e) {
            Ok(p) => Ok(p),
            Err(err) => Err(domain_text(err)),
        },
    }
}

/// The names of the encodings that the bridge knows.
pub fn supported_encodings() -> (r: Vec<String>)
    ensures
        r@.len() == 4,
        r@[0]@ == "base64url"@,
        r@[1]@ == "base58check"@,
        r@[2]@ == "mnemo-words"@,
        r@[3]@ == "mnemo-bip39"@,
        forall|i: int| 0 <= i < 4 ==> encoding_of((#[trigger] r@[i])@) is Some,
{
    let mut r: Vec<String> = Vec::new();
    r.push(String::from_str("base64url"));
    r.push(String::from_str("base58check"));
    r.push(String::from_str("mnemo-words"));
    r.push(String::from_str("mnemo-bip39"));
    r
}

/// The version of the library.
pub fn get_version() -> (r: String)
    ensures
        r@ == "0.1.0"@,
{
    String::from_str("0.1.0")
}

/// What the bridge says of a core error.
pub fn map_core_error(err: CoreError) -> (r: String)
    ensures
        r@ == bridge_message(err@),
{
    match err {
        CoreError::NotEnoughShares { k, m } => String::from_str("need ").concat(
            number(k as u64).as_str(),
        ).concat(" shares, got ").concat(number(m as u64).as_str()),
        CoreError::PassphraseRequired => String::from_str("passphrase required"),
        CoreError::IntegrityCheckFailed => String::from_str("integrity check failed"),
        CoreError::CryptoParamsMismatch => String::from_str(
            "shares use different encryption parameters",
        ),
        CoreError::InconsistentMetadata => String::from_str("shares are from different sets"),
        CoreError::DuplicateX { x } => String::from_str("duplicate share index: ").concat(
            number(x as u64).as_str(),
        ),
        CoreError::InvalidKAndN { k, n } => String::from_str(
            "invalid threshold parameters: k=",
        ).concat(number(k as u64).as_str()).concat(" n=").concat(number(n as u64).as_str()),
        CoreError::InvalidX => String::from_str("invalid share index"),
        other => other.message(),
    }
}

/// Splits a secret and writes each share as text in the encoding of the given name. The
/// secret and the passphrase are wiped once the shares are made.
pub fn split_secret_bytes(
    secret: Vec<u8>,
    k: u8,
    n: u8,
    encoding: String,
    passphrase: Option<String>,
) -> (r: Result<Vec<String>, String>)
    ensures
        match r {
            Ok(shares) => encoding_of(encoding@) is Some && exists|packets: Seq<PacketView>|
                {
                    &&& #[trigger] protects(packets, secret@, pass_bytes(passphrase), k, n)
                    &&& shares@.len() == packets.len()
                    &&& forall|i: int|
                        0 <= i < shares@.len() ==> domain::written(
                            packets[i],
                            (#[trigger] shares@[i])@,
                            encoding_of(encoding@)->0,
                        )
                },
            Err(m) => split_says(m@, secret@, pass_bytes(passphrase), k, n, encoding@),
        },
        shares_fit(secret@.len() as int, passphrase is Some, encoding@) ==> (match r {
            Ok(_) => true,
            Err(m) => exists|f: Failure|
                #[trigger] refuses(f, secret@, pass_bytes(passphrase), k, n) && m@
                    == bridge_message(f),
        }),
        passphrase is None && valid_threshold(k, n) && shares_fit(
            secret@.len() as int,
            false,
            encoding@,
        ) ==> r is Ok,
{
    let ghost plain = secret@;
    let ghost pass = pass_bytes(passphrase);
    let mut bytes = secret;
    let mut phrase = passphrase;
    let split = match &phrase {
        Some(p) => crate::split_secret(bytes.as_slice(), k, n, Some(p.as_str().as_bytes())),
        None => crate::split_secret(bytes.as_slice(), k, n, None),
    };
    let packets = match split {
        Ok(p) => p,
        Err(e) => {
            assert(refuses(e@, plain, pass, k, n));
            return Err(map_core_error(e));
        },
    };
    erase_bytes(&mut bytes);
    erase_passphrase(&mut phrase);
    let ghost ps = packet_views(packets@);
    let mut out: Vec<String> = Vec::new();
    let mut i: usize = 0;
    while i < packets.len()
        invariant
            i <= packets@.len(),
            out@.len() == i,
            ps == packet_views(packets@),
            plain == secret@,
            pass == pass_bytes(passphrase),
            protects(ps, plain, pass, k, n),
            i > 0 ==> encoding_of(encoding@) is Some,
            forall|t: int|
                0 <= t < i ==> domain::written(
                    packets@[t]@,
                    (#[trigger] out@[t])@,
                    encoding_of(encoding@)->0,
                ),
        decreases packets@.len() - i,
    {
        match encode_packet(&packets[i], encoding.as_str()) {
            Ok(s) => {
                out.push(s);
            },
            Err(m) => {
                proof {
                    lemma_packet_shape(ps, plain, pass, k, n, i as int);
                    if encoding_of(encoding@) is Some {
                        domain::lemma_fits(ps[i as int], encoding_of(encoding@)->0);
                    }
                    assert(encode_packet_spec(ps[i as int], encoding@) == Err::<
                        Seq<char>,
                        Seq<char>,
                    >(m@));
                }
                return Err(m);
            },
        }
        i += 1;
    }
    proof {
        let pv = packet_views(packets@);
        assert forall|t: int| 0 <= t < out@.len() implies domain::written(
            pv[t],
            (#[trigger] out@[t])@,
            encoding_of(encoding@)->0,
        ) by {}
    }
    Ok(out)
}

/// Reads the shares in the encoding of the given name and combines them. The passphrase
/// is wiped once the secret is there.
pub fn combine_shares_bytes(shares: Vec<String>, encoding: String, passphrase: Option<String>) -> (r:
    Result<Vec<u8>, String>)
    ensures
        match r {
            Ok(secret) => combine_spec(texts_of(shares@), encoding@, pass_bytes(passphrase)) == Ok::<
                Seq<u8>,
                Seq<char>,
            >(secret@),
            Err(m) => combine_spec(texts_of(shares@), encoding@, pass_bytes(passphrase)) == Err::<
                Seq<u8>,
                Seq<char>,
            >(m@),
        },
{
    let mut passphrase = passphrase;
    let ghost all = texts_of(shares@);
    let mut packets: Vec<SharePacket> = Vec::new();
    let mut i: usize = 0;
    assert(packet_views(packets@) =~= Seq::<PacketView>::empty());
    while i < shares.len()
        invariant
            i <= shares@.len(),
            all == texts_of(shares@),
            decode_all_spec(all.take(i as int), encoding@) == Ok::<Seq<PacketView>, Seq<char>>(
                packet_views(packets@),
            ),
        decreases shares@.len() - i,
    {
        proof {
            assert(all.take(i + 1).drop_last() =~= all.take(i as int));
        }
        match decode_packet(shares[i].as_str(), encoding.as_str()) {
            Ok(p) => {
                let ghost before = packet_views(packets@);
                let ghost pv = p@;
                packets.push(p);
                assert(packet_views(packets@) =~= before.push(pv));
            },
            Err(m) => {
                proof {
                    lemma_decode_all_fail(all, encoding@, i as int, all.len() as int);
                    assert(all.take(all.len() as int) =~= all);
                }
                return Err(m);
            },
        }
        i += 1;
    }
    assert(all.take(all.len() as int) =~= all);
    let combined = match &passphrase {
        Some(p) => crate::combine_shares(packets.as_slice(), Some(p.as_str().as_bytes())),
        None => crate::combine_shares(packets.as_slice(), None),
    };
    let secret = match combined {
        Ok(s) => s,
        Err(e) => {
            return Err(map_core_error(e));
        },
    };
    erase_passphrase(&mut passphrase);
    Ok(secret)
}

/// Once a text spells no packet, the texts up to any later one spell no packets either.
proof fn lemma_decode_all_fail(ts: Seq<Seq<char>>, name: Seq<char>, i: int, n: int)
    requires
        0 <= i < n <= ts.len(),
        decode_all_spec(ts.take(i), name) is Ok,
        decode_packet_spec(ts[i], name) is Err,
    ensures
        decode_all_spec(ts.take(n), name) == Err::<Seq<PacketView>, Seq<char>>(
            decode_packet_spec(ts[i], name)->Err_0,
        ),
    decreases n - i,
{
    assert(ts.take(n).drop_last() =~= ts.take(n - 1));
    if n - 1 != i {
        lemma_decode_all_fail(ts, name, i, n - 1);
    }
}

/// Splits a secret that is given in Base64, and writes each share as text in the encoding
/// of the given name.
pub fn split_secret(
    secret_b64: String,
    k: u8,
    n: u8,
    encoding: String,
    passphrase: Option<String>,
) -> (r: Result<Vec<String>, SafepartsError>)
    ensures
        match r {
            Ok(shares) => base64_bytes(secret_b64@) is Ok && encoding_of(encoding@) is Some
                && exists|packets: Seq<PacketView>|
                {
                    &&& #[trigger] protects(
                        packets,
                        base64_bytes(secret_b64@)->Ok_0,
                        pass_bytes(passphrase),
                        k,
                        n,
                    )
                    &&& shares@.len() == packets.len()
                    &&& forall|i: int|
                        0 <= i < shares@.len() ==> domain::written(
                            packets[i],
                            (#[trigger] shares@[i])@,
                            encoding_of(encoding@)->0,
                        )
                },
            Err(e) => match base64_bytes(secret_b64@) {
                Err(_) => e->message@ == "invalid base64 secret"@,
                Ok(secret) => split_says(
                    e->message@,
                    secret,
                    pass_bytes(passphrase),
                    k,
                    n,
                    encoding@,
                ),
            },
        },
        base64_bytes(secret_b64@) is Err ==> r is Err,
        passphrase is None && valid_threshold(k, n) && base64_bytes(secret_b64@) is Ok
            && shares_fit(base64_bytes(secret_b64@)->Ok_0.len() as int, false, encoding@) ==> r
            is Ok,
{
    let secret = match base64_decode(secret_b64.as_str()) {
        Ok(s) => s,
        Err(_) => {
            let message = String::from_str("invalid base64 secret");
            return Err(SafepartsError::Error { message });
        },
    };
    let ghost plain = secret@;
    assert(base64_bytes(secret_b64@)->Ok_0 == plain);
    match split_secret_bytes(secret, k, n, encoding, passphrase) {
        Ok(shares) => Ok(shares),
        Err(message) => Err(SafepartsError::Error { message }),
    }
}

/// Reads the shares in the encoding of the given name, combines them, and hands the
/// secret back in Base64.
pub fn combine_shares(shares: Vec<String>, encoding: String, passphrase: Option<String>) -> (r:
    Result<String, SafepartsError>)
    ensures
        match r {
            Ok(s) => combine_spec(texts_of(shares@), encoding@, pass_bytes(passphrase)) is Ok && s@
                == base64_text(
                combine_spec(texts_of(shares@), encoding@, pass_bytes(passphrase))->Ok_0,
            ),
            Err(e) => match combine_spec(texts_of(shares@), encoding@, pass_bytes(passphrase)) {
                Err(m) => e->message@ == m,
                Ok(secret) => secret.len() > max_input_len() && e->message@ == "secret too large"@,
            },
        },
{
    let secret = match combine_shares_bytes(shares, encoding, passphrase) {
        Ok(s) => s,
        Err(message) => {
            return Err(SafepartsError::Error { message });
        },
    };
    if secret.len() > usize::MAX / 2 {
        return Err(SafepartsError::Error { message: String::from_str("secret too large") });
    }
    Ok(base64_encode(secret.as_slice()))
}

/// The threshold that a share names.
pub fn share_threshold(share: &str, encoding: &str) -> (r: Result<u8, String>)
    ensures
        match r {
            Ok(k) => decode_packet_spec(share@, encoding@) is Ok && k == decode_packet_spec(
                share@,
                encoding@,
            )->Ok_0.k,
            Err(m) => decode_packet_spec(share@, encoding@) == Err::<PacketView, Seq<char>>(m@),
        },
{
    match decode_packet(share, encoding) {
        Ok(p) => Ok(p.k),
        Err(m) => Err(m),
    }
}

/// The parameters of a share, and whether its secret is encrypted.
pub fn inspect_share(share: &str, encoding: &str) -> (r: Result<ShareInfo, String>)
    ensures
        match r {
            Ok(info) => decode_packet_spec(share@, encoding@) is Ok && info == (ShareInfo {
                k: decode_packet_spec(share@, encoding@)->Ok_0.k,
                n: decode_packet_spec(share@, encoding@)->Ok_0.n,
                x: decode_packet_spec(share@, encoding@)->Ok_0.x,
                encrypted: decode_packet_spec(share@, encoding@)->Ok_0.crypto_params is Some,
            }),
            Err(m) => decode_packet_spec(share@, encoding@) == Err::<PacketView, Seq<char>>(m@),
        },
{
    match decode_packet(share, encoding) {
        Ok(p) => Ok(ShareInfo { k: p.k, n: p.n, x: p.x, encrypted: p.is_encrypted() }),
        Err(m) => Err(m),
    }
}

} // verus!
