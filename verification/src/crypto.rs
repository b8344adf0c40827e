//! The passphrase envelope: Argon2id for the key, ChaCha20-Poly1305 for the secret.

use crate::error::{crypto_error, outcome_view, CoreError, CoreResult, Failure};
use crate::sss::fill_random;
use chacha20poly1305::aead::{Aead, KeyInit};
use chacha20poly1305::{ChaCha20Poly1305, Key, Nonce};
use vstd::prelude::*;
use zeroize::Zeroize;

verus! {

/// The length of the salt of the key derivation.
pub const SALT_LEN: usize = 16;

/// The length of the nonce of the cipher.
pub const NONCE_LEN: usize = 12;

/// What a passphrase needs besides itself to give the key back: the salt and the costs of
/// the key derivation, and the nonce of the cipher.
#[derive(Clone, Copy, Debug, PartialEq, Eq)]
pub struct CryptoParams {
    pub salt: [u8; 16],
    pub nonce: [u8; 12],
    pub mem_cost_kib: u32,
    pub time_cost: u32,
    pub parallelism: u32,
}

/// Crypto parameters as a mathematical value.
pub struct ParamsView {
    pub salt: Seq<u8>,
    pub nonce: Seq<u8>,
    pub mem_cost_kib: u32,
    pub time_cost: u32,
    pub parallelism: u32,
}

impl View for CryptoParams {
    type V = ParamsView;

    open spec fn view(&self) -> ParamsView {
        ParamsView {
            salt: self.salt@,
            nonce: self.nonce@,
            mem_cost_kib: self.mem_cost_kib,
            time_cost: self.time_cost,
            parallelism: self.parallelism,
        }
    }
}

/// The view of optional parameters.
pub open spec fn option_view(p: Option<CryptoParams>) -> Option<ParamsView> {
    match p {
        Some(c) => Some(c@),
        None => None,
    }
}

/// Whether two optional parameter sets are the same.
pub fn same_params(a: &Option<CryptoParams>, b: &Option<CryptoParams>) -> (r: bool)
    ensures
        r == (*a == *b),
        r == (option_view(*a) == option_view(*b)),
{
    match (a, b) {
        (None, None) => true,
        (Some(p), Some(q)) => {
            let mut i: usize = 0;
            while i < 16
                invariant
                    i <= 16,
                    *a == Some(*p),
                    *b == Some(*q),
                    forall|t: int| 0 <= t < i ==> p.salt[t] == q.salt[t],
                decreases 16 - i,
            {
                if p.salt[i] != q.salt[i] {
                    return false;
                }
                i += 1;
            }
            let mut i: usize = 0;
            while i < 12
                invariant
                    i <= 12,
                    *a == Some(*p),
                    *b == Some(*q),
                    forall|t: int| 0 <= t < i ==> p.nonce[t] == q.nonce[t],
                decreases 12 - i,
            {
                if p.nonce[i] != q.nonce[i] {
                    return false;
                }
                i += 1;
            }
            assert(p.salt =~= q.salt);
            assert(p.nonce =~= q.nonce);
            p.mem_cost_kib == q.mem_cost_kib && p.time_cost == q.time_cost && p.parallelism
                == q.parallelism
        },
        _ => false,
    }
}

/// The 32-byte key that Argon2id, version 1.3, derives from a passphrase and a salt at the
/// given costs, or the message of argon2's error.
pub uninterp spec fn argon2id(pass: Seq<u8>, salt: Seq<u8>, m: u32, t: u32, p: u32) -> Result<
    Seq<u8>,
    Seq<char>,
>;

/// The ciphertext with its tag that ChaCha20-Poly1305 makes of a plaintext under a key and
/// a nonce, without associated data; `None` where the cipher refuses.
pub uninterp spec fn chacha20poly1305_sealed(
    key: Seq<u8>,
    nonce: Seq<u8>,
    plain: Seq<u8>,
) -> Option<Seq<u8>>;

/// The plaintext that ChaCha20-Poly1305 reads from a ciphertext with its tag under a key
/// and a nonce; `None` where the tag does not fit.
pub uninterp spec fn chacha20poly1305_opened(
    key: Seq<u8>,
    nonce: Seq<u8>,
    sealed: Seq<u8>,
) -> Option<Seq<u8>>;

/// The most parallel lanes that argon2 accepts.
pub const MAX_PARALLELISM: u32 = 0x00ff_ffff;

/// The most lanes for which eight times their number is still a `u32`.
pub const MAX_COUNTED_LANES: u32 = 0x1fff_ffff;

/// The costs that argon2 accepts: at least eight KiB of memory for each lane, at least
/// one pass, and between one lane and `MAX_PARALLELISM`.
pub open spec fn costs_in_range(m: u32, t: u32, p: u32) -> bool {
    8 <= m && 8 * p <= m && 1 <= t && 1 <= p <= MAX_PARALLELISM
}

/// Why argon2 refuses the costs `(mem_cost_kib, time_cost, parallelism)`, as the message
/// of its error, in the order in which it tests them; `None` where it accepts them.
pub open spec fn costs_refused(m: u32, t: u32, p: u32) -> Option<Seq<char>> {
    if m < 8 || m < 8 * p {
        Some("memory cost is too small"@)
    } else if t < 1 {
        Some("time cost is too small"@)
    } else if p < 1 {
        Some("not enough threads"@)
    } else if p > MAX_PARALLELISM {
        Some("too many threads"@)
    } else {
        None
    }
}

/// Asks `argon2::Params::new` whether it accepts the costs, for an output of 32 bytes, and
/// hands back its error's message if not. Argon2 tests the memory first, against eight
/// and against eight times the lanes, then the passes, then the lanes, and its error
/// prints as one fixed text for each. More than `MAX_COUNTED_LANES` lanes are kept from
/// it: its product of eight and the lanes would overflow.
#[verifier::external_body]
fn costs_refusal(m: u32, t: u32, p: u32) -> (r: Option<String>)
    requires
        p <= MAX_COUNTED_LANES,
    ensures
        match r {
            Some(msg) => costs_refused(m, t, p) == Some(msg@),
            None => costs_refused(m, t, p) is None,
        },
{
    argon2::Params::new(m, t, p, Some(32)).err().map(|e| e.to_string())
}

/// Derives a key of 32 bytes with `hash_password_into` of argon2's Argon2id, version 1.3,
/// at costs in argon2's range. The result, key or error message, is named `argon2id`.
/// Argon2 allocates `m` KiB for the time of the call.
#[verifier::external_body]
fn argon2id_key(pass: &[u8], salt: &[u8; 16], m: u32, t: u32, p: u32) -> (r: Result<
    [u8; 32],
    String,
>)
    requires
        costs_in_range(m, t, p),
    ensures
        match r {
            Ok(key) => argon2id(pass@, salt@, m, t, p) == Ok::<Seq<u8>, Seq<char>>(key@),
            Err(msg) => argon2id(pass@, salt@, m, t, p) == Err::<Seq<u8>, Seq<char>>(msg@),
        },
{
    let params = argon2::Params::new(m, t, p, Some(32)).map_err(|e| e.to_string())?;
    let hasher = argon2::Argon2::new(argon2::Algorithm::Argon2id, argon2::Version::V0x13, params);
    let mut key = [0u8; 32];
    hasher.hash_password_into(pass, salt, &mut key).map_err(|e| e.to_string())?;
    Ok(key)
}

/// Seals with `encrypt` of chacha20poly1305's `ChaCha20Poly1305`. The result is named
/// `chacha20poly1305_sealed`; it is the plaintext's length and a tag of 16 bytes long. The
/// plaintext leaves room for the tag.
#[verifier::external_body]
fn seal(key: &[u8; 32], nonce: &[u8; 12], plain: &[u8]) -> (r: Option<Vec<u8>>)
    requires
        plain@.len() + 16 <= usize::MAX,
    ensures
        match r {
            Some(v) => chacha20poly1305_sealed(key@, nonce@, plain@) == Some(v@) && v@.len()
                == plain@.len() + 16,
            None => chacha20poly1305_sealed(key@, nonce@, plain@) is None,
        },
{
    ChaCha20Poly1305::new(Key::from_slice(key)).encrypt(Nonce::from_slice(nonce), plain).ok()
}

/// Opens with `decrypt` of chacha20poly1305's `ChaCha20Poly1305`. The result is named
/// `chacha20poly1305_opened`; what was sealed under the same key and nonce opens to the
/// plaintext it was made of.
#[verifier::external_body]
fn open(key: &[u8; 32], nonce: &[u8; 12], sealed: &[u8]) -> (r: Option<Vec<u8>>)
    ensures
        match r {
            Some(v) => chacha20poly1305_opened(key@, nonce@, sealed@) == Some(v@),
            None => chacha20poly1305_opened(key@, nonce@, sealed@) is None,
        },
        forall|plain: Seq<u8>|
            #[trigger] chacha20poly1305_sealed(key@, nonce@, plain) == Some(sealed@) ==> (match r {
                Some(v) => v@ == plain,
                None => false,
            }),
{
    ChaCha20Poly1305::new(Key::from_slice(key)).decrypt(Nonce::from_slice(nonce), sealed).ok()
}

/// Overwrites a key with zeros, by `zeroize` of the zeroize crate.
#[verifier::external_body]
fn wipe(key: &mut [u8; 32])
    ensures
        forall|i: int| 0 <= i < 32 ==> final(key)@[i] == 0,
{
    key.zeroize();
}

/// Overwrites bytes with zeros and empties the vector, by `zeroize` of the zeroize crate.
#[verifier::external_body]
fn wipe_bytes(bytes: &mut Vec<u8>)
    ensures
        final(bytes)@.len() == 0,
{
    bytes.zeroize();
}

/// Overwrites a string with zeros and empties it, by `zeroize` of the zeroize crate.
#[verifier::external_body]
fn wipe_text(text: &mut String)
    ensures
        final(text)@.len() == 0,
{
    text.zeroize();
}

/// Overwrites a key that is no longer needed with zeros.
pub fn erase_key(key: &mut [u8; 32])
    ensures
        forall|i: int| 0 <= i < 32 ==> final(key)@[i] == 0,
{
    wipe(key);
}

/// Overwrites a secret that is no longer needed with zeros, and empties it.
pub fn erase_bytes(secret: &mut Vec<u8>)
    ensures
        final(secret)@.len() == 0,
{
    wipe_bytes(secret);
}

/// Overwrites a passphrase that is no longer needed with zeros, and empties it.
pub fn erase_passphrase(passphrase: &mut Option<String>)
    ensures
        match *final(passphrase) {
            Some(p) => *old(passphrase) is Some && p@.len() == 0,
            None => *old(passphrase) is None,
        },
{
    match passphrase {
        Some(p) => {
            wipe_text(p);
        },
        None => {},
    }
}

/// The key for a passphrase under the given parameters, or why there is none.
pub open spec fn key_spec(pass: Seq<u8>, p: ParamsView) -> Result<Seq<u8>, Failure> {
    match costs_refused(p.mem_cost_kib, p.time_cost, p.parallelism) {
        Some(msg) => Err(Failure::Crypto("argon2 params: "@ + msg)),
        None => match argon2id(pass, p.salt, p.mem_cost_kib, p.time_cost, p.parallelism) {
            Err(msg) => Err(Failure::Crypto("argon2: "@ + msg)),
            Ok(key) => Ok(key),
        },
    }
}

/// The ciphertext of `plain` for a passphrase under the given parameters, or why there is
/// none.
pub open spec fn encrypt_spec(plain: Seq<u8>, pass: Seq<u8>, p: ParamsView) -> Result<
    Seq<u8>,
    Failure,
> {
    match key_spec(pass, p) {
        Err(f) => Err(f),
        Ok(key) => if plain.len() + 16 > usize::MAX {
            Err(Failure::EncryptFailed)
        } else {
            match chacha20poly1305_sealed(key, p.nonce, plain) {
                None => Err(Failure::EncryptFailed),
                Some(sealed) => Ok(sealed),
            }
        },
    }
}

/// The plaintext of `sealed` for a passphrase under the given parameters, or why there is
/// none.
pub open spec fn decrypt_spec(sealed: Seq<u8>, pass: Seq<u8>, p: ParamsView) -> Result<
    Seq<u8>,
    Failure,
> {
    match key_spec(pass, p) {
        Err(f) => Err(f),
        Ok(key) => match chacha20poly1305_opened(key, p.nonce, sealed) {
            None => Err(Failure::DecryptFailed),
            Some(plain) => Ok(plain),
        },
    }
}

/// The costs that new parameters are made with: 64 MiB, three passes, one lane.
pub open spec fn default_costs(p: ParamsView) -> bool {
    p.mem_cost_kib == 65_536 && p.time_cost == 3 && p.parallelism == 1
}

/// Sixteen bytes from the system's random source.
fn random_16() -> (r: [u8; 16]) {
    let mut bytes: Vec<u8> = vec![0u8; 16];
    fill_random(&mut bytes);
    let mut r: [u8; 16] = [0u8; 16];
    let mut i: usize = 0;
    while i < 16
        invariant
            i <= 16,
            bytes@.len() == 16,
        decreases 16 - i,
    {
        r[i] = bytes[i];
        i += 1;
    }
    r
}

/// Twelve bytes from the system's random source.
fn random_12() -> (r: [u8; 12]) {
    let mut bytes: Vec<u8> = vec![0u8; 12];
    fill_random(&mut bytes);
    let mut r: [u8; 12] = [0u8; 12];
    let mut i: usize = 0;
    while i < 12
        invariant
            i <= 12,
            bytes@.len() == 12,
        decreases 12 - i,
    {
        r[i] = bytes[i];
        i += 1;
    }
    r
}

impl CryptoParams {
    /// Fresh parameters: a salt and a nonce from the system's random source, and the
    /// default costs.
    pub fn random_default() -> (p: CryptoParams)
        ensures
            default_costs(p@),
    {
        let salt = random_16();
        let nonce = random_12();
        CryptoParams { salt, nonce, mem_cost_kib: 65_536, time_cost: 3, parallelism: 1 }
    }
}

/// Derives the key for a passphrase with Argon2id under the given parameters.
///
/// Fails with `Crypto` for costs that are not in argon2's range, and where argon2 fails.
pub fn derive_key(passphrase: &[u8], params: &CryptoParams) -> (r: CoreResult<[u8; 32]>)
    ensures
        outcome_view(r) == key_spec(passphrase@, params@),
        !costs_in_range(params.mem_cost_kib, params.time_cost, params.parallelism) ==> r is Err,
        costs_in_range(params.mem_cost_kib, params.time_cost, params.parallelism) ==> outcome_view(
            r,
        ) == (match argon2id(
            passphrase@,
            params.salt@,
            params.mem_cost_kib,
            params.time_cost,
            params.parallelism,
        ) {
            Ok(key) => Ok::<Seq<u8>, Failure>(key),
            Err(msg) => Err::<Seq<u8>, Failure>(Failure::Crypto("argon2: "@ + msg)),
        }),
{
    if params.parallelism > MAX_COUNTED_LANES {
        return Err(crypto_error("argon2 params: ", "memory cost is too small"));
    }
    match costs_refusal(params.mem_cost_kib, params.time_cost, params.parallelism) {
        Some(msg) => {
            return Err(crypto_error("argon2 params: ", msg.as_str()));
        },
        None => {},
    }
    match argon2id_key(
        passphrase,
        &params.salt,
        params.mem_cost_kib,
        params.time_cost,
        params.parallelism,
    ) {
        Ok(key) => Ok(key),
        Err(msg) => Err(crypto_error("argon2: ", msg.as_str())),
    }
}

/// Encrypts `plaintext` for a passphrase under given parameters.
pub fn encrypt_with(plaintext: &[u8], passphrase: &[u8], params: &CryptoParams) -> (r: CoreResult<
    Vec<u8>,
>)
    ensures
        outcome_view(r) == encrypt_spec(plaintext@, passphrase@, params@),
        r is Ok ==> r->Ok_0@.len() == plaintext@.len() + 16,
{
    let mut key = match derive_key(passphrase, params) {
        Ok(k) => k,
        Err(e) => {
            return Err(e);
        },
    };
    if plaintext.len() > usize::MAX - 16 {
        erase_key(&mut key);
        return Err(CoreError::EncryptFailed);
    }
    let sealed = seal(&key, &params.nonce, plaintext);
    erase_key(&mut key);
    match sealed {
        Some(v) => Ok(v),
        None => Err(CoreError::EncryptFailed),
    }
}

/// Encrypts `plaintext` for a passphrase under fresh parameters, and hands back the
/// ciphertext with the parameters.
///
/// The outcome is that of `encrypt_with` under the parameters that were drawn, which have
/// the default costs: the ciphertext, 16 bytes longer than the plaintext, or the failure.
pub fn encrypt(plaintext: &[u8], passphrase: &[u8]) -> (r: CoreResult<(Vec<u8>, CryptoParams)>)
    ensures
        match r {
            Ok((sealed, params)) => default_costs(params@) && encrypt_spec(
                plaintext@,
                passphrase@,
                params@,
            ) == Ok::<Seq<u8>, Failure>(sealed@) && sealed@.len() == plaintext@.len() + 16,
            Err(e) => e@ is Crypto || e@ is EncryptFailed,
        },
        exists|p: ParamsView|
            default_costs(p) && #[trigger] encrypt_spec(plaintext@, passphrase@, p) == (match r {
                Ok((sealed, _)) => Ok::<Seq<u8>, Failure>(sealed@),
                Err(e) => Err::<Seq<u8>, Failure>(e@),
            }),
{
    let params = CryptoParams::random_default();
    match encrypt_with(plaintext, passphrase, &params) {
        Ok(sealed) => Ok((sealed, params)),
        Err(e) => Err(e),
    }
}

/// Decrypts `ciphertext` for a passphrase under the parameters it was encrypted with.
///
/// What `encrypt` made of a plaintext, with the same passphrase and parameters, decrypts
/// to that plaintext.
pub fn decrypt(ciphertext: &[u8], passphrase: &[u8], params: CryptoParams) -> (r: CoreResult<
    Vec<u8>,
>)
    ensures
        outcome_view(r) == decrypt_spec(ciphertext@, passphrase@, params@),
        forall|plain: Seq<u8>|
            #[trigger] encrypt_spec(plain, passphrase@, params@) == Ok::<Seq<u8>, Failure>(
                ciphertext@,
            ) ==> outcome_view(r) == Ok::<Seq<u8>, Failure>(plain),
{
    let mut key = match derive_key(passphrase, &params) {
        Ok(k) => k,
        Err(e) => {
            return Err(e);
        },
    };
    let opened = open(&key, &params.nonce, ciphertext);
    erase_key(&mut key);
    match opened {
        Some(v) => Ok(v),
        None => Err(CoreError::DecryptFailed),
    }
}

} // verus!
