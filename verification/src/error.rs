//! The errors of the library, and what they say.

use crate::render::{decimal, decimal_digits};
use crate::text::string_of;
use vstd::prelude::*;
use vstd::string::StringExecFns;

verus! {

/// Everything that can go wrong while splitting, encoding, decoding or combining shares.
#[derive(Debug)]
pub enum CoreError {
    InvalidKAndN { k: u8, n: u8 },
    NotEnoughShares { k: u8, m: usize },
    InconsistentMetadata,
    DuplicateX { x: u8 },
    InvalidX,
    DivisionByZero,
    InvalidCombinedLength { len: usize },
    IntegrityCheckFailed,
    InvalidPacket(String),
    Encoding(String),
    Crypto(String),
    EncryptFailed,
    DecryptFailed,
    PassphraseRequired,
    CryptoParamsMismatch,
}

pub type CoreResult<T> = Result<T, CoreError>;

/// The mathematical content of a `CoreError`: the same variants, with messages as
/// character sequences.
pub enum Failure {
    InvalidKAndN { k: u8, n: u8 },
    NotEnoughShares { k: u8, m: usize },
    InconsistentMetadata,
    DuplicateX { x: u8 },
    InvalidX,
    DivisionByZero,
    InvalidCombinedLength { len: usize },
    IntegrityCheckFailed,
    InvalidPacket(Seq<char>),
    Encoding(Seq<char>),
    Crypto(Seq<char>),
    EncryptFailed,
    DecryptFailed,
    PassphraseRequired,
    CryptoParamsMismatch,
}

impl View for CoreError {
    type V = Failure;

    open spec fn view(&self) -> Failure {
        match *self {
            CoreError::InvalidKAndN { k, n } => Failure::InvalidKAndN { k, n },
            CoreError::NotEnoughShares { k, m } => Failure::NotEnoughShares { k, m },
            CoreError::InconsistentMetadata => Failure::InconsistentMetadata,
            CoreError::DuplicateX { x } => Failure::DuplicateX { x },
            CoreError::InvalidX => Failure::InvalidX,
            CoreError::DivisionByZero => Failure::DivisionByZero,
            CoreError::InvalidCombinedLength { len } => Failure::InvalidCombinedLength { len },
            CoreError::IntegrityCheckFailed => Failure::IntegrityCheckFailed,
            CoreError::InvalidPacket(m) => Failure::InvalidPacket(m@),
            CoreError::Encoding(m) => Failure::Encoding(m@),
            CoreError::Crypto(m) => Failure::Crypto(m@),
            CoreError::EncryptFailed => Failure::EncryptFailed,
            CoreError::DecryptFailed => Failure::DecryptFailed,
            CoreError::PassphraseRequired => Failure::PassphraseRequired,
            CoreError::CryptoParamsMismatch => Failure::CryptoParamsMismatch,
        }
    }
}

/// What a result says, its error taken by its view.
pub open spec fn outcome<T>(r: CoreResult<T>) -> Result<T, Failure> {
    match r {
        Ok(v) => Ok(v),
        Err(e) => Err(e@),
    }
}

/// What a result says, its value and its error taken by their views.
pub open spec fn outcome_view<T: View>(r: CoreResult<T>) -> Result<T::V, Failure> {
    match r {
        Ok(v) => Ok(v@),
        Err(e) => Err(e@),
    }
}

/// An `InvalidPacket` error with the given message.
pub fn invalid_packet(msg: &str) -> (e: CoreError)
    ensures
        e@ == Failure::InvalidPacket(msg@),
{
    CoreError::InvalidPacket(String::from_str(msg))
}

/// An `Encoding` error with the given message.
pub fn encoding_error(msg: &str) -> (e: CoreError)
    ensures
        e@ == Failure::Encoding(msg@),
{
    CoreError::Encoding(String::from_str(msg))
}

/// A `Crypto` error whose message is `prefix` followed by `detail`.
pub fn crypto_error(prefix: &str, detail: &str) -> (e: CoreError)
    ensures
        e@ == Failure::Crypto(prefix@ + detail@),
{
    CoreError::Crypto(String::from_str(prefix).concat(detail))
}

/// What an error says in words.
pub open spec fn message_spec(f: Failure) -> Seq<char> {
    match f {
        Failure::InvalidKAndN { k, n } => "invalid parameters: require 1 <= k <= n <= 255, got k="@
            + decimal(k as nat) + ", n="@ + decimal(n as nat),
        Failure::NotEnoughShares { k, m } => "need at least k shares: need "@ + decimal(k as nat)
            + ", got "@ + decimal(m as nat),
        Failure::InconsistentMetadata => "share set metadata mismatch"@,
        Failure::DuplicateX { x } => "duplicate x coordinate "@ + decimal(x as nat),
        Failure::InvalidX => "invalid x coordinate 0"@,
        Failure::DivisionByZero => "cannot invert zero"@,
        Failure::InvalidCombinedLength { len } => "invalid combined length "@ + decimal(len as nat),
        Failure::IntegrityCheckFailed => "integrity check failed"@,
        Failure::InvalidPacket(m) => "invalid packet: "@ + m,
        Failure::Encoding(m) => "encoding error: "@ + m,
        Failure::Crypto(m) => "crypto error: "@ + m,
        Failure::EncryptFailed => "encryption failed"@,
        Failure::DecryptFailed => "decryption failed"@,
        Failure::PassphraseRequired => "passphrase required"@,
        Failure::CryptoParamsMismatch => "crypto params mismatch"@,
    }
}

/// A number in decimal, as a string.
pub fn number(n: u64) -> (r: String)
    ensures
        r@ == decimal(n as nat),
{
    let digits = decimal_digits(n);
    string_of(digits.as_slice())
}

impl CoreError {
    /// What the error says in words.
    pub fn message(&self) -> (r: String)
        ensures
            r@ == message_spec(self@),
    {
        match self {
            CoreError::InvalidKAndN { k, n } => String::from_str(
                "invalid parameters: require 1 <= k <= n <= 255, got k=",
            ).concat(number(*k as u64).as_str()).concat(", n=").concat(number(*n as u64).as_str()),
            CoreError::NotEnoughShares { k, m } => String::from_str(
                "need at least k shares: need ",
            ).concat(number(*k as u64).as_str()).concat(", got ").concat(
                number(*m as u64).as_str(),
            ),
            CoreError::InconsistentMetadata => String::from_str("share set metadata mismatch"),
            CoreError::DuplicateX { x } => String::from_str("duplicate x coordinate ").concat(
                number(*x as u64).as_str(),
            ),
            CoreError::InvalidX => String::from_str("invalid x coordinate 0"),
            CoreError::DivisionByZero => String::from_str("cannot invert zero"),
            CoreError::InvalidCombinedLength { len } => String::from_str(
                "invalid combined length ",
            ).concat(number(*len as u64).as_str()),
            CoreError::IntegrityCheckFailed => String::from_str("integrity check failed"),
            CoreError::InvalidPacket(m) => String::from_str("invalid packet: ").concat(m.as_str()),
            CoreError::Encoding(m) => String::from_str("encoding error: ").concat(m.as_str()),
            CoreError::Crypto(m) => String::from_str("crypto error: ").concat(m.as_str()),
            CoreError::EncryptFailed => String::from_str("encryption failed"),
            CoreError::DecryptFailed => String::from_str("decryption failed"),
            CoreError::PassphraseRequired => String::from_str("passphrase required"),
            CoreError::CryptoParamsMismatch => String::from_str("crypto params mismatch"),
        }
    }
}

} // verus!
