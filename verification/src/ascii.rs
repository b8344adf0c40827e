//! Packets as one token of text: Base58Check and Base64.

use crate::error::{encoding_error, outcome_view, CoreError, CoreResult, Failure};
use crate::packet::{decode_spec, encode_spec, lemma_binary_round_trip, PacketView, SharePacket};
use base64::Engine;
use vstd::prelude::*;

verus! {

/// The two encodings that write a packet as one token of ASCII text.
#[derive(Clone, Copy, Debug, PartialEq, Eq, Structural)]
pub enum Encoding {
    Base58check,
    Base64url,
}

/// The Base58Check text of `bytes`: what bs58 writes for them with a checksum appended.
pub uninterp spec fn base58check_text(bytes: Seq<u8>) -> Seq<char>;

/// What bs58 reads from `text` as Base58Check: the bytes, or the message of its error.
pub uninterp spec fn base58check_bytes(text: Seq<char>) -> Result<Seq<u8>, Seq<char>>;

/// The Base64 text of `bytes` in the URL-safe alphabet without padding, as the base64
/// crate writes it.
pub uninterp spec fn base64url_text(bytes: Seq<u8>) -> Seq<char>;

/// What the base64 crate reads from `text` in the URL-safe alphabet without padding: the
/// bytes, or the message of its error.
pub uninterp spec fn base64url_bytes(text: Seq<char>) -> Result<Seq<u8>, Seq<char>>;

/// The longest input that the text encoders are given: their own size calculations stay
/// within `usize` up to here.
pub open spec fn max_input_len() -> int {
    (usize::MAX / 2) as int
}

/// Calls `bs58::encode(bytes).with_check().into_string()`. The result is named
/// `base58check_text`; nothing else is claimed of it.
#[verifier::external_body]
fn base58check_encode(bytes: &[u8]) -> (s: String)
    requires
        bytes@.len() <= max_input_len(),
    ensures
        s@ == base58check_text(bytes@),
{
    bs58::encode(bytes).with_check().into_string()
}

/// Calls `bs58::decode(text).with_check(None).into_vec()` and hands back the bytes or the
/// error's message. The result is named `base58check_bytes`; what the encoder wrote is
/// read back as the bytes it was given.
#[verifier::external_body]
fn base58check_decode(text: &str) -> (r: Result<Vec<u8>, String>)
    ensures
        match r {
            Ok(v) => base58check_bytes(text@) == Ok::<Seq<u8>, Seq<char>>(v@),
            Err(m) => base58check_bytes(text@) == Err::<Seq<u8>, Seq<char>>(m@),
        },
        forall|b: Seq<u8>|
            text@ == #[trigger] base58check_text(b) ==> (match r {
                Ok(v) => v@ == b,
                Err(_) => false,
            }),
{
    bs58::decode(text).with_check(None).into_vec().map_err(|e| e.to_string())
}

/// Calls `encode` of base64's `URL_SAFE_NO_PAD` engine. The result is named
/// `base64url_text`; nothing else is claimed of it.
#[verifier::external_body]
fn base64url_encode(bytes: &[u8]) -> (s: String)
    requires
        bytes@.len() <= max_input_len(),
    ensures
        s@ == base64url_text(bytes@),
{
    base64::engine::general_purpose::URL_SAFE_NO_PAD.encode(bytes)
}

/// Calls `decode` of base64's `URL_SAFE_NO_PAD` engine and hands back the bytes or the
/// error's message. The result is named `base64url_bytes`; what the encoder wrote is read
/// back as the bytes it was given.
#[verifier::external_body]
fn base64url_decode(text: &str) -> (r: Result<Vec<u8>, String>)
    ensures
        match r {
            Ok(v) => base64url_bytes(text@) == Ok::<Seq<u8>, Seq<char>>(v@),
            Err(m) => base64url_bytes(text@) == Err::<Seq<u8>, Seq<char>>(m@),
        },
        forall|b: Seq<u8>|
            text@ == #[trigger] base64url_text(b) ==> (match r {
                Ok(v) => v@ == b,
                Err(_) => false,
            }),
{
    base64::engine::general_purpose::URL_SAFE_NO_PAD.decode(text).map_err(|e| e.to_string())
}

/// The Base64 text of `bytes` in the standard alphabet with padding, as the base64 crate
/// writes it.
pub uninterp spec fn base64_text(bytes: Seq<u8>) -> Seq<char>;

/// What the base64 crate reads from `text` in the standard alphabet with padding: the
/// bytes, or the message of its error.
pub uninterp spec fn base64_bytes(text: Seq<char>) -> Result<Seq<u8>, Seq<char>>;

/// Calls `encode` of base64's `STANDARD` engine. The result is named `base64_text`;
/// nothing else is claimed of it.
#[verifier::external_body]
pub(crate) fn base64_encode(bytes: &[u8]) -> (s: String)
    requires
        bytes@.len() <= max_input_len(),
    ensures
        s@ == base64_text(bytes@),
{
    base64::engine::general_purpose::STANDARD.encode(bytes)
}

/// Calls `decode` of base64's `STANDARD` engine and hands back the bytes or the error's
/// message. The result is named `base64_bytes`; what the encoder wrote is read back as
/// the bytes it was given.
#[verifier::external_body]
pub(crate) fn base64_decode(text: &str) -> (r: Result<Vec<u8>, String>)
    ensures
        match r {
            Ok(v) => base64_bytes(text@) == Ok::<Seq<u8>, Seq<char>>(v@),
            Err(m) => base64_bytes(text@) == Err::<Seq<u8>, Seq<char>>(m@),
        },
        forall|b: Seq<u8>|
            text@ == #[trigger] base64_text(b) ==> (match r {
                Ok(v) => v@ == b,
                Err(_) => false,
            }),
{
    base64::engine::general_purpose::STANDARD.decode(text).map_err(|e| e.to_string())
}

/// The text of `bytes` in the given encoding.
pub open spec fn text_of(bytes: Seq<u8>, encoding: Encoding) -> Seq<char> {
    match encoding {
        Encoding::Base58check => base58check_text(bytes),
        Encoding::Base64url => base64url_text(bytes),
    }
}

/// The bytes that `text` spells in the given encoding, or the decoder's message.
pub open spec fn bytes_of(text: Seq<char>, encoding: Encoding) -> Result<Seq<u8>, Seq<char>> {
    match encoding {
        Encoding::Base58check => base58check_bytes(text),
        Encoding::Base64url => base64url_bytes(text),
    }
}

/// The text of a packet in the given encoding, or why it has none.
pub open spec fn encode_packet_spec(p: PacketView, encoding: Encoding) -> Result<
    Seq<char>,
    Failure,
> {
    match encode_spec(p) {
        Err(f) => Err(f),
        Ok(b) => if b.len() > max_input_len() {
            Err(Failure::Encoding("packet too large"@))
        } else {
            Ok(text_of(b, encoding))
        },
    }
}

/// The packet that `text` spells in the given encoding, or why it spells none.
pub open spec fn decode_packet_spec(text: Seq<char>, encoding: Encoding) -> Result<
    PacketView,
    Failure,
> {
    match bytes_of(text, encoding) {
        Err(m) => Err(Failure::Encoding(m)),
        Ok(b) => decode_spec(b),
    }
}

/// Writes a packet as one token of text: its binary form in Base58Check or in Base64
/// (URL-safe, unpadded).
pub fn encode_packet(packet: &SharePacket, encoding: Encoding) -> (r: CoreResult<String>)
    ensures
        outcome_view(r) == encode_packet_spec(packet@, encoding),
{
    let bytes = match packet.encode_binary() {
        Ok(b) => b,
        Err(e) => {
            return Err(e);
        },
    };
    if bytes.len() > usize::MAX / 2 {
        return Err(encoding_error("packet too large"));
    }
    match encoding {
        Encoding::Base58check => Ok(base58check_encode(bytes.as_slice())),
        Encoding::Base64url => Ok(base64url_encode(bytes.as_slice())),
    }
}

/// Reads a packet from one token of text in the given encoding.
///
/// Fails with `Encoding` and the decoder's message where the text is not of that
/// encoding, and as `SharePacket::decode_binary` does on the bytes otherwise. Text that
/// `encode_packet` wrote for a packet is read back as that packet.
pub fn decode_packet(s: &str, encoding: Encoding) -> (r: CoreResult<SharePacket>)
    ensures
        outcome_view(r) == decode_packet_spec(s@, encoding),
        forall|p: PacketView|
            #![trigger encode_packet_spec(p, encoding)]
            crate::packet::well_formed(p) && encode_packet_spec(p, encoding) == Ok::<
                Seq<char>,
                Failure,
            >(s@) ==> outcome_view(r) == Ok::<PacketView, Failure>(p),
{
    let decoded = match encoding {
        Encoding::Base58check => base58check_decode(s),
        Encoding::Base64url => base64url_decode(s),
    };
    proof {
        assert forall|p: PacketView|
            #![trigger encode_packet_spec(p, encoding)]
            crate::packet::well_formed(p) && encode_packet_spec(p, encoding) == Ok::<
                Seq<char>,
                Failure,
            >(s@) implies decode_packet_spec(s@, encoding) == Ok::<PacketView, Failure>(p) by {
            let b = encode_spec(p)->Ok_0;
            lemma_binary_round_trip(p, b);
        }
    }
    match decoded {
        Ok(bytes) => SharePacket::decode_binary(bytes.as_slice()),
        Err(m) => Err(CoreError::Encoding(m)),
    }
}

} // verus!
