//! Shares as text: writing, reading, and finding out the encoding of an input.

use crate::ascii;
use crate::error::{message_spec, number, CoreError, Failure};
use crate::mnemo_bip39;
use crate::mnemo_words;
use crate::packet::{packet_views, well_formed, PacketView, SharePacket};
use crate::render::{decimal, hex, hex_digits};
use crate::text::{
    chars_of, contains_char, join, joined, lowered, non_empty, paragraphs, rows, solid_pieces,
    split_paragraphs, split_trimmed, split_whitespace, string_of, to_unix_lines, trim, trimmed,
    unix_lines, words,
};
use crate::sss::valid_threshold;
use crate::{combine_shares_spec, lemma_packet_shape, pass_view, payload_len, protects, refuses};
use vstd::prelude::*;
use vstd::string::{StringExecFns, StringSliceAdditionalSpecFns};
use vstd::utf8::encode_utf8;

verus! {

/// The text encodings of a share, and `Auto` for "find out from the text".
#[derive(Clone, Copy, Debug, PartialEq, Eq, Structural)]
pub enum Encoding {
    Auto,
    Base64,
    Base58,
    MnemoWords,
    MnemoBip39,
}

/// What can go wrong between texts and secrets.
#[derive(Debug)]
pub enum DomainError {
    /// `Auto` was asked for where shares are written.
    AutoOutput,
    /// The input holds no share.
    NoShares,
    /// The encoding of the input could not be found out.
    Undetected,
    /// `Auto` was asked for where an encoding has to be known.
    AutoInput,
    /// Splitting failed.
    Split { k: u8, n: u8, source: CoreError },
    /// Combining failed.
    Combine { source: CoreError },
    /// A share could not be written or read.
    Codec { source: CoreError },
}

/// The mathematical content of a `DomainError`.
pub enum DomainFailure {
    AutoOutput,
    NoShares,
    Undetected,
    AutoInput,
    Split { k: u8, n: u8, source: Failure },
    Combine { source: Failure },
    Codec { source: Failure },
}

impl View for DomainError {
    type V = DomainFailure;

    open spec fn view(&self) -> DomainFailure {
        match *self {
            DomainError::AutoOutput => DomainFailure::AutoOutput,
            DomainError::NoShares => DomainFailure::NoShares,
            DomainError::Undetected => DomainFailure::Undetected,
            DomainError::AutoInput => DomainFailure::AutoInput,
            DomainError::Split { k, n, source } => DomainFailure::Split { k, n, source: source@ },
            DomainError::Combine { source } => DomainFailure::Combine { source: source@ },
            DomainError::Codec { source } => DomainFailure::Codec { source: source@ },
        }
    }
}

/// What a domain error says in words: the context, then the error it comes from.
pub open spec fn domain_message(f: DomainFailure) -> Seq<char> {
    match f {
        DomainFailure::AutoOutput => "auto encoding is not valid for output"@,
        DomainFailure::NoShares => "no shares provided"@,
        DomainFailure::Undetected => "could not detect share encoding; select encoding"@,
        DomainFailure::AutoInput => "auto"@,
        DomainFailure::Split { k, n, source } => "split failed (k="@ + decimal(k as nat) + ", n="@
            + decimal(n as nat) + "): "@ + message_spec(source),
        DomainFailure::Combine { source } => "combine failed: "@ + message_spec(source),
        DomainFailure::Codec { source } => message_spec(source),
    }
}

impl DomainError {
    /// What the error says in words.
    pub fn message(&self) -> (r: String)
        ensures
            r@ == domain_message(self@),
    {
        match self {
            DomainError::AutoOutput => String::from_str("auto encoding is not valid for output"),
            DomainError::NoShares => String::from_str("no shares provided"),
            DomainError::Undetected => String::from_str(
                "could not detect share encoding; select encoding",
            ),
            DomainError::AutoInput => String::from_str("auto"),
            DomainError::Split { k, n, source } => String::from_str("split failed (k=").concat(
                number(*k as u64).as_str(),
            ).concat(", n=").concat(number(*n as u64).as_str()).concat("): ").concat(
                source.message().as_str(),
            ),
            DomainError::Combine { source } => String::from_str("combine failed: ").concat(
                source.message().as_str(),
            ),
            DomainError::Codec { source } => source.message(),
        }
    }
}

/// The name of an encoding.
pub open spec fn label_spec(e: Encoding) -> Seq<char> {
    match e {
        Encoding::Auto => "auto"@,
        Encoding::Base64 => "base64"@,
        Encoding::Base58 => "base58"@,
        Encoding::MnemoWords => "mnemo-words"@,
        Encoding::MnemoBip39 => "mnemo-bip39"@,
    }
}

impl Encoding {
    /// The name of the encoding.
    pub fn label(self) -> (r: &'static str)
        ensures
            r@ == label_spec(self),
    {
        match self {
            Encoding::Auto => "auto",
            Encoding::Base64 => "base64",
            Encoding::Base58 => "base58",
            Encoding::MnemoWords => "mnemo-words",
            Encoding::MnemoBip39 => "mnemo-bip39",
        }
    }

    /// All the encodings, `Auto` first.
    pub fn all() -> (r: Vec<Encoding>)
        ensures
            r@ == seq![
                Encoding::Auto,
                Encoding::Base64,
                Encoding::Base58,
                Encoding::MnemoWords,
                Encoding::MnemoBip39,
            ],
    {
        vec![
            Encoding::Auto,
            Encoding::Base64,
            Encoding::Base58,
            Encoding::MnemoWords,
            Encoding::MnemoBip39,
        ]
    }

    /// The encodings that shares can be written in.
    pub fn for_split() -> (r: Vec<Encoding>)
        ensures
            r@ == seq![
                Encoding::Base64,
                Encoding::Base58,
                Encoding::MnemoWords,
                Encoding::MnemoBip39,
            ],
    {
        vec![Encoding::Base64, Encoding::Base58, Encoding::MnemoWords, Encoding::MnemoBip39]
    }
}

/// The text of a packet in an encoding, or why it has none.
pub open spec fn encode_packet_spec(p: PacketView, encoding: Encoding) -> Result<
    Seq<char>,
    DomainFailure,
> {
    match encoding {
        Encoding::Auto => Err(DomainFailure::AutoOutput),
        Encoding::Base64 => codec(ascii::encode_packet_spec(p, ascii::Encoding::Base64url)),
        Encoding::Base58 => codec(ascii::encode_packet_spec(p, ascii::Encoding::Base58check)),
        Encoding::MnemoWords => codec(mnemo_words::encode_packet_spec(p)),
        Encoding::MnemoBip39 => codec(mnemo_bip39::encode_packet_spec(p)),
    }
}

/// A core result as a domain result.
pub open spec fn codec<T>(r: Result<T, Failure>) -> Result<T, DomainFailure> {
    match r {
        Ok(v) => Ok(v),
        Err(f) => Err(DomainFailure::Codec { source: f }),
    }
}

/// `text` is what `encode_packet` writes for the packet `p` in this encoding.
pub open spec fn written(p: PacketView, text: Seq<char>, encoding: Encoding) -> bool {
    match encoding {
        Encoding::Auto => false,
        Encoding::Base64 => ascii::encode_packet_spec(p, ascii::Encoding::Base64url) == Ok::<
            Seq<char>,
            Failure,
        >(text),
        Encoding::Base58 => ascii::encode_packet_spec(p, ascii::Encoding::Base58check) == Ok::<
            Seq<char>,
            Failure,
        >(text),
        Encoding::MnemoWords => mnemo_words::written(p, text),
        Encoding::MnemoBip39 => mnemo_bip39::written(p, text),
    }
}

/// The packet that one text spells in an encoding, or why it spells none.
pub open spec fn decode_packet_spec(text: Seq<char>, encoding: Encoding) -> Result<
    PacketView,
    DomainFailure,
> {
    match encoding {
        Encoding::Auto => Err(DomainFailure::AutoInput),
        Encoding::Base64 => codec(ascii::decode_packet_spec(text, ascii::Encoding::Base64url)),
        Encoding::Base58 => codec(ascii::decode_packet_spec(text, ascii::Encoding::Base58check)),
        Encoding::MnemoWords => codec(mnemo_words::decode_packet_spec(text)),
        Encoding::MnemoBip39 => codec(mnemo_bip39::decode_packet_spec(text)),
    }
}

/// A paragraph as one line: its lines trimmed, the empty ones left out, and joined by
/// single spaces.
pub open spec fn tidy(paragraph: Seq<char>) -> Seq<char> {
    trimmed(joined(solid_pieces(paragraph, '\n'), seq![' ']))
}

/// Each paragraph as one line.
pub open spec fn all_tidy(ps: Seq<Seq<char>>) -> Seq<Seq<char>> {
    Seq::new(ps.len(), |i: int| tidy(ps[i]))
}

/// The blocks of an input: its paragraphs, which blank lines part, each as one line, the
/// empty ones left out. Line ends may be `\r\n` or `\n`.
pub open spec fn blocks(s: Seq<char>) -> Seq<Seq<char>> {
    non_empty(all_tidy(paragraphs(unix_lines(s))))
}

/// The texts of the single shares in an input: its blocks for the encodings in words, its
/// words for the others.
pub open spec fn share_texts(s: Seq<char>, encoding: Encoding) -> Seq<Seq<char>> {
    match encoding {
        Encoding::MnemoWords | Encoding::MnemoBip39 => blocks(s),
        _ => words(s),
    }
}

/// The packets that the texts spell in an encoding, or what is wrong with the first text
/// that spells none.
pub open spec fn decode_each(ts: Seq<Seq<char>>, encoding: Encoding) -> Result<
    Seq<PacketView>,
    DomainFailure,
>
    decreases ts.len(),
{
    if ts.len() == 0 {
        Ok(Seq::empty())
    } else {
        match decode_each(ts.drop_last(), encoding) {
            Err(f) => Err(f),
            Ok(ps) => match decode_packet_spec(ts.last(), encoding) {
                Err(f) => Err(f),
                Ok(p) => Ok(ps.push(p)),
            },
        }
    }
}

/// The packets that an input spells in a known encoding.
pub open spec fn decode_known_spec(s: Seq<char>, encoding: Encoding) -> Result<
    Seq<PacketView>,
    DomainFailure,
> {
    if encoding == Encoding::Auto {
        Err(DomainFailure::AutoInput)
    } else {
        decode_each(share_texts(s, encoding), encoding)
    }
}

/// Whether one of the texts holds a slash.
pub open spec fn any_slash(ts: Seq<Seq<char>>) -> bool {
    exists|i: int| 0 <= i < ts.len() && (#[trigger] ts[i]).contains('/')
}

/// Whether one of the texts holds more than one word.
pub open spec fn any_sentence(ts: Seq<Seq<char>>) -> bool {
    exists|i: int| 0 <= i < ts.len() && words(#[trigger] ts[i]).len() > 1
}

/// The encoding that an input seems to be in: BIP39 phrases if a block holds a slash,
/// words if a block holds more than one word, else Base64 if it reads as that, else
/// Base58Check if it reads as that.
pub open spec fn detect_spec(s: Seq<char>) -> Option<Encoding> {
    if any_slash(blocks(s)) {
        Some(Encoding::MnemoBip39)
    } else if any_sentence(blocks(s)) {
        Some(Encoding::MnemoWords)
    } else if decode_known_spec(s, Encoding::Base64) is Ok {
        Some(Encoding::Base64)
    } else if decode_known_spec(s, Encoding::Base58) is Ok {
        Some(Encoding::Base58)
    } else {
        None
    }
}

/// The encoding that an input is read in.
pub open spec fn used_encoding(s: Seq<char>, encoding: Encoding) -> Encoding {
    if encoding == Encoding::Auto {
        match detect_spec(s) {
            Some(e) => e,
            None => Encoding::Auto,
        }
    } else {
        encoding
    }
}

/// The packets that an input spells, in the given encoding or the one it seems to be in.
pub open spec fn parse_spec(s: Seq<char>, encoding: Encoding) -> Result<
    Seq<PacketView>,
    DomainFailure,
> {
    if trimmed(s).len() == 0 {
        Err(DomainFailure::NoShares)
    } else if used_encoding(trimmed(s), encoding) == Encoding::Auto {
        Err(DomainFailure::Undetected)
    } else {
        decode_known_spec(trimmed(s), used_encoding(trimmed(s), encoding))
    }
}

/// Writes a packet as text in the given encoding.
pub fn encode_packet(packet: &SharePacket, encoding: Encoding) -> (r: Result<String, DomainError>)
    ensures
        match r {
            Ok(s) => encode_packet_spec(packet@, encoding) == Ok::<Seq<char>, DomainFailure>(s@)
                && written(packet@, s@, encoding),
            Err(e) => encode_packet_spec(packet@, encoding) == Err::<Seq<char>, DomainFailure>(e@),
        },
{
    let r = match encoding {
        Encoding::Auto => {
            return Err(DomainError::AutoOutput);
        },
        Encoding::Base64 => ascii::encode_packet(packet, ascii::Encoding::Base64url),
        Encoding::Base58 => ascii::encode_packet(packet, ascii::Encoding::Base58check),
        Encoding::MnemoWords => mnemo_words::encode_packet(packet),
        Encoding::MnemoBip39 => mnemo_bip39::encode_packet(packet),
    };
    match r {
        Ok(s) => Ok(s),
        Err(e) => Err(DomainError::Codec { source: e }),
    }
}

/// Whether the encoding writes a packet in words.
pub open spec fn in_words(e: Encoding) -> bool {
    e == Encoding::MnemoWords || e == Encoding::MnemoBip39
}

/// Reads one packet from text in the given encoding. What `encode_packet` wrote for a
/// packet in that encoding is read back as that packet; for the encodings in words,
/// whatever the case of its letters has become.
pub fn decode_packet(s: &str, encoding: Encoding) -> (r: Result<SharePacket, DomainError>)
    ensures
        match r {
            Ok(p) => decode_packet_spec(s@, encoding) == Ok::<PacketView, DomainFailure>(p@),
            Err(e) => decode_packet_spec(s@, encoding) == Err::<PacketView, DomainFailure>(e@),
        },
        forall|p: PacketView|
            #![trigger written(p, s@, encoding)]
            well_formed(p) && written(p, s@, encoding) ==> r is Ok && r->Ok_0@ == p,
        forall|p: PacketView|
            #![trigger written(p, lowered(s@), encoding)]
            in_words(encoding) && well_formed(p) && written(p, lowered(s@), encoding) ==> r is Ok
                && r->Ok_0@ == p,
{
    let r = match encoding {
        Encoding::Auto => {
            return Err(DomainError::AutoInput);
        },
        Encoding::Base64 => ascii::decode_packet(s, ascii::Encoding::Base64url),
        Encoding::Base58 => ascii::decode_packet(s, ascii::Encoding::Base58check),
        Encoding::MnemoWords => mnemo_words::decode_packet(s),
        Encoding::MnemoBip39 => mnemo_bip39::decode_packet(s),
    };
    match r {
        Ok(p) => Ok(p),
        Err(e) => Err(DomainError::Codec { source: e }),
    }
}

/// The blocks of an input: its paragraphs, which blank lines part, each as one line.
pub fn split_blocks(input: &str) -> (r: Vec<String>)
    ensures
        r@.len() == blocks(input@).len(),
        forall|i: int| 0 <= i < r@.len() ==> (#[trigger] r@[i])@ == blocks(input@)[i],
{
    let chars = chars_of(input);
    let found = block_chars(chars.as_slice());
    let mut out: Vec<String> = Vec::new();
    let mut i: usize = 0;
    while i < found.len()
        invariant
            i <= found@.len(),
            out@.len() == i,
            forall|t: int| 0 <= t < i ==> (#[trigger] out@[t])@ == found@[t]@,
        decreases found@.len() - i,
    {
        out.push(string_of(found[i].as_slice()));
        i += 1;
    }
    out
}

/// The blocks of an input, as characters.
pub fn block_chars(input: &[char]) -> (r: Vec<Vec<char>>)
    ensures
        rows(r@) == blocks(input@),
{
    let normalized = to_unix_lines(input);
    let parts = split_paragraphs(normalized.as_slice());
    let ghost tidied = all_tidy(rows(parts@));
    let sep: Vec<char> = vec![' '];
    let mut out: Vec<Vec<char>> = Vec::new();
    let mut i: usize = 0;
    while i < parts.len()
        invariant
            i <= parts@.len(),
            sep@ == seq![' '],
            tidied == all_tidy(rows(parts@)),
            rows(out@) == non_empty(tidied.take(i as int)),
        decreases parts@.len() - i,
    {
        let lines = split_trimmed(parts[i].as_slice(), '\n');
        let line = join(&lines, sep.as_slice());
        let block = trim(line.as_slice());
        proof {
            assert(tidied.take(i + 1).drop_last() =~= tidied.take(i as int));
        }
        if block.len() > 0 {
            out.push(block);
        }
        i += 1;
    }
    assert(tidied.take(tidied.len() as int) =~= tidied);
    out
}

/// Once a text spells no packet, the texts up to any later one spell no packets either.
proof fn lemma_decode_each_fail(ts: Seq<Seq<char>>, encoding: Encoding, i: int, n: int)
    requires
        0 <= i < n <= ts.len(),
        decode_each(ts.take(i), encoding) is Ok,
        decode_packet_spec(ts[i], encoding) is Err,
    ensures
        decode_each(ts.take(n), encoding) == Err::<Seq<PacketView>, DomainFailure>(
            decode_packet_spec(ts[i], encoding)->Err_0,
        ),
    decreases n - i,
{
    assert(ts.take(n).drop_last() =~= ts.take(n - 1));
    if n - 1 != i {
        lemma_decode_each_fail(ts, encoding, i, n - 1);
    }
}

/// Reads the packets of texts in a known encoding, one packet from each text.
pub fn decode_texts(texts: &Vec<Vec<char>>, encoding: Encoding) -> (r: Result<
    Vec<SharePacket>,
    DomainError,
>)
    ensures
        match r {
            Ok(ps) => decode_each(rows(texts@), encoding) == Ok::<Seq<PacketView>, DomainFailure>(
                packet_views(ps@),
            ),
            Err(e) => decode_each(rows(texts@), encoding) == Err::<Seq<PacketView>, DomainFailure>(
                e@,
            ),
        },
{
    let ghost all = rows(texts@);
    let mut out: Vec<SharePacket> = Vec::new();
    let mut i: usize = 0;
    assert(packet_views(out@) =~= Seq::<PacketView>::empty());
    while i < texts.len()
        invariant
            i <= texts@.len(),
            all == rows(texts@),
            decode_each(all.take(i as int), encoding) == Ok::<Seq<PacketView>, DomainFailure>(
                packet_views(out@),
            ),
        decreases texts@.len() - i,
    {
        let text = string_of(texts[i].as_slice());
        proof {
            assert(all.take(i + 1).drop_last() =~= all.take(i as int));
        }
        match decode_packet(text.as_str(), encoding) {
            Ok(p) => {
                let ghost before = packet_views(out@);
                let ghost pv = p@;
                out.push(p);
                assert(packet_views(out@) =~= before.push(pv));
            },
            Err(e) => {
                proof {
                    lemma_decode_each_fail(all, encoding, i as int, all.len() as int);
                    assert(all.take(all.len() as int) =~= all);
                }
                return Err(e);
            },
        }
        i += 1;
    }
    assert(all.take(all.len() as int) =~= all);
    Ok(out)
}

/// Reads the packets of an input in a known encoding: one packet from each block for the
/// encodings in words, one from each word for the others.
pub fn decode_share_packets_known(input: &str, encoding: Encoding) -> (r: Result<
    Vec<SharePacket>,
    DomainError,
>)
    ensures
        match r {
            Ok(ps) => decode_known_spec(input@, encoding) == Ok::<Seq<PacketView>, DomainFailure>(
                packet_views(ps@),
            ),
            Err(e) => decode_known_spec(input@, encoding) == Err::<Seq<PacketView>, DomainFailure>(
                e@,
            ),
        },
{
    let chars = chars_of(input);
    match encoding {
        Encoding::Auto => Err(DomainError::AutoInput),
        Encoding::MnemoWords | Encoding::MnemoBip39 => {
            let texts = block_chars(chars.as_slice());
            decode_texts(&texts, encoding)
        },
        Encoding::Base64 | Encoding::Base58 => {
            let texts = split_whitespace(chars.as_slice());
            decode_texts(&texts, encoding)
        },
    }
}

/// Finds out the encoding that an input seems to be in.
pub fn detect_encoding(input: &str) -> (r: Result<Option<Encoding>, DomainError>)
    ensures
        r is Ok,
        r->Ok_0 == detect_spec(input@),
{
    let chars = chars_of(input);
    let found = block_chars(chars.as_slice());
    let mut i: usize = 0;
    while i < found.len()
        invariant
            i <= found@.len(),
            rows(found@) == blocks(input@),
            forall|t: int| 0 <= t < i ==> !(#[trigger] rows(found@)[t]).contains('/'),
        decreases found@.len() - i,
    {
        if contains_char(found[i].as_slice(), '/') {
            assert(rows(found@)[i as int].contains('/'));
            return Ok(Some(Encoding::MnemoBip39));
        }
        i += 1;
    }
    let mut i: usize = 0;
    while i < found.len()
        invariant
            i <= found@.len(),
            rows(found@) == blocks(input@),
            !any_slash(blocks(input@)),
            forall|t: int| 0 <= t < i ==> words(#[trigger] rows(found@)[t]).len() <= 1,
        decreases found@.len() - i,
    {
        let ws = split_whitespace(found[i].as_slice());
        if ws.len() > 1 {
            assert(words(rows(found@)[i as int]).len() > 1);
            return Ok(Some(Encoding::MnemoWords));
        }
        i += 1;
    }
    if decode_share_packets_known(input, Encoding::Base64).is_ok() {
        return Ok(Some(Encoding::Base64));
    }
    if decode_share_packets_known(input, Encoding::Base58).is_ok() {
        return Ok(Some(Encoding::Base58));
    }
    Ok(None)
}

/// Reads the packets of an input, in the given encoding or, for `Auto`, in the one that
/// the input seems to be in.
///
/// Fails for an input of white space only, for `Auto` when no encoding is found, and as
/// `decode_share_packets_known` does.
pub fn parse_share_packets(input: &str, encoding: Encoding) -> (r: Result<
    Vec<SharePacket>,
    DomainError,
>)
    ensures
        match r {
            Ok(ps) => parse_spec(input@, encoding) == Ok::<Seq<PacketView>, DomainFailure>(
                packet_views(ps@),
            ),
            Err(e) => parse_spec(input@, encoding) == Err::<Seq<PacketView>, DomainFailure>(e@),
        },
{
    let chars = chars_of(input);
    let core = trim(chars.as_slice());
    if core.len() == 0 {
        return Err(DomainError::NoShares);
    }
    let text = string_of(core.as_slice());
    let enc = pick_encoding(text.as_str(), encoding);
    match enc {
        Encoding::Auto => Err(DomainError::Undetected),
        _ => decode_share_packets_known(text.as_str(), enc),
    }
}

/// The encoding to read an input in: the given one, or for `Auto` the one that the input
/// seems to be in, which is `Auto` still if none is found.
pub fn pick_encoding(input: &str, encoding: Encoding) -> (r: Encoding)
    ensures
        r == used_encoding(input@, encoding),
{
    match encoding {
        Encoding::Auto => match detect_encoding(input) {
            Ok(Some(e)) => e,
            _ => Encoding::Auto,
        },
        _ => encoding,
    }
}

/// What combining the shares in an input gives: the packets, the secret, and the
/// encoding that the input was read in.
pub open spec fn combine_spec(
    s: Seq<char>,
    encoding: Encoding,
    passphrase: Option<Seq<u8>>,
) -> Result<(Seq<PacketView>, Seq<u8>, Encoding), DomainFailure> {
    match parse_spec(s, encoding) {
        Err(f) => Err(f),
        Ok(ps) => match combine_shares_spec(ps, passphrase) {
            Err(f) => Err(DomainFailure::Combine { source: f }),
            Ok(secret) => Ok((ps, secret, used_encoding(s, encoding))),
        },
    }
}

/// Whether a packet with a payload of `len` bytes, with or without crypto parameters, has
/// a text in an encoding: its binary form, of 29 bytes more, or 69 with crypto
/// parameters, is not too long for it.
pub open spec fn fits(len: int, encrypted: bool, encoding: Encoding) -> bool {
    let total = len + if encrypted {
        69int
    } else {
        29int
    };
    0 <= len <= u32::MAX && (match encoding {
        Encoding::Auto => false,
        Encoding::Base64 | Encoding::Base58 => total <= ascii::max_input_len(),
        Encoding::MnemoWords => total <= u32::MAX,
        Encoding::MnemoBip39 => mnemo_bip39::frame_count(total as nat) <= u16::MAX,
    })
}

/// A packet whose costs, if it has crypto parameters, are not zero has a text in an
/// encoding exactly where its payload fits.
pub proof fn lemma_fits(p: PacketView, encoding: Encoding)
    requires
        well_formed(p),
        p.crypto_params is Some ==> p.crypto_params->0.mem_cost_kib != 0
            && p.crypto_params->0.time_cost != 0 && p.crypto_params->0.parallelism != 0,
    ensures
        encode_packet_spec(p, encoding) is Ok <==> fits(
            p.payload.len() as int,
            p.crypto_params is Some,
            encoding,
        ),
{
}

/// Splits a secret and writes each share as text in the given encoding.
///
/// Fails with `Split` where the split itself fails, and else with the failure of the
/// first packet that has no text in the encoding. Without a passphrase, it succeeds for
/// every valid threshold and every secret whose shares fit the encoding.
pub fn split_secret(
    secret: &[u8],
    k: u8,
    n: u8,
    encoding: Encoding,
    passphrase: Option<&[u8]>,
) -> (r: Result<(Vec<SharePacket>, Vec<String>), DomainError>)
    ensures
        match r {
            Ok((packets, shares)) => {
                &&& protects(packet_views(packets@), secret@, pass_view(passphrase), k, n)
                &&& shares@.len() == packets@.len()
                &&& forall|i: int|
                    0 <= i < shares@.len() ==> written(
                        packets@[i]@,
                        (#[trigger] shares@[i])@,
                        encoding,
                    )
            },
            Err(e) => match e@ {
                DomainFailure::Split { k: k2, n: n2, source } => k2 == k && n2 == n && refuses(
                    source,
                    secret@,
                    pass_view(passphrase),
                    k,
                    n,
                ),
                DomainFailure::AutoOutput => encoding == Encoding::Auto && valid_threshold(k, n),
                DomainFailure::Codec { source } => exists|ps: Seq<PacketView>, i: int|
                    protects(ps, secret@, pass_view(passphrase), k, n) && 0 <= i < ps.len()
                        && encode_packet_spec(#[trigger] ps[i], encoding) == Err::<
                        Seq<char>,
                        DomainFailure,
                    >(DomainFailure::Codec { source }),
                _ => false,
            },
        },
        fits(payload_len(secret@.len() as int, passphrase is Some), passphrase is Some, encoding)
            ==> (match r {
            Ok(_) => true,
            Err(e) => e@ is Split,
        }),
        passphrase is None && valid_threshold(k, n) && fits(
            payload_len(secret@.len() as int, false),
            false,
            encoding,
        ) ==> r is Ok,
{
    let packets = match crate::split_secret(secret, k, n, passphrase) {
        Ok(p) => p,
        Err(e) => {
            return Err(DomainError::Split { k, n, source: e });
        },
    };
    let ghost ps = packet_views(packets@);
    let mut shares: Vec<String> = Vec::new();
    let mut i: usize = 0;
    while i < packets.len()
        invariant
            i <= packets@.len(),
            shares@.len() == i,
            ps == packet_views(packets@),
            protects(ps, secret@, pass_view(passphrase), k, n),
            forall|t: int|
                0 <= t < i ==> written(packets@[t]@, (#[trigger] shares@[t])@, encoding),
        decreases packets@.len() - i,
    {
        match encode_packet(&packets[i], encoding) {
            Ok(s) => {
                shares.push(s);
            },
            Err(e) => {
                proof {
                    lemma_packet_shape(ps, secret@, pass_view(passphrase), k, n, i as int);
                    lemma_fits(ps[i as int], encoding);
                }
                return Err(e);
            },
        }
        i += 1;
    }
    Ok((packets, shares))
}

/// Reads the shares in an input and combines them.
///
/// Gives back the packets, the secret, and the encoding that the input was read in.
pub fn combine_shares(input: &str, encoding: Encoding, passphrase: Option<&[u8]>) -> (r: Result<
    (Vec<SharePacket>, Vec<u8>, Encoding),
    DomainError,
>)
    ensures
        match r {
            Ok((packets, secret, used)) => combine_spec(input@, encoding, pass_view(passphrase))
                == Ok::<(Seq<PacketView>, Seq<u8>, Encoding), DomainFailure>(
                (packet_views(packets@), secret@, used),
            ),
            Err(e) => combine_spec(input@, encoding, pass_view(passphrase)) == Err::<
                (Seq<PacketView>, Seq<u8>, Encoding),
                DomainFailure,
            >(e@),
        },
{
    let packets = match parse_share_packets(input, encoding) {
        Ok(p) => p,
        Err(e) => {
            return Err(e);
        },
    };
    let used = pick_encoding(input, encoding);
    let secret = match crate::combine_shares(packets.as_slice(), passphrase) {
        Ok(s) => s,
        Err(e) => {
            return Err(DomainError::Combine { source: e });
        },
    };
    Ok((packets, secret, used))
}

/// The identifier of the packets' set, in hexadecimal; `None` where there is no packet.
pub fn set_id_hex(packets: &[SharePacket]) -> (r: Option<String>)
    ensures
        match r {
            Some(s) => packets@.len() > 0 && s@ == hex(packets@[0].set_id.0@),
            None => packets@.len() == 0,
        },
{
    if packets.len() == 0 {
        return None;
    }
    let digits = hex_digits(packets[0].set_id.0.as_slice());
    Some(string_of(digits.as_slice()))
}

/// The encoding `delta` places after `current` among `allowed`, going round at the ends;
/// an encoding that is not among them counts as the first.
pub fn cycle_encoding(current: Encoding, delta: i32, allowed: &[Encoding]) -> (r: Encoding)
    requires
        0 < allowed@.len() <= i32::MAX,
    ensures
        allowed@.contains(r),
        r == allowed@[(position(allowed@, current) + delta) % (allowed@.len() as int)],
{
    let mut idx: usize = 0;
    let mut i: usize = 0;
    let mut found = false;
    while i < allowed.len() && !found
        invariant
            i <= allowed@.len(),
            !found ==> forall|t: int| 0 <= t < i ==> allowed@[t] != current,
            found ==> idx < allowed@.len() && allowed@[idx as int] == current && forall|t: int|
                0 <= t < idx ==> allowed@[t] != current,
            !found ==> idx == 0,
        decreases allowed@.len() - i + (if found {
            0int
        } else {
            1int
        }),
    {
        if allowed[i] == current {
            idx = i;
            found = true;
        } else {
            i += 1;
        }
    }
    proof {
        lemma_position(allowed@, current, 0, if found {
            idx as int
        } else {
            allowed@.len() as int
        });
    }
    let len = allowed.len() as i64;
    let sum = idx as i64 + delta as i64 + len * 0x1_0000_0000;
    let next = sum % len;
    proof {
        let m = allowed@.len() as int;
        let s = position(allowed@, current) + delta;
        vstd::arithmetic::div_mod::lemma_mod_multiples_vanish(0x1_0000_0000, s, m);
    }
    allowed[next as usize]
}

/// The first place of `e` among `allowed` from `from` on, or zero if it has none.
pub open spec fn position_from(allowed: Seq<Encoding>, e: Encoding, from: int) -> int
    decreases allowed.len() - from,
{
    if from >= allowed.len() || from < 0 {
        0
    } else if allowed[from] == e {
        from
    } else {
        position_from(allowed, e, from + 1)
    }
}

/// The first place of `e` among `allowed`, or zero if it has none.
pub open spec fn position(allowed: Seq<Encoding>, e: Encoding) -> int {
    position_from(allowed, e, 0)
}

/// The place of an encoding is the first place where it is found.
proof fn lemma_position(allowed: Seq<Encoding>, e: Encoding, from: int, at: int)
    requires
        0 <= from <= at <= allowed.len(),
        forall|t: int| from <= t < at ==> allowed[t] != e,
        at < allowed.len() ==> allowed[at] == e,
    ensures
        position_from(allowed, e, from) == (if at < allowed.len() {
            at
        } else {
            0
        }),
    decreases at - from,
{
    if from < at {
        lemma_position(allowed, e, from + 1, at);
    }
}

/// A passphrase as it is shown: a bullet for each of its characters, twelve at most, and
/// its length; `(none)` for an empty one.
pub open spec fn masked_spec(p: Seq<char>) -> Seq<char> {
    if p.len() == 0 {
        "(none)"@
    } else {
        Seq::new(
            if p.len() < 12 {
                p.len()
            } else {
                12
            },
            |i: int| '\u{2022}',
        ) + " (len="@ + decimal(p.len()) + ")"@
    }
}

/// A passphrase as it is shown, without its characters.
pub fn masked_passphrase(p: &str) -> (r: String)
    ensures
        r@ == masked_spec(p@),
{
    let chars = chars_of(p);
    if chars.len() == 0 {
        return String::from_str("(none)");
    }
    let len = chars.len();
    let shown: usize = if len < 12 {
        len
    } else {
        12
    };
    let mut bullets: Vec<char> = Vec::new();
    let mut i: usize = 0;
    while i < shown
        invariant
            i <= shown,
            bullets@ == Seq::new(i as nat, |t: int| '\u{2022}'),
        decreases shown - i,
    {
        bullets.push('\u{2022}');
        assert(bullets@ =~= Seq::new((i + 1) as nat, |t: int| '\u{2022}'));
        i += 1;
    }
    string_of(bullets.as_slice()).concat(" (len=").concat(number(len as u64).as_str()).concat(")")
}

/// The longest text that is shown in full: 36 bytes.
pub const PREVIEW_LEN: usize = 36;

/// A text with an ellipsis after it.
pub open spec fn cut_short(head: Seq<char>) -> Seq<char> {
    head + "\u{2026}"@
}

/// Whether `r` is the preview of `s`: `s` itself if it has at most 36 bytes, its first 36
/// bytes and an ellipsis if it has more.
pub open spec fn is_preview(r: Seq<char>, s: Seq<char>) -> bool {
    if encode_utf8(s).len() <= 36 {
        r == s
    } else {
        exists|head: Seq<char>|
            encode_utf8(head) == encode_utf8(s).subrange(0, 36) && r == #[trigger] cut_short(head)
    }
}

/// A text as it is shown in a list: cut off after 36 bytes, which must not cut a character
/// in two.
pub fn preview(s: &str) -> (r: String)
    requires
        s.spec_bytes().len() > 36 ==> s.is_char_boundary(36),
    ensures
        is_preview(r@, s@),
{
    broadcast use vstd::utf8::encode_utf8_valid_utf8;

    if s.as_bytes().len() <= PREVIEW_LEN {
        String::from_str(s)
    } else {
        let (head, _) = s.split_at(PREVIEW_LEN);
        let r = String::from_str(head).concat("\u{2026}");
        assert(encode_utf8(head@) == encode_utf8(s@).subrange(0, 36));
        assert(r@ == cut_short(head@));
        r
    }
}

} // verus!
