//! What the command line does with its input between reading and writing.

use crate::domain;
use crate::domain::{decode_each, DomainError, DomainFailure};
use crate::error::{message_spec, CoreError, CoreResult, Failure};
use crate::packet::{packet_views, PacketView, SharePacket};
use crate::text::{
    chars_of, contains_char, rows, solid_pieces, split_trimmed, split_whitespace, words,
};
use vstd::prelude::*;
use vstd::string::StringExecFns;

verus! {

/// The encodings that the command line knows.
#[derive(Clone, Copy, Debug, PartialEq, Eq, Structural)]
pub enum CliEncoding {
    Base64,
    Base58,
    MnemoWords,
    MnemoBip39,
}

/// What can go wrong while the command line reads shares.
#[derive(Debug)]
pub enum CliError {
    /// The input holds no share.
    NoShares,
    /// The encoding of the input could not be found out.
    Undetected,
    /// A share could not be read.
    Codec { source: CoreError },
}

/// The mathematical content of a `CliError`.
pub enum CliFailure {
    NoShares,
    Undetected,
    Codec { source: Failure },
}

impl View for CliError {
    type V = CliFailure;

    open spec fn view(&self) -> CliFailure {
        match *self {
            CliError::NoShares => CliFailure::NoShares,
            CliError::Undetected => CliFailure::Undetected,
            CliError::Codec { source } => CliFailure::Codec { source: source@ },
        }
    }
}

/// What an error of the command line says in words.
pub open spec fn cli_message(f: CliFailure) -> Seq<char> {
    match f {
        CliFailure::NoShares => "no shares provided"@,
        CliFailure::Undetected => "could not detect share encoding; try --encoding"@,
        CliFailure::Codec { source } => message_spec(source),
    }
}

impl CliError {
    /// What the error says in words.
    pub fn message(&self) -> (r: String)
        ensures
            r@ == cli_message(self@),
    {
        match self {
            CliError::NoShares => String::from_str("no shares provided"),
            CliError::Undetected => String::from_str(
                "could not detect share encoding; try --encoding",
            ),
            CliError::Codec { source } => source.message(),
        }
    }
}

/// The encoding as the rest of the library names it.
pub open spec fn as_domain(e: CliEncoding) -> domain::Encoding {
    match e {
        CliEncoding::Base64 => domain::Encoding::Base64,
        CliEncoding::Base58 => domain::Encoding::Base58,
        CliEncoding::MnemoWords => domain::Encoding::MnemoWords,
        CliEncoding::MnemoBip39 => domain::Encoding::MnemoBip39,
    }
}

impl CliEncoding {
    /// The encoding as the rest of the library names it.
    pub fn to_domain(self) -> (r: domain::Encoding)
        ensures
            r == as_domain(self),
    {
        match self {
            CliEncoding::Base64 => domain::Encoding::Base64,
            CliEncoding::Base58 => domain::Encoding::Base58,
            CliEncoding::MnemoWords => domain::Encoding::MnemoWords,
            CliEncoding::MnemoBip39 => domain::Encoding::MnemoBip39,
        }
    }
}

/// A result of the library's texts as a core result.
pub open spec fn core_of<T>(r: Result<T, DomainFailure>) -> Result<T, Failure> {
    match r {
        Ok(v) => Ok(v),
        Err(DomainFailure::Codec { source }) => Err(source),
        Err(_) => Err(Failure::Encoding("auto"@)),
    }
}

/// The lines of an input, trimmed, the empty ones left out.
pub open spec fn nonempty_lines(s: Seq<char>) -> Seq<Seq<char>> {
    solid_pieces(s, '\n')
}

/// The texts of the single shares: the lines for the encodings in words, the words of the
/// whole input for the others.
pub open spec fn share_texts(lines: Seq<Seq<char>>, full: Seq<char>, encoding: CliEncoding) -> Seq<
    Seq<char>,
> {
    match encoding {
        CliEncoding::MnemoWords | CliEncoding::MnemoBip39 => lines,
        _ => words(full),
    }
}

/// The packets that an input spells in a known encoding.
pub open spec fn decode_known_spec(
    lines: Seq<Seq<char>>,
    full: Seq<char>,
    encoding: CliEncoding,
) -> Result<Seq<PacketView>, Failure> {
    core_of(decode_each(share_texts(lines, full, encoding), as_domain(encoding)))
}

/// Whether one of the lines holds a slash.
pub open spec fn any_slash(lines: Seq<Seq<char>>) -> bool {
    exists|i: int| 0 <= i < lines.len() && (#[trigger] lines[i]).contains('/')
}

/// Whether one of the lines holds more than one word.
pub open spec fn any_sentence(lines: Seq<Seq<char>>) -> bool {
    exists|i: int| 0 <= i < lines.len() && words(#[trigger] lines[i]).len() > 1
}

/// The packets that an input spells in the encoding that it seems to be in: BIP39 phrases
/// if a line holds a slash, words if a line holds more than one word, else Base64 if it
/// reads as that, else Base58Check if it reads as that.
pub open spec fn decode_auto_spec(lines: Seq<Seq<char>>, full: Seq<char>) -> Result<
    Seq<PacketView>,
    CliFailure,
> {
    if any_slash(lines) {
        cli_of(decode_known_spec(lines, full, CliEncoding::MnemoBip39))
    } else if any_sentence(lines) {
        cli_of(decode_known_spec(lines, full, CliEncoding::MnemoWords))
    } else if decode_known_spec(lines, full, CliEncoding::Base64) is Ok {
        cli_of(decode_known_spec(lines, full, CliEncoding::Base64))
    } else if decode_known_spec(lines, full, CliEncoding::Base58) is Ok {
        cli_of(decode_known_spec(lines, full, CliEncoding::Base58))
    } else {
        Err(CliFailure::Undetected)
    }
}

/// A core result as a result of the command line.
pub open spec fn cli_of<T>(r: Result<T, Failure>) -> Result<T, CliFailure> {
    match r {
        Ok(v) => Ok(v),
        Err(f) => Err(CliFailure::Codec { source: f }),
    }
}

/// The packets that an input spells, in the given encoding or the one it seems to be in.
pub open spec fn parse_spec(s: Seq<char>, encoding: Option<CliEncoding>) -> Result<
    Seq<PacketView>,
    CliFailure,
> {
    if nonempty_lines(s).len() == 0 {
        Err(CliFailure::NoShares)
    } else {
        match encoding {
            Some(e) => cli_of(decode_known_spec(nonempty_lines(s), s, e)),
            None => decode_auto_spec(nonempty_lines(s), s),
        }
    }
}

/// Writes a packet as text in the given encoding.
pub fn encode_packet_cli(packet: &SharePacket, encoding: CliEncoding) -> (r: CoreResult<String>)
    ensures
        match r {
            Ok(s) => core_of(domain::encode_packet_spec(packet@, as_domain(encoding))) == Ok::<
                Seq<char>,
                Failure,
            >(s@) && domain::written(packet@, s@, as_domain(encoding)),
            Err(e) => core_of(domain::encode_packet_spec(packet@, as_domain(encoding))) == Err::<
                Seq<char>,
                Failure,
            >(e@),
        },
{
    match domain::encode_packet(packet, encoding.to_domain()) {
        Ok(s) => Ok(s),
        Err(e) => Err(core_error(e)),
    }
}

/// The core error inside an error of the library's texts.
fn core_error(e: DomainError) -> (r: CoreError)
    ensures
        core_of(Err::<(), DomainFailure>(e@)) == Err::<(), Failure>(r@),
{
    match e {
        DomainError::Codec { source } => source,
        _ => CoreError::Encoding(String::from_str("auto")),
    }
}

/// Reads the packets of an input in a known encoding: one from each line for the
/// encodings in words, one from each word of the whole input for the others.
pub fn decode_share_packets_known(
    nonempty_lines: &Vec<Vec<char>>,
    full_input: &[char],
    encoding: CliEncoding,
) -> (r: CoreResult<Vec<SharePacket>>)
    ensures
        match r {
            Ok(ps) => decode_known_spec(rows(nonempty_lines@), full_input@, encoding) == Ok::<
                Seq<PacketView>,
                Failure,
            >(packet_views(ps@)),
            Err(e) => decode_known_spec(rows(nonempty_lines@), full_input@, encoding) == Err::<
                Seq<PacketView>,
                Failure,
            >(e@),
        },
{
    let decoded = match encoding {
        CliEncoding::MnemoWords | CliEncoding::MnemoBip39 => domain::decode_texts(
            nonempty_lines,
            encoding.to_domain(),
        ),
        CliEncoding::Base64 | CliEncoding::Base58 => {
            let tokens = split_whitespace(full_input);
            domain::decode_texts(&tokens, encoding.to_domain())
        },
    };
    match decoded {
        Ok(ps) => Ok(ps),
        Err(e) => Err(core_error(e)),
    }
}

/// Reads the packets of an input in the encoding that it seems to be in.
pub fn decode_share_packets_auto(nonempty_lines: &Vec<Vec<char>>, full_input: &[char]) -> (r: Result<
    Vec<SharePacket>,
    CliError,
>)
    ensures
        match r {
            Ok(ps) => decode_auto_spec(rows(nonempty_lines@), full_input@) == Ok::<
                Seq<PacketView>,
                CliFailure,
            >(packet_views(ps@)),
            Err(e) => decode_auto_spec(rows(nonempty_lines@), full_input@) == Err::<
                Seq<PacketView>,
                CliFailure,
            >(e@),
        },
{
    let ghost lines = rows(nonempty_lines@);
    let mut i: usize = 0;
    while i < nonempty_lines.len()
        invariant
            i <= nonempty_lines@.len(),
            lines == rows(nonempty_lines@),
            forall|t: int| 0 <= t < i ==> !(#[trigger] lines[t]).contains('/'),
        decreases nonempty_lines@.len() - i,
    {
        if contains_char(nonempty_lines[i].as_slice(), '/') {
            assert(lines[i as int].contains('/'));
            return wrap(
                decode_share_packets_known(nonempty_lines, full_input, CliEncoding::MnemoBip39),
            );
        }
        i += 1;
    }
    let mut i: usize = 0;
    while i < nonempty_lines.len()
        invariant
            i <= nonempty_lines@.len(),
            lines == rows(nonempty_lines@),
            !any_slash(lines),
            forall|t: int| 0 <= t < i ==> words(#[trigger] lines[t]).len() <= 1,
        decreases nonempty_lines@.len() - i,
    {
        let ws = split_whitespace(nonempty_lines[i].as_slice());
        if ws.len() > 1 {
            assert(words(lines[i as int]).len() > 1);
            return wrap(
                decode_share_packets_known(nonempty_lines, full_input, CliEncoding::MnemoWords),
            );
        }
        i += 1;
    }
    let base64_attempt = decode_share_packets_known(
        nonempty_lines,
        full_input,
        CliEncoding::Base64,
    );
    if base64_attempt.is_ok() {
        return wrap(base64_attempt);
    }
    let base58_attempt = decode_share_packets_known(
        nonempty_lines,
        full_input,
        CliEncoding::Base58,
    );
    if base58_attempt.is_ok() {
        return wrap(base58_attempt);
    }
    Err(CliError::Undetected)
}

/// A core result as a result of the command line.
fn wrap(r: CoreResult<Vec<SharePacket>>) -> (w: Result<Vec<SharePacket>, CliError>)
    ensures
        match (r, w) {
            (Ok(a), Ok(b)) => a == b,
            (Err(e), Err(CliError::Codec { source })) => e == source,
            _ => false,
        },
{
    match r {
        Ok(ps) => Ok(ps),
        Err(e) => Err(CliError::Codec { source: e }),
    }
}

/// Reads the packets of an input, in the given encoding or, without one, in the one that
/// the input seems to be in.
///
/// Fails for an input without a line that is not blank, and as the decoding does.
pub fn parse_share_packets(input: &str, encoding: Option<CliEncoding>) -> (r: Result<
    Vec<SharePacket>,
    CliError,
>)
    ensures
        match r {
            Ok(ps) => parse_spec(input@, encoding) == Ok::<Seq<PacketView>, CliFailure>(
                packet_views(ps@),
            ),
            Err(e) => parse_spec(input@, encoding) == Err::<Seq<PacketView>, CliFailure>(e@),
        },
{
    let chars = chars_of(input);
    let lines = split_trimmed(chars.as_slice(), '\n');
    if lines.len() == 0 {
        return Err(CliError::NoShares);
    }
    match encoding {
        Some(enc) => wrap(decode_share_packets_known(&lines, chars.as_slice(), enc)),
        None => decode_share_packets_auto(&lines, chars.as_slice()),
    }
}

/// `bytes` without the line feeds and carriage returns at its end.
pub open spec fn without_line_ends(bytes: Seq<u8>) -> Seq<u8>
    decreases bytes.len(),
{
    if bytes.len() > 0 && (bytes.last() == 0x0a || bytes.last() == 0x0d) {
        without_line_ends(bytes.drop_last())
    } else {
        bytes
    }
}

/// Takes the line feeds and carriage returns off the end of a passphrase that was read
/// from a file.
pub fn strip_line_ends(bytes: &mut Vec<u8>)
    ensures
        final(bytes)@ == without_line_ends(old(bytes)@),
{
    while bytes.len() > 0 && (bytes[bytes.len() - 1] == 0x0a || bytes[bytes.len() - 1] == 0x0d)
        invariant
            without_line_ends(bytes@) == without_line_ends(old(bytes)@),
        decreases bytes@.len(),
    {
        bytes.pop();
    }
}

} // verus!
