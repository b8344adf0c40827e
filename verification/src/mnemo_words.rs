//! Packets as words: the framed bytes in groups of eleven bits.

use crate::bits::{
    byte_bits, bytes_to_indices, in_range, indices_to_bytes, lemma_byte_from_bits,
    lemma_changed_index, lemma_unpacking_of_packing, lemma_unpacks_exist, packing, unpacking,
};
use crate::crc::{burst, lemma_crc_notices_burst};
use crate::error::{encoding_error, outcome_view, CoreError, CoreResult, Failure};
use crate::packet::{
    be32, be32_value, copy_range, decode_spec, encode_spec, lemma_be32_round_trip,
    lemma_binary_round_trip, length_offset, magic, push_all, push_be32, read_be32,
    well_formed, PacketView, SharePacket,
};
use crate::text::{
    any_upper, chars_of, has_upper, is_upper, join, joined, lemma_joined_lowered,
    lemma_lowered_same, lemma_lowered_words, lemma_words_of_joined, lowercase, lowered,
    lowered_all, rows, same_chars, slice_chars, split_whitespace, string_of, words,
};
use vstd::prelude::*;
use vstd::string::StringExecFns;

verus! {

/// The word at `idx` of BIP39's English word list, for `0 <= idx < 2048`.
pub uninterp spec fn english_word(idx: int) -> Seq<char>;

/// A word of the letters `a ..= z`, at least one of them.
pub open spec fn plain_word(w: Seq<char>) -> bool {
    w.len() > 0 && forall|i: int| 0 <= i < w.len() ==> 'a' <= #[trigger] w[i] <= 'z'
}

/// Reads the word at `idx` from `word_list` of bip39's `Language::English`. The word is
/// named `english_word`; it is made of lower-case letters, and the list holds it only once.
#[verifier::external_body]
fn word_at(idx: u16) -> (w: &'static str)
    requires
        idx < 2048,
    ensures
        w@ == english_word(idx as int),
        plain_word(w@),
        forall|j: int| 0 <= j < 2048 && j != idx ==> #[trigger] english_word(j) != w@,
{
    bip39::Language::English.word_list()[idx as usize]
}

/// The list holds plain words only, and no word twice.
pub open spec fn list_is_sound() -> bool {
    &&& forall|i: int| 0 <= i < 2048 ==> plain_word(#[trigger] english_word(i))
    &&& forall|i: int, j: int|
        0 <= i < 2048 && 0 <= j < 2048 && i != j ==> #[trigger] english_word(i)
            != #[trigger] english_word(j)
}

/// `list` is the word list, from its first word to its last.
pub open spec fn is_english_list(list: Seq<Seq<char>>) -> bool {
    &&& list.len() == 2048
    &&& forall|j: int| 0 <= j < 2048 ==> #[trigger] list[j] == english_word(j)
}

/// The word list, read once.
pub fn english_words() -> (list: Vec<Vec<char>>)
    ensures
        is_english_list(rows(list@)),
        list_is_sound(),
{
    let mut list: Vec<Vec<char>> = Vec::new();
    let mut j: u16 = 0;
    while j < 2048
        invariant
            j <= 2048,
            list@.len() == j,
            forall|t: int| 0 <= t < j ==> (#[trigger] list@[t])@ == english_word(t),
            forall|t: int| 0 <= t < j ==> plain_word(#[trigger] english_word(t)),
            forall|a: int, b: int|
                0 <= a < j && 0 <= b < 2048 && a != b ==> #[trigger] english_word(a)
                    != #[trigger] english_word(b),
        decreases 2048 - j,
    {
        let w = chars_of(word_at(j));
        list.push(w);
        j += 1;
    }
    assert forall|t: int| 0 <= t < 2048 implies #[trigger] rows(list@)[t] == english_word(t) by {
    }
    list
}

/// One step of the CRC's shift register, for the polynomial `0x1021`.
pub open spec fn crc_shift(crc: u16) -> u16 {
    if crc & 0x8000 != 0 {
        (crc << 1) ^ 0x1021
    } else {
        crc << 1
    }
}

/// `n` steps of the shift register.
pub open spec fn crc_shifts(crc: u16, n: nat) -> u16
    decreases n,
{
    if n == 0 {
        crc
    } else {
        crc_shift(crc_shifts(crc, (n - 1) as nat))
    }
}

/// The register after one more byte: the byte is added to its high half, then it is
/// shifted eight times.
pub open spec fn crc_feed(crc: u16, b: u8) -> u16 {
    crc_shifts(crc ^ ((b as u16) << 8), 8)
}

/// The CRC-16 of `bytes` in the variant CCITT-FALSE: polynomial `0x1021`, start value
/// `0xFFFF`, nothing reflected, nothing added at the end.
pub open spec fn crc16(bytes: Seq<u8>) -> u16
    decreases bytes.len(),
{
    if bytes.len() == 0 {
        0xFFFF
    } else {
        crc_feed(crc16(bytes.drop_last()), bytes.last())
    }
}

/// The two bytes of `v`, the higher first.
pub open spec fn be16(v: u16) -> Seq<u8> {
    seq![(v / 0x100) as u8, (v % 0x100) as u8]
}

/// The number that two bytes spell, the higher first.
pub open spec fn be16_value(b: Seq<u8>) -> u16 {
    (b[0] as int * 0x100 + b[1] as int) as u16
}

/// A packet's binary form in its frame: its length in four bytes, the form itself, and
/// the CRC of both in two bytes.
pub open spec fn framed(bin: Seq<u8>) -> Seq<u8> {
    be32(bin.len() as u32) + bin + be16(crc16(be32(bin.len() as u32) + bin))
}

/// The words at the indices `ix`.
pub open spec fn word_texts(ix: Seq<u16>) -> Seq<Seq<char>> {
    Seq::new(ix.len(), |i: int| english_word(ix[i] as int))
}

/// The words at the indices `ix`, with single spaces between them.
pub open spec fn sentence(ix: Seq<u16>) -> Seq<char> {
    joined(word_texts(ix), seq![' '])
}

/// The text of a packet in words, or why it has none.
pub open spec fn encode_packet_spec(p: PacketView) -> Result<Seq<char>, Failure> {
    match encode_spec(p) {
        Err(f) => Err(f),
        Ok(bin) => if bin.len() > u32::MAX {
            Err(Failure::Encoding("packet too large"@))
        } else {
            Ok(sentence(packing(framed(bin))))
        },
    }
}

/// `text` is what `encode_packet` writes for the packet `p`.
pub open spec fn written(p: PacketView, text: Seq<char>) -> bool {
    encode_packet_spec(p) == Ok::<Seq<char>, Failure>(text)
}

/// The first index from `from` on at which the list holds `w`.
pub open spec fn first_index(w: Seq<char>, from: int) -> Option<u16>
    decreases 2048 - from,
{
    if from >= 2048 || from < 0 {
        None
    } else if english_word(from) == w {
        Some(from as u16)
    } else {
        first_index(w, from + 1)
    }
}

/// The index of `w` in the list, as it is written.
pub open spec fn index_of(w: Seq<char>) -> Option<u16> {
    first_index(w, 0)
}

/// The index of `w` in the list; a word with upper-case letters that is not in the list
/// as it is written is looked up in lower case.
pub open spec fn lookup(w: Seq<char>) -> Option<u16> {
    match index_of(w) {
        Some(i) => Some(i),
        None => if has_upper(w) {
            index_of(lowered(w))
        } else {
            None
        },
    }
}

/// The indices of the words `ws`, or the first of them that the list does not hold.
pub open spec fn indices_of(ws: Seq<Seq<char>>) -> Result<Seq<u16>, Failure>
    decreases ws.len(),
{
    if ws.len() == 0 {
        Ok(Seq::empty())
    } else {
        match indices_of(ws.drop_last()) {
            Err(f) => Err(f),
            Ok(ix) => match lookup(ws.last()) {
                None => Err(Failure::Encoding("unknown word: "@ + ws.last())),
                Some(i) => Ok(ix.push(i)),
            },
        }
    }
}

/// The bytes that the words `ws` spell, or the first of them that the list does not hold.
pub open spec fn words_to_bytes_spec(ws: Seq<Seq<char>>) -> Result<Seq<u8>, Failure> {
    match indices_of(ws) {
        Err(f) => Err(f),
        Ok(ix) => Ok(unpacking(ix)),
    }
}

/// The packet bytes inside a frame, or what is wrong with the frame.
pub open spec fn unframe_spec(bytes: Seq<u8>) -> Result<Seq<u8>, Failure> {
    if bytes.len() < 6 {
        Err(Failure::Encoding("mnemo-words payload too short"@))
    } else if 4 + be32_value(bytes.subrange(0, 4)) + 2 > usize::MAX {
        Err(Failure::Encoding("mnemo-words length overflow"@))
    } else if bytes.len() < 4 + be32_value(bytes.subrange(0, 4)) + 2 {
        Err(Failure::Encoding("mnemo-words truncated"@))
    } else if be16_value(
        bytes.subrange(
            4 + be32_value(bytes.subrange(0, 4)),
            4 + be32_value(bytes.subrange(0, 4)) + 2,
        ),
    ) != crc16(bytes.subrange(0, 4 + be32_value(bytes.subrange(0, 4)))) {
        Err(Failure::Encoding("mnemo-words crc mismatch"@))
    } else {
        Ok(bytes.subrange(4, 4 + be32_value(bytes.subrange(0, 4))))
    }
}

/// The packet that the words of `s` spell, or why they spell none.
pub open spec fn decode_packet_spec(s: Seq<char>) -> Result<PacketView, Failure> {
    if words(s).len() == 0 {
        Err(Failure::Encoding("no words provided"@))
    } else {
        match words_to_bytes_spec(words(s)) {
            Err(f) => Err(f),
            Ok(bytes) => match unframe_spec(bytes) {
                Err(f) => Err(f),
                Ok(bin) => decode_spec(bin),
            },
        }
    }
}

/// The CRC-16 of `bytes` in the variant CCITT-FALSE.
pub fn crc16_ccitt_false(bytes: &[u8]) -> (crc: u16)
    ensures
        crc == crc16(bytes@),
{
    let mut crc: u16 = 0xFFFF;
    let mut i: usize = 0;
    while i < bytes.len()
        invariant
            i <= bytes@.len(),
            crc == crc16(bytes@.take(i as int)),
        decreases bytes@.len() - i,
    {
        let ghost start = crc ^ ((bytes@[i as int] as u16) << 8);
        crc = crc ^ ((bytes[i] as u16) << 8);
        let mut j: u8 = 0;
        while j < 8
            invariant
                j <= 8,
                crc == crc_shifts(start, j as nat),
            decreases 8 - j,
        {
            if (crc & 0x8000) != 0 {
                crc = (crc << 1) ^ 0x1021;
            } else {
                crc = crc << 1;
            }
            j += 1;
        }
        proof {
            let next = bytes@.take(i + 1);
            assert(next.drop_last() =~= bytes@.take(i as int));
        }
        i += 1;
    }
    assert(bytes@.take(bytes@.len() as int) =~= bytes@);
    crc
}

/// Looks a word up in the list, as it is written.
pub fn find_word(list: &Vec<Vec<char>>, w: &[char]) -> (r: Option<u16>)
    requires
        is_english_list(rows(list@)),
    ensures
        r == index_of(w@),
        match r {
            Some(i) => i < 2048 && english_word(i as int) == w@,
            None => forall|j: int| 0 <= j < 2048 ==> #[trigger] english_word(j) != w@,
        },
{
    let mut j: u16 = 0;
    while j < 2048
        invariant
            j <= 2048,
            is_english_list(rows(list@)),
            index_of(w@) == first_index(w@, j as int),
            forall|t: int| 0 <= t < j ==> #[trigger] english_word(t) != w@,
        decreases 2048 - j,
    {
        assert(rows(list@)[j as int] == list@[j as int]@);
        if same_chars(list[j as usize].as_slice(), w) {
            return Some(j);
        }
        j += 1;
    }
    None
}

/// Looks a word up in the list; a word with upper-case letters that is not in the list as
/// it is written is looked up in lower case.
pub fn lookup_word(list: &Vec<Vec<char>>, w: &[char]) -> (r: Option<u16>)
    requires
        is_english_list(rows(list@)),
    ensures
        r == lookup(w@),
        r is Some ==> r->0 < 2048,
{
    match find_word(list, w) {
        Some(i) => Some(i),
        None => {
            if any_upper(w) {
                let low = lowercase(w);
                find_word(list, low.as_slice())
            } else {
                None
            }
        },
    }
}

/// The words that spell `bytes`: the bits of the bytes in groups of eleven, each group an
/// index into the word list.
pub fn bytes_to_words(bytes: &[u8]) -> (r: Vec<Vec<char>>)
    ensures
        rows(r@) == word_texts(packing(bytes@)),
{
    let list = english_words();
    let ix = bytes_to_indices(bytes);
    let mut out: Vec<Vec<char>> = Vec::new();
    let mut i: usize = 0;
    while i < ix.len()
        invariant
            i <= ix@.len(),
            in_range(ix@),
            is_english_list(rows(list@)),
            out@.len() == i,
            forall|t: int| 0 <= t < i ==> (#[trigger] out@[t])@ == english_word(ix@[t] as int),
        decreases ix@.len() - i,
    {
        let at = ix[i] as usize;
        let word = &list[at];
        assert(rows(list@)[at as int] == word@);
        let copy = slice_chars(word.as_slice(), 0, word.len());
        out.push(copy);
        i += 1;
    }
    out
}

/// The bytes that the words `ws` spell: each word's index in eleven bits, the bits in
/// groups of eight.
pub fn words_to_bytes(ws: &Vec<Vec<char>>) -> (r: CoreResult<Vec<u8>>)
    ensures
        outcome_view(r) == words_to_bytes_spec(rows(ws@)),
{
    let list = english_words();
    words_to_bytes_with(&list, ws)
}

/// The bytes that the words `ws` spell, looked up in the list that was read.
fn words_to_bytes_with(list: &Vec<Vec<char>>, ws: &Vec<Vec<char>>) -> (r: CoreResult<Vec<u8>>)
    requires
        is_english_list(rows(list@)),
    ensures
        outcome_view(r) == words_to_bytes_spec(rows(ws@)),
{
    let ghost all = rows(ws@);
    let mut ix: Vec<u16> = Vec::new();
    let mut i: usize = 0;
    while i < ws.len()
        invariant
            i <= ws@.len(),
            all == rows(ws@),
            is_english_list(rows(list@)),
            in_range(ix@),
            indices_of(all.take(i as int)) == Ok::<Seq<u16>, Failure>(ix@),
        decreases ws@.len() - i,
    {
        let w = &ws[i];
        proof {
            assert(all.take(i + 1).drop_last() =~= all.take(i as int));
        }
        match lookup_word(list, w.as_slice()) {
            Some(idx) => {
                ix.push(idx);
            },
            None => {
                proof {
                    lemma_indices_fail(all, i as int, all.len() as int);
                    assert(all.take(all.len() as int) =~= all);
                }
                let text = string_of(w.as_slice());
                return Err(
                    CoreError::Encoding(String::from_str("unknown word: ").concat(text.as_str())),
                );
            },
        }
        i += 1;
    }
    assert(all.take(all.len() as int) =~= all);
    Ok(indices_to_bytes(ix.as_slice()))
}

/// Once a word is not found, the words up to any later one have no indices either.
proof fn lemma_indices_fail(ws: Seq<Seq<char>>, i: int, n: int)
    requires
        0 <= i < n <= ws.len(),
        indices_of(ws.take(i)) is Ok,
        lookup(ws[i]) is None,
    ensures
        indices_of(ws.take(n)) == Err::<Seq<u16>, Failure>(
            Failure::Encoding("unknown word: "@ + ws[i]),
        ),
    decreases n - i,
{
    assert(ws.take(n).drop_last() =~= ws.take(n - 1));
    if n - 1 != i {
        lemma_indices_fail(ws, i, n - 1);
    }
}

/// Takes the packet bytes out of their frame, after checking its length and its CRC.
///
/// Fails for fewer than six bytes, for a length that does not fit `usize` or is more than
/// there are bytes, and for a CRC other than that of the length and the packet bytes.
pub fn unframe(bytes: &[u8]) -> (r: CoreResult<Vec<u8>>)
    ensures
        outcome_view(r) == unframe_spec(bytes@),
{
    if bytes.len() < 6 {
        return Err(encoding_error("mnemo-words payload too short"));
    }
    let len = read_be32(bytes, 0);
    if len as u64 > (usize::MAX - 6) as u64 {
        return Err(encoding_error("mnemo-words length overflow"));
    }
    let expected_total: usize = 4 + len as usize + 2;
    if bytes.len() < expected_total {
        return Err(encoding_error("mnemo-words truncated"));
    }
    let crc_high = bytes[expected_total - 2] as u16;
    let crc_low = bytes[expected_total - 1] as u16;
    let crc_expected = crc_high * 0x100 + crc_low;
    let data = copy_range(bytes, 0, expected_total - 2);
    let crc_actual = crc16_ccitt_false(data.as_slice());
    if crc_actual != crc_expected {
        return Err(encoding_error("mnemo-words crc mismatch"));
    }
    Ok(copy_range(bytes, 4, expected_total - 2))
}

/// Writes a packet as words: its binary form, framed by its length and a CRC, in groups
/// of eleven bits, each group a word of BIP39's English list.
pub fn encode_packet(packet: &SharePacket) -> (r: CoreResult<String>)
    ensures
        outcome_view(r) == encode_packet_spec(packet@),
{
    let payload = match packet.encode_binary() {
        Ok(b) => b,
        Err(e) => {
            return Err(e);
        },
    };
    if payload.len() > u32::MAX as usize {
        return Err(encoding_error("packet too large"));
    }
    let mut frame: Vec<u8> = Vec::new();
    push_be32(&mut frame, payload.len() as u32);
    push_all(&mut frame, payload.as_slice());
    let crc = crc16_ccitt_false(frame.as_slice());
    frame.push((crc / 0x100) as u8);
    frame.push((crc % 0x100) as u8);
    assert(frame@ =~= framed(payload@));
    let ws = bytes_to_words(frame.as_slice());
    let sep: Vec<char> = vec![' '];
    assert(sep@ =~= seq![' ']);
    let text = join(&ws, sep.as_slice());
    Ok(string_of(text.as_slice()))
}

/// Reads a packet from words.
///
/// Fails when there are no words, for a word that the list does not hold, for a frame
/// that `unframe` refuses, and as `SharePacket::decode_binary` does on the packet bytes.
/// Words in upper or mixed case are read as their lower case. The text that
/// `encode_packet` wrote for a packet is read back as that packet, whatever the case of
/// its letters has become.
pub fn decode_packet(s: &str) -> (r: CoreResult<SharePacket>)
    ensures
        outcome_view(r) == decode_packet_spec(s@),
        forall|p: PacketView|
            #![trigger written(p, lowered(s@))]
            well_formed(p) && written(p, lowered(s@)) ==> outcome_view(r) == Ok::<
                PacketView,
                Failure,
            >(p),
        forall|p: PacketView|
            #![trigger written(p, s@)]
            well_formed(p) && written(p, s@) ==> outcome_view(r) == Ok::<PacketView, Failure>(p),
{
    let chars = chars_of(s);
    let ws = split_whitespace(chars.as_slice());
    let list = english_words();
    proof {
        assert forall|p: PacketView|
            #![trigger written(p, s@)]
            well_formed(p) && written(p, s@) implies written(p, lowered(s@)) by {
            lemma_written_is_lower(p, s@);
        }
        assert forall|p: PacketView|
            #![trigger written(p, lowered(s@))]
            well_formed(p) && written(p, lowered(s@)) implies indices_of(words(s@)) is Ok
            && words(s@).len() > 0 by {
            lemma_written_words(p, s@);
        }
    }
    if ws.len() == 0 {
        return Err(encoding_error("no words provided"));
    }
    let bytes = match words_to_bytes_with(&list, &ws) {
        Ok(b) => b,
        Err(e) => {
            return Err(e);
        },
    };
    proof {
        assert forall|p: PacketView|
            #![trigger written(p, lowered(s@))]
            well_formed(p) && written(p, lowered(s@)) implies decode_packet_spec(s@) == Ok::<
            PacketView,
            Failure,
        >(p) by {
            lemma_written_decodes(p, s@, bytes@);
        }
    }
    let payload = match unframe(bytes.as_slice()) {
        Ok(b) => b,
        Err(e) => {
            return Err(e);
        },
    };
    SharePacket::decode_binary(payload.as_slice())
}

/// A word that the list holds is found.
proof fn lemma_first_index_finds(w: Seq<char>, from: int, j: int)
    requires
        0 <= from <= j < 2048,
        english_word(j) == w,
    ensures
        first_index(w, from) is Some,
        english_word(first_index(w, from)->0 as int) == w,
        first_index(w, from)->0 < 2048,
    decreases j - from,
{
    if english_word(from) != w {
        lemma_first_index_finds(w, from + 1, j);
    }
}

/// A text that was written for a packet is its own lower case.
proof fn lemma_written_is_lower(p: PacketView, s: Seq<char>)
    requires
        list_is_sound(),
        written(p, s),
    ensures
        lowered(s) == s,
{
    let ws = word_texts(packing(framed(encode_spec(p)->Ok_0)));
    lemma_unpacking_of_packing(framed(encode_spec(p)->Ok_0));
    assert forall|i: int| 0 <= i < ws.len() implies lowered(#[trigger] ws[i]) == ws[i] by {
    }
    assert(lowered(seq![' ']) =~= seq![' ']);
    lemma_joined_lowered(ws, seq![' ']);
}

/// The words of a text whose lower case was written for a packet are, in lower case, the
/// words at the packet's indices, and each of them is found in the list.
proof fn lemma_written_words(p: PacketView, s: Seq<char>)
    requires
        list_is_sound(),
        written(p, lowered(s)),
    ensures
        lowered_all(words(s)) == word_texts(packing(framed(encode_spec(p)->Ok_0))),
        words(s).len() > 0,
        indices_of(words(s)) is Ok,
{
    let bin = encode_spec(p)->Ok_0;
    let f = framed(bin);
    let ix = packing(f);
    let ws = word_texts(ix);
    lemma_unpacking_of_packing(f);
    lemma_words_of_joined(ws);
    lemma_lowered_words(s, 0, Seq::empty());
    assert(lowered(Seq::<char>::empty()) =~= Seq::<char>::empty());
    lemma_found_all(words(s), ix, words(s).len() as int);
    assert(words(s).take(words(s).len() as int) =~= words(s));
}

/// A word whose lower case the list holds is looked up with success.
proof fn lemma_lookup_finds(w: Seq<char>, j: int)
    requires
        0 <= j < 2048,
        english_word(j) == lowered(w),
    ensures
        lookup(w) is Some,
{
    if index_of(w) is None {
        if !has_upper(w) {
            lemma_lowered_same(w);
        }
        lemma_first_index_finds(lowered(w), 0, j);
    }
}

/// Words whose lower case the list holds all have indices.
proof fn lemma_found_all(ws: Seq<Seq<char>>, ix: Seq<u16>, n: int)
    requires
        lowered_all(ws) == word_texts(ix),
        in_range(ix),
        0 <= n <= ws.len(),
    ensures
        indices_of(ws.take(n)) is Ok,
    decreases n,
{
    assert(lowered_all(ws).len() == ws.len() && word_texts(ix).len() == ix.len());
    if n > 0 {
        lemma_found_all(ws, ix, n - 1);
        assert(ws.take(n).drop_last() =~= ws.take(n - 1));
        assert(lowered_all(ws)[n - 1] == word_texts(ix)[n - 1]);
        lemma_lookup_finds(ws[n - 1], ix[n - 1] as int);
    }
}

/// A word whose lower case the list holds at `j` is looked up as `j`.
proof fn lemma_lookup_exact(w: Seq<char>, j: int)
    requires
        list_is_sound(),
        0 <= j < 2048,
        english_word(j) == lowered(w),
    ensures
        lookup(w) == Some(j as u16),
{
    if index_of(w) is Some {
        lemma_first_index_sound(w, 0);
        assert forall|t: int| 0 <= t < w.len() implies !is_upper(#[trigger] w[t]) by {}
        lemma_lowered_same(w);
    } else {
        if !has_upper(w) {
            lemma_lowered_same(w);
        }
        lemma_first_index_finds(lowered(w), 0, j);
    }
}

/// Words whose lower case the list holds have exactly the indices of their lower case.
proof fn lemma_indices_exact(ws: Seq<Seq<char>>, ix: Seq<u16>, n: int)
    requires
        list_is_sound(),
        lowered_all(ws) == word_texts(ix),
        in_range(ix),
        0 <= n <= ws.len(),
    ensures
        indices_of(ws.take(n)) == Ok::<Seq<u16>, Failure>(ix.take(n)),
    decreases n,
{
    assert(lowered_all(ws).len() == ws.len() && word_texts(ix).len() == ix.len());
    if n == 0 {
        assert(ix.take(0) =~= Seq::<u16>::empty());
    } else {
        lemma_indices_exact(ws, ix, n - 1);
        assert(ws.take(n).drop_last() =~= ws.take(n - 1));
        assert(lowered_all(ws)[n - 1] == word_texts(ix)[n - 1]);
        lemma_lookup_exact(ws[n - 1], ix[n - 1] as int);
        assert(ix.take(n - 1).push(ix[n - 1]) =~= ix.take(n));
    }
}

/// An index that is found holds the word.
proof fn lemma_first_index_sound(w: Seq<char>, from: int)
    requires
        0 <= from,
        first_index(w, from) is Some,
    ensures
        0 <= first_index(w, from)->0 < 2048,
        english_word(first_index(w, from)->0 as int) == w,
    decreases 2048 - from,
{
    if from < 2048 && english_word(from) != w {
        lemma_first_index_sound(w, from + 1);
    }
}

/// Two bytes are the two bytes of the number that they spell.
pub proof fn lemma_be16_of_value(c: Seq<u8>)
    requires
        c.len() == 2,
    ensures
        be16(be16_value(c)) == c,
{
    assert(be16(be16_value(c)) =~= c);
}

/// Reading back what two bytes spell gives the number.
proof fn lemma_be16_round_trip(v: u16)
    ensures
        be16(v).len() == 2,
        be16_value(be16(v)) == v,
{
}

/// Bytes that start with a packet's frame hold the packet's binary form.
#[verifier::rlimit(40)]
proof fn lemma_unframe_framed(bin: Seq<u8>, bytes: Seq<u8>)
    requires
        bin.len() <= u32::MAX,
        bytes.len() <= usize::MAX,
        bytes.len() >= framed(bin).len(),
        bytes.take(framed(bin).len() as int) == framed(bin),
    ensures
        unframe_spec(bytes) == Ok::<Seq<u8>, Failure>(bin),
{
    let f = framed(bin);
    let len = bin.len() as u32;
    let head = bytes.take(f.len() as int);
    lemma_be32_round_trip(len);
    lemma_be16_round_trip(crc16(be32(len) + bin));
    assert(bytes.subrange(0, 4) =~= be32(len)) by {
        assert forall|t: int| 0 <= t < 4 implies bytes.subrange(0, 4)[t] == be32(len)[t] by {
            assert(head[t] == f[t]);
        }
    }
    assert(bytes.subrange(0, 4 + len) =~= be32(len) + bin) by {
        assert forall|t: int| 0 <= t < 4 + len implies bytes.subrange(0, 4 + len)[t] == (be32(len)
            + bin)[t] by {
            assert(head[t] == f[t]);
        }
    }
    assert(bytes.subrange(4 + len, 4 + len + 2) =~= be16(crc16(be32(len) + bin))) by {
        assert forall|t: int| 0 <= t < 2 implies bytes.subrange(4 + len, 4 + len + 2)[t] == be16(
            crc16(be32(len) + bin),
        )[t] by {
            assert(head[4 + len + t] == f[4 + len + t]);
        }
    }
    assert(bytes.subrange(4, 4 + len) =~= bin) by {
        assert forall|t: int| 0 <= t < len implies bytes.subrange(4, 4 + len)[t] == bin[t] by {
            assert(head[4 + t] == f[4 + t]);
        }
    }
}

/// A text whose lower case was written for a packet spells that packet.
proof fn lemma_written_decodes(p: PacketView, s: Seq<char>, bytes: Seq<u8>)
    requires
        list_is_sound(),
        well_formed(p),
        written(p, lowered(s)),
        bytes.len() <= usize::MAX,
        words_to_bytes_spec(words(s)) == Ok::<Seq<u8>, Failure>(bytes),
    ensures
        decode_packet_spec(s) == Ok::<PacketView, Failure>(p),
{
    let bin = encode_spec(p)->Ok_0;
    let f = framed(bin);
    let ix = packing(f);
    let ws = words(s);
    lemma_written_words(p, s);
    lemma_unpacking_of_packing(f);
    assert(indices_of(ws) == Ok::<Seq<u16>, Failure>(ix)) by {
        lemma_indices_exact(ws, ix, ws.len() as int);
        assert(ws.take(ws.len() as int) =~= ws);
        assert(ix.take(ix.len() as int) =~= ix);
    }
    assert(unframe_spec(bytes) == Ok::<Seq<u8>, Failure>(bin)) by {
        lemma_unframe_framed(bin, bytes);
    }
    assert(decode_spec(bin) == Ok::<PacketView, Failure>(p)) by {
        lemma_binary_round_trip(p, bin);
    }
}

/// The indices `changed` are those written for the binary form `bin`, but for the one at
/// `i`, which is another index of the list.
pub open spec fn one_word_changed(bin: Seq<u8>, changed: Seq<u16>, i: int) -> bool {
    &&& changed.len() == packing(framed(bin)).len()
    &&& in_range(changed)
    &&& 0 <= i < changed.len()
    &&& forall|j: int| 0 <= j < changed.len() && j != i ==> changed[j] == packing(framed(bin))[j]
    &&& changed[i] != packing(framed(bin))[i]
}

/// The bytes that `changed` spell where the frame of `bin` stood: as many of the first as
/// the frame has.
pub open spec fn changed_frame(bin: Seq<u8>, changed: Seq<u16>) -> Seq<u8> {
    unpacking(changed).take(framed(bin).len() as int)
}

/// The bytes that the changed indices spell are as many as before, and the same but in
/// the eleven bits of the changed index.
#[verifier::rlimit(40)]
proof fn lemma_changed_bytes(bin: Seq<u8>, changed: Seq<u16>, i: int)
    requires
        one_word_changed(bin, changed, i),
    ensures
        in_range(packing(framed(bin))),
        unpacking(changed).len() == unpacking(packing(framed(bin))).len(),
        unpacking(changed).len() >= framed(bin).len(),
        8 * unpacking(changed).len() < 8 * framed(bin).len() + 18,
        unpacking(packing(framed(bin))).take(framed(bin).len() as int) == framed(bin),
        forall|j: int|
            0 <= j < unpacking(changed).len() && !(11 * i < 8 * j + 8 && 8 * j < 11 * i + 11)
                ==> unpacking(changed)[j] == unpacking(packing(framed(bin)))[j],
        forall|t: int|
            0 <= t < 8 * framed(bin).len() && !(11 * i <= t < 11 * i + 11) ==> byte_bits(
                framed(bin),
            )[t] == byte_bits(changed_frame(bin, changed))[t],
{
    let f = framed(bin);
    let ix = packing(f);
    let b = unpacking(ix);
    let b2 = unpacking(changed);
    let f2 = changed_frame(bin, changed);
    lemma_unpacking_of_packing(f);
    lemma_unpacks_exist(ix);
    lemma_changed_index(ix, changed, i);
    assert forall|j: int|
        0 <= j < b2.len() && !(11 * i < 8 * j + 8 && 8 * j < 11 * i + 11) implies b2[j]
        == b[j] by {
        lemma_byte_from_bits(b2, b, j);
    }
    assert forall|t: int| 0 <= t < 8 * f.len() && !(11 * i <= t < 11 * i + 11) implies byte_bits(
        f,
    )[t] == byte_bits(f2)[t] by {
        assert(f[t / 8] == b[t / 8]);
        assert(f2[t / 8] == b2[t / 8]);
        assert(byte_bits(b)[t] == byte_bits(b2)[t]);
    }
}

/// A word that stands past the length field and inside the frame: changing it changes the
/// frame, and leaves the length field as it was.
#[verifier::rlimit(40)]
pub proof fn lemma_word_inside_frame(bin: Seq<u8>, changed: Seq<u16>, i: int)
    requires
        bin.len() <= u32::MAX,
        one_word_changed(bin, changed, i),
        32 <= 11 * i,
        11 * i + 11 <= 8 * framed(bin).len(),
    ensures
        changed_frame(bin, changed) != framed(bin),
        be32_value(changed_frame(bin, changed).take(4)) == bin.len(),
{
    let f = framed(bin);
    let ix = packing(f);
    let b = unpacking(ix);
    let b2 = unpacking(changed);
    let f2 = changed_frame(bin, changed);
    lemma_changed_bytes(bin, changed, i);
    lemma_changed_index(ix, changed, i);
    let t = choose|t: int| 11 * i <= t < 11 * i + 11 && byte_bits(b)[t] != byte_bits(b2)[t];
    assert(f[t / 8] == b[t / 8]);
    assert(f2[t / 8] == b2[t / 8]);
    assert(byte_bits(f)[t] != byte_bits(f2)[t]);
    assert forall|j: int| 0 <= j < 4 implies f2.take(4)[j] == be32(bin.len() as u32)[j] by {
        assert(b2[j] == b[j]);
        assert(b[j] == f[j]);
    }
    assert(f2.take(4) =~= be32(bin.len() as u32));
    lemma_be32_round_trip(bin.len() as u32);
}

/// The bytes of a written packet in which one word was changed for another, so that the
/// frame is changed but not the length that it announces, fail the CRC.
#[verifier::rlimit(40)]
pub proof fn lemma_changed_word_fails_crc(bin: Seq<u8>, changed: Seq<u16>, i: int)
    requires
        bin.len() <= u32::MAX,
        bin.len() + 6 <= usize::MAX,
        one_word_changed(bin, changed, i),
        changed_frame(bin, changed) != framed(bin),
        be32_value(changed_frame(bin, changed).take(4)) == bin.len(),
    ensures
        unframe_spec(unpacking(changed)) == Err::<Seq<u8>, Failure>(
            Failure::Encoding("mnemo-words crc mismatch"@),
        ),
{
    let len = bin.len() as u32;
    let d = be32(len) + bin;
    let f = framed(bin);
    let total = f.len() as int;
    let b2 = unpacking(changed);
    let f2 = changed_frame(bin, changed);
    lemma_changed_bytes(bin, changed, i);
    assert(f =~= d + be16(crc16(d)));
    let at = if 11 * i + 16 <= 8 * total {
        11 * i
    } else {
        8 * total - 16
    };
    assert(burst(f, f2, at));
    lemma_crc_notices_burst(d, f2, at);
    assert(b2.subrange(0, 4) =~= f2.take(4));
    assert(b2.subrange(0, 4 + len) =~= f2.take(total - 2));
    let c = b2.subrange(4 + len, 4 + len + 2);
    assert(c =~= f2.skip(total - 2));
    lemma_be16_of_value(c);
}

/// Where the changed word changes the length that the frame announces, the bytes hold no
/// frame, or one that holds no packet.
#[verifier::rlimit(40)]
proof fn lemma_changed_length(p: PacketView, bin: Seq<u8>, changed: Seq<u16>, i: int)
    requires
        well_formed(p),
        encode_spec(p) == Ok::<Seq<u8>, Failure>(bin),
        bin.len() <= u32::MAX,
        bin.len() + 6 <= usize::MAX,
        one_word_changed(bin, changed, i),
        be32_value(changed_frame(bin, changed).take(4)) != bin.len(),
    ensures
        unframe_spec(unpacking(changed)) is Ok ==> decode_spec(
            unframe_spec(unpacking(changed))->Ok_0,
        ) is Err,
{
    let len = bin.len() as u32;
    let f = framed(bin);
    let b = unpacking(packing(f));
    let b2 = unpacking(changed);
    let f2 = changed_frame(bin, changed);
    lemma_changed_bytes(bin, changed, i);
    lemma_binary_round_trip(p, bin);
    if unframe_spec(b2) is Ok {
        let other = unframe_spec(b2)->Ok_0;
        let head = b2.subrange(0, 4);
        let len2 = be32_value(head);
        assert(head =~= f2.take(4));
        assert(len2 != len);
        assert(other == b2.subrange(4, 4 + len2));
        if i >= 3 {
            assert forall|j: int| 0 <= j < 4 implies f2.take(4)[j] == be32(len)[j] by {
                assert(b2[j] == b[j]);
                assert(b[j] == f[j]);
            }
            assert(f2.take(4) =~= be32(len));
            lemma_be32_round_trip(len);
        }
        if decode_spec(other) is Ok {
            lemma_same_header(bin, other, b, b2, f);
        }
    }
}

/// Bytes that start as a packet's binary form does, but for their first, and are not as
/// many, spell no packet.
#[verifier::rlimit(40)]
proof fn lemma_same_header(bin: Seq<u8>, other: Seq<u8>, b: Seq<u8>, b2: Seq<u8>, f: Seq<u8>)
    requires
        decode_spec(bin) is Ok,
        other.len() != bin.len(),
        f.len() == bin.len() + 6,
        b.len() >= f.len(),
        b2.len() == b.len(),
        4 + other.len() <= b2.len(),
        forall|j: int| 0 <= j < bin.len() ==> f[4 + j] == bin[j],
        forall|j: int| 0 <= j < f.len() ==> b[j] == f[j],
        forall|j: int| 5 <= j < b.len() ==> b2[j] == b[j],
        forall|j: int| 0 <= j < other.len() ==> other[j] == b2[4 + j],
    ensures
        decode_spec(other) is Err,
{
    if decode_spec(other) is Ok {
        assert(other.subrange(0, 4)[0] == magic()[0]);
        assert(bin.subrange(0, 4)[0] == magic()[0]);
        assert forall|j: int| 0 <= j < other.len() && j < bin.len() implies other[j]
            == bin[j] by {
            assert(other[j] == b2[4 + j]);
            assert(b[4 + j] == f[4 + j]);
        }
        let off = length_offset(bin[4], bin[5]);
        assert(other.subrange(off, off + 4) =~= bin.subrange(off, off + 4));
    }
}

/// A text written for a packet in which one word is changed for another word of the
/// list, so that the frame is changed, spells no packet. Where the length that the frame
/// announces is as it was, it is the CRC that fails.
#[verifier::rlimit(40)]
pub proof fn lemma_changed_word_is_noticed(
    p: PacketView,
    bin: Seq<u8>,
    changed: Seq<u16>,
    i: int,
)
    requires
        list_is_sound(),
        well_formed(p),
        encode_spec(p) == Ok::<Seq<u8>, Failure>(bin),
        bin.len() <= u32::MAX,
        bin.len() + 6 <= usize::MAX,
        one_word_changed(bin, changed, i),
        changed_frame(bin, changed) != framed(bin),
    ensures
        decode_packet_spec(sentence(changed)) is Err,
        be32_value(changed_frame(bin, changed).take(4)) == bin.len() ==> decode_packet_spec(
            sentence(changed),
        ) == Err::<PacketView, Failure>(Failure::Encoding("mnemo-words crc mismatch"@)),
{
    let ws = word_texts(changed);
    lemma_words_of_joined(ws);
    assert forall|j: int| 0 <= j < ws.len() implies lowered(#[trigger] ws[j]) == ws[j] by {
        lemma_lowered_same(ws[j]);
    }
    assert(lowered_all(ws) =~= ws);
    lemma_indices_exact(ws, changed, ws.len() as int);
    assert(ws.take(ws.len() as int) =~= ws);
    assert(changed.take(changed.len() as int) =~= changed);
    assert(words_to_bytes_spec(ws) == Ok::<Seq<u8>, Failure>(unpacking(changed)));
    if be32_value(changed_frame(bin, changed).take(4)) == bin.len() {
        lemma_changed_word_fails_crc(bin, changed, i);
    } else {
        lemma_changed_length(p, bin, changed, i);
    }
}

} // verus!
