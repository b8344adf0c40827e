//! Packets as BIP39 phrases: frames of 28 bytes, each the entropy of 24 words.

use crate::error::{encoding_error, outcome_view, CoreError, CoreResult, Failure};
use crate::mnemo_words::{be16, be16_value};
use crate::packet::{
    binary_total_len, copy_range, decode_spec, encode_spec, lemma_binary_round_trip,
    total_len_spec, well_formed, PacketView, SharePacket,
};
use crate::text::{
    any_upper, chars_of, has_upper, join, joined, lemma_joined_lowered, lemma_lowered_pieces,
    lemma_trimmed_push_space, lemma_trimmed_solid, lowercase, lowered, lowered_all, rows,
    solid_pieces, solid_pieces_from, split_trimmed, string_of, trimmed, unless_empty,
};
use vstd::prelude::*;
use vstd::string::StringExecFns;

verus! {

/// The bytes of a packet that one frame carries.
pub const CHUNK_LEN: usize = 28;

/// The BIP39 phrase, in English, of an entropy of 32 bytes: 24 words with single spaces
/// between them.
pub uninterp spec fn mnemonic_text(entropy: Seq<u8>) -> Seq<char>;

/// The entropy of a BIP39 phrase in English, or the message of bip39's error.
pub uninterp spec fn mnemonic_entropy(phrase: Seq<char>) -> Result<Seq<u8>, Seq<char>>;

/// A text of the letters `a ..= z` and spaces that starts and ends with a letter.
pub open spec fn plain_phrase(t: Seq<char>) -> bool {
    &&& t.len() > 0
    &&& 'a' <= t[0] <= 'z'
    &&& 'a' <= t.last() <= 'z'
    &&& forall|i: int| 0 <= i < t.len() ==> ('a' <= #[trigger] t[i] <= 'z') || t[i] == ' '
}

/// Writes 32 bytes of entropy as a phrase, by `Mnemonic::from_entropy_in` of bip39, in
/// English, and the mnemonic's `to_string`. bip39 accepts every entropy of 32 bytes; the
/// phrase is named `mnemonic_text`, and it is made of lower-case words with single spaces
/// between them.
#[verifier::external_body]
fn phrase_of(entropy: &[u8; 32]) -> (r: Result<String, String>)
    ensures
        match r {
            Ok(s) => s@ == mnemonic_text(entropy@) && plain_phrase(s@),
            Err(_) => false,
        },
{
    bip39::Mnemonic::from_entropy_in(bip39::Language::English, entropy)
        .map(|m| m.to_string())
        .map_err(|e| e.to_string())
}

/// Reads a phrase, by `Mnemonic::parse_in` of bip39, in English, and the mnemonic's
/// `to_entropy`; hands back the entropy or the message of bip39's error. The result is
/// named `mnemonic_entropy`; the phrase of an entropy of 32 bytes is read back as that
/// entropy.
#[verifier::external_body]
fn entropy_of(phrase: &str) -> (r: Result<Vec<u8>, String>)
    ensures
        match r {
            Ok(v) => mnemonic_entropy(phrase@) == Ok::<Seq<u8>, Seq<char>>(v@),
            Err(m) => mnemonic_entropy(phrase@) == Err::<Seq<u8>, Seq<char>>(m@),
        },
        forall|e: Seq<u8>|
            e.len() == 32 && phrase@ == #[trigger] mnemonic_text(e) ==> (match r {
                Ok(v) => v@ == e,
                Err(_) => false,
            }),
{
    bip39::Mnemonic::parse_in(bip39::Language::English, phrase)
        .map(|m| m.to_entropy())
        .map_err(|e| e.to_string())
}

/// The number of frames that `len` bytes need.
pub open spec fn frame_count(len: nat) -> int {
    (len as int + 27) / 28
}

/// The `i`-th chunk of 28 bytes of `bin`, filled up with zeros.
pub open spec fn chunk(bin: Seq<u8>, i: int) -> Seq<u8> {
    Seq::new(
        28,
        |t: int|
            if 28 * i + t < bin.len() {
                bin[28 * i + t]
            } else {
                0u8
            },
    )
}

/// The entropy of the `i`-th of `count` frames of `bin`: the frame's index and the number
/// of frames, two bytes each, and the chunk.
pub open spec fn frame_entropy(bin: Seq<u8>, i: int, count: int) -> Seq<u8> {
    be16(i as u16) + be16(count as u16) + chunk(bin, i)
}

/// The phrases of the frames of `bin`.
pub open spec fn frame_phrases(bin: Seq<u8>) -> Seq<Seq<char>> {
    Seq::new(
        frame_count(bin.len()) as nat,
        |i: int| mnemonic_text(frame_entropy(bin, i, frame_count(bin.len()))),
    )
}

/// The text between two frames.
pub open spec fn separator() -> Seq<char> {
    seq![' ', '/', ' ']
}

/// The text of a packet in BIP39 phrases, or why it has none.
pub open spec fn encode_packet_spec(p: PacketView) -> Result<Seq<char>, Failure> {
    match encode_spec(p) {
        Err(f) => Err(f),
        Ok(bin) => if frame_count(bin.len()) > u16::MAX {
            Err(Failure::Encoding("too many bip39 frames"@))
        } else {
            Ok(joined(frame_phrases(bin), separator()))
        },
    }
}

/// `text` is the text of the packet `p` in BIP39 phrases, and those phrases are plain.
pub open spec fn written(p: PacketView, text: Seq<char>) -> bool {
    &&& encode_packet_spec(p) == Ok::<Seq<char>, Failure>(text)
    &&& forall|i: int|
        0 <= i < frame_phrases(encode_spec(p)->Ok_0).len() ==> plain_phrase(
            #[trigger] frame_phrases(encode_spec(p)->Ok_0)[i],
        )
}

/// The phrases of `s`: its pieces between slashes, trimmed, the empty ones left out.
pub open spec fn phrases(s: Seq<char>) -> Seq<Seq<char>> {
    solid_pieces(s, '/')
}

/// A phrase as it is handed to bip39: in lower case if it holds upper-case letters.
pub open spec fn normal(phrase: Seq<char>) -> Seq<char> {
    if has_upper(phrase) {
        lowered(phrase)
    } else {
        phrase
    }
}

/// The slots with the frame of the given entropy put in its place, or why it has none.
/// The first frame makes as many empty slots as it says there are frames.
pub open spec fn with_frame(slots: Seq<Option<Seq<u8>>>, e: Seq<u8>) -> Result<
    Seq<Option<Seq<u8>>>,
    Failure,
> {
    let idx = be16_value(e.subrange(0, 2));
    let count = be16_value(e.subrange(2, 4));
    let base = if slots.len() == 0 {
        Seq::new(count as nat, |t: int| None::<Seq<u8>>)
    } else {
        slots
    };
    if e.len() != 32 {
        Err(Failure::Encoding("unexpected bip39 entropy length"@))
    } else if count == 0 {
        Err(Failure::Encoding("invalid bip39 frame count"@))
    } else if slots.len() != 0 && slots.len() != count {
        Err(Failure::Encoding("bip39 frame count mismatch"@))
    } else if idx >= count {
        Err(Failure::Encoding("bip39 frame index out of range"@))
    } else if base[idx as int] is Some {
        Err(Failure::Encoding("duplicate bip39 frame index"@))
    } else {
        Ok(base.update(idx as int, Some(e.subrange(4, 32))))
    }
}

/// The slots with the frame of the given phrase put in its place, or why it has none.
pub open spec fn with_phrase(slots: Seq<Option<Seq<u8>>>, phrase: Seq<char>) -> Result<
    Seq<Option<Seq<u8>>>,
    Failure,
> {
    match mnemonic_entropy(normal(phrase)) {
        Err(m) => Err(Failure::Encoding(m)),
        Ok(e) => with_frame(slots, e),
    }
}

/// The slots after the frames of all the phrases are put in their places, in the order
/// of the phrases, or what is wrong with the first phrase that has no place.
pub open spec fn placed(ps: Seq<Seq<char>>) -> Result<Seq<Option<Seq<u8>>>, Failure>
    decreases ps.len(),
{
    if ps.len() == 0 {
        Ok(Seq::empty())
    } else {
        match placed(ps.drop_last()) {
            Err(f) => Err(f),
            Ok(slots) => with_phrase(slots, ps.last()),
        }
    }
}

/// Whether every slot is filled.
pub open spec fn complete(slots: Seq<Option<Seq<u8>>>) -> bool {
    forall|i: int| 0 <= i < slots.len() ==> (#[trigger] slots[i]) is Some
}

/// The chunks of the first `n` slots, one after the other.
pub open spec fn chunks_joined(slots: Seq<Option<Seq<u8>>>, n: nat) -> Seq<u8>
    decreases n,
{
    if n == 0 {
        Seq::empty()
    } else {
        chunks_joined(slots, (n - 1) as nat) + slots[n - 1]->0
    }
}

/// Whether a byte other than zero stands in `b` from `from` on.
pub open spec fn has_nonzero_from(b: Seq<u8>, from: int) -> bool {
    exists|i: int| from <= i < b.len() && #[trigger] b[i] != 0
}

/// The packet in the bytes `combined`, which may be followed by zero bytes of padding, or
/// why there is none.
pub open spec fn unpad_spec(combined: Seq<u8>) -> Result<PacketView, Failure> {
    match total_len_spec(combined) {
        Err(f) => Err(
            Failure::Encoding(
                "invalid packet header: "@ + "invalid packet: "@ + f->InvalidPacket_0,
            ),
        ),
        Ok(total) => if combined.len() < total {
            Err(Failure::Encoding("packet bytes truncated"@))
        } else if has_nonzero_from(combined, total as int) {
            Err(Failure::Encoding("nonzero padding in bip39 frames"@))
        } else {
            decode_spec(combined.take(total as int))
        },
    }
}

/// The packet that the filled slots hold, or why they hold none.
pub open spec fn assemble_spec(slots: Seq<Option<Seq<u8>>>) -> Result<PacketView, Failure> {
    if !complete(slots) {
        Err(Failure::Encoding("missing bip39 frames"@))
    } else {
        unpad_spec(chunks_joined(slots, slots.len()))
    }
}

/// The packet that the phrases of `s` spell, or why they spell none.
pub open spec fn decode_packet_spec(s: Seq<char>) -> Result<PacketView, Failure> {
    if phrases(s).len() == 0 {
        Err(Failure::Encoding("no bip39 phrases provided"@))
    } else {
        match placed(phrases(s)) {
            Err(f) => Err(f),
            Ok(slots) => assemble_spec(slots),
        }
    }
}

/// The slots as mathematical values.
pub open spec fn slot_views(slots: Seq<Option<Vec<u8>>>) -> Seq<Option<Seq<u8>>> {
    Seq::new(
        slots.len(),
        |i: int|
            match slots[i] {
                Some(v) => Some(v@),
                None => None,
            },
    )
}

/// Puts the frame of the given entropy in its place among the slots.
///
/// Fails for an entropy of other than 32 bytes, a frame count of zero or other than that
/// of the frames before, an index that is not below the count, and an index whose place
/// is taken.
pub fn place_frame(slots: &mut Vec<Option<Vec<u8>>>, entropy: &[u8]) -> (r: CoreResult<()>)
    ensures
        match r {
            Ok(_) => with_frame(slot_views(old(slots)@), entropy@) == Ok::<
                Seq<Option<Seq<u8>>>,
                Failure,
            >(slot_views(final(slots)@)),
            Err(e) => with_frame(slot_views(old(slots)@), entropy@) == Err::<
                Seq<Option<Seq<u8>>>,
                Failure,
            >(e@),
        },
{
    if entropy.len() != 32 {
        return Err(encoding_error("unexpected bip39 entropy length"));
    }
    let frame_idx = (entropy[0] as u16) * 0x100 + (entropy[1] as u16);
    let count = (entropy[2] as u16) * 0x100 + (entropy[3] as u16);
    if count == 0 {
        return Err(encoding_error("invalid bip39 frame count"));
    }
    if slots.len() != 0 {
        if slots.len() != count as usize {
            return Err(encoding_error("bip39 frame count mismatch"));
        }
    } else {
        let mut t: usize = 0;
        while t < count as usize
            invariant
                t <= count,
                slots@.len() == t,
                forall|j: int| 0 <= j < t ==> (#[trigger] slots@[j]) is None,
            decreases count - t,
        {
            slots.push(None);
            t += 1;
        }
    }
    let ghost base = slot_views(slots@);
    assert(base =~= (if old(slots)@.len() == 0 {
        Seq::new(count as nat, |t: int| None::<Seq<u8>>)
    } else {
        slot_views(old(slots)@)
    }));
    if frame_idx >= count {
        return Err(encoding_error("bip39 frame index out of range"));
    }
    if slots[frame_idx as usize].is_some() {
        return Err(encoding_error("duplicate bip39 frame index"));
    }
    let piece = copy_range(entropy, 4, 32);
    slots[frame_idx as usize] = Some(piece);
    assert(slot_views(slots@) =~= base.update(frame_idx as int, Some(entropy@.subrange(4, 32))));
    Ok(())
}

/// Reads the packet from the bytes of all the frames, which end in zero bytes of padding.
///
/// Fails for a header that `binary_total_len` refuses, for fewer bytes than the header
/// announces, for padding other than zero, and as `SharePacket::decode_binary` does.
pub fn unpad(combined: &[u8]) -> (r: CoreResult<SharePacket>)
    ensures
        outcome_view(r) == unpad_spec(combined@),
{
    let total_len = match binary_total_len(combined) {
        Ok(t) => t,
        Err(e) => {
            match e {
                CoreError::InvalidPacket(m) => {
                    return Err(
                        CoreError::Encoding(
                            String::from_str("invalid packet header: ").concat(
                                "invalid packet: ",
                            ).concat(m.as_str()),
                        ),
                    );
                },
                _ => {
                    return Err(e);
                },
            }
        },
    };
    if combined.len() < total_len {
        return Err(encoding_error("packet bytes truncated"));
    }
    let mut i: usize = total_len;
    while i < combined.len()
        invariant
            total_len <= i <= combined@.len(),
            total_len_spec(combined@) == Ok::<usize, Failure>(total_len),
            forall|t: int| total_len <= t < i ==> combined@[t] == 0,
        decreases combined@.len() - i,
    {
        if combined[i] != 0 {
            return Err(encoding_error("nonzero padding in bip39 frames"));
        }
        i += 1;
    }
    let body = copy_range(combined, 0, total_len);
    SharePacket::decode_binary(body.as_slice())
}

/// Reads the packet from the filled slots.
pub fn assemble(slots: &Vec<Option<Vec<u8>>>) -> (r: CoreResult<SharePacket>)
    ensures
        outcome_view(r) == assemble_spec(slot_views(slots@)),
{
    let ghost sv = slot_views(slots@);
    let mut combined: Vec<u8> = Vec::new();
    let mut i: usize = 0;
    while i < slots.len()
        invariant
            i <= slots@.len(),
            sv == slot_views(slots@),
            forall|t: int| 0 <= t < i ==> (#[trigger] sv[t]) is Some,
            combined@ == chunks_joined(sv, i as nat),
        decreases slots@.len() - i,
    {
        match &slots[i] {
            Some(c) => {
                crate::packet::push_all(&mut combined, c.as_slice());
            },
            None => {
                assert(sv[i as int] is None);
                return Err(encoding_error("missing bip39 frames"));
            },
        }
        i += 1;
    }
    unpad(combined.as_slice())
}

/// Writes a packet as BIP39 phrases: its binary form in chunks of 28 bytes, each with the
/// frame's index and the number of frames as the entropy of one phrase of 24 words, the
/// phrases with ` / ` between them.
pub fn encode_packet(packet: &SharePacket) -> (r: CoreResult<String>)
    ensures
        outcome_view(r) == encode_packet_spec(packet@),
        r is Ok ==> written(packet@, r->Ok_0@),
{
    let bytes = match packet.encode_binary() {
        Ok(b) => b,
        Err(e) => {
            return Err(e);
        },
    };
    let len = bytes.len();
    let n_frames: usize = len / 28 + (if len % 28 != 0 {
        1usize
    } else {
        0usize
    });
    if n_frames > u16::MAX as usize {
        return Err(encoding_error("too many bip39 frames"));
    }
    let count = n_frames as u16;
    let mut out: Vec<Vec<char>> = Vec::new();
    let mut idx: usize = 0;
    while idx < n_frames
        invariant
            idx <= n_frames,
            n_frames == frame_count(bytes@.len()),
            n_frames <= u16::MAX,
            count == n_frames,
            len == bytes@.len(),
            out@.len() == idx,
            forall|t: int|
                0 <= t < idx ==> (#[trigger] rows(out@)[t]) == frame_phrases(bytes@)[t]
                    && plain_phrase(rows(out@)[t]),
        decreases n_frames - idx,
    {
        let mut entropy: [u8; 32] = [0u8; 32];
        entropy[0] = (idx / 0x100) as u8;
        entropy[1] = (idx % 0x100) as u8;
        entropy[2] = (count / 0x100) as u8;
        entropy[3] = (count % 0x100) as u8;
        let start = idx * 28;
        let mut t: usize = 0;
        while t < 28
            invariant
                t <= 28,
                start == idx * 28,
                idx < n_frames,
                n_frames <= u16::MAX,
                n_frames == frame_count(bytes@.len()),
                len == bytes@.len(),
                entropy@[0] == (idx / 0x100) as u8,
                entropy@[1] == (idx % 0x100) as u8,
                entropy@[2] == (count / 0x100) as u8,
                entropy@[3] == (count % 0x100) as u8,
                forall|j: int| 4 <= j < 4 + t ==> entropy@[j] == chunk(bytes@, idx as int)[j - 4],
                forall|j: int| 4 + t <= j < 32 ==> entropy@[j] == 0,
            decreases 28 - t,
        {
            if start + t < len {
                entropy[4 + t] = bytes[start + t];
            }
            t += 1;
        }
        assert(entropy@ =~= frame_entropy(bytes@, idx as int, n_frames as int));
        let phrase = match phrase_of(&entropy) {
            Ok(s) => s,
            Err(m) => {
                return Err(CoreError::Encoding(m));
            },
        };
        let ghost before = out@;
        out.push(chars_of(phrase.as_str()));
        proof {
            assert forall|t: int| 0 <= t < idx + 1 implies (#[trigger] rows(out@)[t])
                == frame_phrases(bytes@)[t] && plain_phrase(rows(out@)[t]) by {
                if t < idx {
                    assert(rows(out@)[t] == rows(before)[t]);
                }
            }
        }
        idx += 1;
    }
    assert(rows(out@) =~= frame_phrases(bytes@));
    let sep: Vec<char> = vec![' ', '/', ' '];
    let text = join(&out, sep.as_slice());
    Ok(string_of(text.as_slice()))
}

/// Reads a packet from BIP39 phrases.
///
/// Fails when there are no phrases, for a phrase that bip39 refuses, for a frame that
/// `place_frame` refuses, when frames are missing, and as `unpad` does on the bytes of the
/// frames. Phrases with upper-case letters are read in lower case. The text that
/// `encode_packet` wrote for a packet is read back as that packet, whatever the case of
/// its letters has become.
#[verifier::rlimit(50)]
pub fn decode_packet(s: &str) -> (r: CoreResult<SharePacket>)
    ensures
        outcome_view(r) == decode_packet_spec(s@),
        forall|p: PacketView|
            #![trigger written(p, lowered(s@))]
            well_formed(p) && written(p, lowered(s@)) ==> outcome_view(r) == Ok::<
                PacketView,
                Failure,
            >(p),
        forall|p: PacketView|
            #![trigger written(p, s@)]
            well_formed(p) && written(p, s@) ==> outcome_view(r) == Ok::<PacketView, Failure>(p),
{
    let chars = chars_of(s);
    let ps = split_trimmed(chars.as_slice(), '/');
    proof {
        assert forall|p: PacketView|
            #![trigger written(p, s@)]
            well_formed(p) && written(p, s@) implies written(p, lowered(s@)) by {
            lemma_written_is_lower(p, s@);
        }
        assert forall|p: PacketView|
            #![trigger written(p, lowered(s@))]
            well_formed(p) && written(p, lowered(s@)) implies phrases(s@).len() > 0 by {
            lemma_written_prefix(p, s@, 0);
        }
    }
    if ps.len() == 0 {
        return Err(encoding_error("no bip39 phrases provided"));
    }
    let ghost all = rows(ps@);
    let mut slots: Vec<Option<Vec<u8>>> = Vec::new();
    let mut i: usize = 0;
    assert(slot_views(slots@) =~= Seq::<Option<Seq<u8>>>::empty());
    while i < ps.len()
        invariant
            i <= ps@.len(),
            all == rows(ps@),
            all == phrases(s@),
            all.len() > 0,
            forall|p: PacketView|
                #![trigger written(p, s@)]
                well_formed(p) && written(p, s@) ==> written(p, lowered(s@)),
            forall|t: int| 0 <= t < i ==> reads_back(normal(#[trigger] all[t])),
            placed(all.take(i as int)) == Ok::<Seq<Option<Seq<u8>>>, Failure>(slot_views(slots@)),
        decreases ps@.len() - i,
    {
        let phrase = &ps[i];
        proof {
            assert(all.take(i + 1).drop_last() =~= all.take(i as int));
        }
        let text = if any_upper(phrase.as_slice()) {
            let low = lowercase(phrase.as_slice());
            string_of(low.as_slice())
        } else {
            string_of(phrase.as_slice())
        };
        let parsed = entropy_of(text.as_str());
        proof {
            assert forall|p: PacketView|
                #![trigger written(p, lowered(s@))]
                well_formed(p) && written(p, lowered(s@)) implies placed(all.take(i + 1)) is Ok by {
                lemma_written_prefix(p, s@, i + 1);
            }
        }
        let entropy = match parsed {
            Ok(e) => e,
            Err(m) => {
                proof {
                    lemma_placed_fail(all, i as int, all.len() as int);
                    assert(all.take(all.len() as int) =~= all);
                }
                return Err(CoreError::Encoding(m));
            },
        };
        match place_frame(&mut slots, entropy.as_slice()) {
            Ok(_) => {},
            Err(e) => {
                proof {
                    lemma_placed_fail(all, i as int, all.len() as int);
                    assert(all.take(all.len() as int) =~= all);
                }
                return Err(e);
            },
        }
        i += 1;
    }
    assert(all.take(all.len() as int) =~= all);
    proof {
        assert forall|p: PacketView|
            #![trigger written(p, lowered(s@))]
            well_formed(p) && written(p, lowered(s@)) implies decode_packet_spec(s@) == Ok::<
            PacketView,
            Failure,
        >(p) by {
            lemma_written_decodes(p, s@);
        }
    }
    assemble(&slots)
}

/// Once a phrase has no place, the phrases up to any later one have no slots either.
proof fn lemma_placed_fail(ps: Seq<Seq<char>>, i: int, n: int)
    requires
        0 <= i < n <= ps.len(),
        placed(ps.take(i)) is Ok,
        with_phrase(placed(ps.take(i))->Ok_0, ps[i]) is Err,
    ensures
        placed(ps.take(n)) == Err::<Seq<Option<Seq<u8>>>, Failure>(
            with_phrase(placed(ps.take(i))->Ok_0, ps[i])->Err_0,
        ),
    decreases n - i,
{
    assert(ps.take(n).drop_last() =~= ps.take(n - 1));
    if n - 1 != i {
        lemma_placed_fail(ps, i, n - 1);
    }
}

/// Whether bip39 reads the phrase `ph` back as the entropy that it is the phrase of.
pub open spec fn reads_back(ph: Seq<char>) -> bool {
    forall|e: Seq<u8>|
        e.len() == 32 && ph == #[trigger] mnemonic_text(e) ==> mnemonic_entropy(ph) == Ok::<
            Seq<u8>,
            Seq<char>,
        >(e)
}

/// The slots after the first `n` frames of `bin` are put in their places.
pub open spec fn filled(bin: Seq<u8>, n: int) -> Seq<Option<Seq<u8>>> {
    if n <= 0 {
        Seq::empty()
    } else {
        Seq::new(
            frame_count(bin.len()) as nat,
            |t: int|
                if t < n {
                    Some(chunk(bin, t))
                } else {
                    None
                },
        )
    }
}

/// `bin` followed by zeros, `len` bytes in all.
pub open spec fn zero_padded(bin: Seq<u8>, len: nat) -> Seq<u8> {
    Seq::new(
        len,
        |t: int|
            if t < bin.len() {
                bin[t]
            } else {
                0u8
            },
    )
}

/// Reading on through characters other than the slash only lengthens the piece that is
/// being read.
proof fn lemma_scan_phrase(s: Seq<char>, i: int, cur: Seq<char>, m: nat)
    requires
        0 <= i,
        i + m <= s.len(),
        forall|t: int| i <= t < i + m ==> #[trigger] s[t] != '/',
    ensures
        solid_pieces_from(s, '/', i, cur) == solid_pieces_from(
            s,
            '/',
            i + m,
            cur + s.subrange(i, i + m),
        ),
    decreases m,
{
    if m > 0 {
        lemma_scan_phrase(s, i + 1, cur.push(s[i]), (m - 1) as nat);
        assert(cur.push(s[i]) + s.subrange(i + 1, i + m) =~= cur + s.subrange(i, i + m));
    }
}

/// A plain phrase after the separator, at the end of a text, is one more phrase.
proof fn lemma_phrases_append(s: Seq<char>, w: Seq<char>, i: int, cur: Seq<char>)
    requires
        0 <= i <= s.len(),
        plain_phrase(w),
    ensures
        solid_pieces_from(s + separator() + w, '/', i, cur) == solid_pieces_from(s, '/', i, cur)
            + seq![w],
    decreases s.len() - i,
{
    let whole = s + separator() + w;
    if i == s.len() {
        lemma_trimmed_push_space(cur, ' ');
        lemma_scan_phrase(whole, i + 2, Seq::empty(), 1 + w.len());
        assert(Seq::<char>::empty() + whole.subrange(i + 2, i + 2 + (1 + w.len())) =~= seq![' ']
            + w);
        lemma_trimmed_solid(w, ' ');
        let spaced = cur.push(' ');
        assert(solid_pieces_from(whole, '/', i + 1, spaced) == unless_empty(trimmed(spaced))
            + solid_pieces_from(whole, '/', i + 2, Seq::empty()));
    } else {
        if s[i] == '/' {
            lemma_phrases_append(s, w, i + 1, Seq::empty());
        } else {
            lemma_phrases_append(s, w, i + 1, cur.push(s[i]));
        }
    }
}

/// The phrases of plain phrases joined by the separator are those phrases.
proof fn lemma_phrases_of_joined(ps: Seq<Seq<char>>)
    requires
        forall|i: int| 0 <= i < ps.len() ==> plain_phrase(#[trigger] ps[i]),
    ensures
        phrases(joined(ps, separator())) == ps,
    decreases ps.len(),
{
    if ps.len() == 1 {
        let w = ps[0];
        lemma_scan_phrase(w, 0, Seq::empty(), w.len());
        assert(Seq::<char>::empty() + w.subrange(0, w.len() as int) =~= w);
    } else if ps.len() > 1 {
        let front = ps.drop_last();
        lemma_phrases_of_joined(front);
        lemma_phrases_append(joined(front, separator()), ps.last(), 0, Seq::empty());
    }
}

/// A text that was written for a packet is its own lower case.
proof fn lemma_written_is_lower(p: PacketView, s: Seq<char>)
    requires
        written(p, s),
    ensures
        lowered(s) == s,
{
    let ps = frame_phrases(encode_spec(p)->Ok_0);
    assert forall|i: int| 0 <= i < ps.len() implies lowered(#[trigger] ps[i]) == ps[i] by {
    }
    assert(lowered(separator()) =~= separator());
    lemma_joined_lowered(ps, separator());
}

/// The first `n` frames of a packet find their places, when the text's lower case was
/// written for the packet.
proof fn lemma_written_prefix(p: PacketView, s: Seq<char>, n: int)
    requires
        well_formed(p),
        written(p, lowered(s)),
        0 <= n <= phrases(s).len(),
        forall|t: int| 0 <= t < n ==> reads_back(normal(#[trigger] phrases(s)[t])),
    ensures
        lowered_all(phrases(s)) == frame_phrases(encode_spec(p)->Ok_0),
        phrases(s).len() == frame_count(encode_spec(p)->Ok_0.len()),
        phrases(s).len() > 0,
        placed(phrases(s).take(n)) == Ok::<Seq<Option<Seq<u8>>>, Failure>(
            filled(encode_spec(p)->Ok_0, n),
        ),
    decreases n,
{
    let bin = encode_spec(p)->Ok_0;
    let ps = frame_phrases(bin);
    let actual = phrases(s);
    let count = frame_count(bin.len());
    lemma_phrases_of_joined(ps);
    lemma_lowered_pieces(s, '/', 0, Seq::empty());
    assert(lowered(Seq::<char>::empty()) =~= Seq::<char>::empty());
    if n > 0 {
        lemma_written_prefix(p, s, n - 1);
        let ph = ps[n - 1];
        let e = frame_entropy(bin, n - 1, count);
        assert(actual.take(n).drop_last() =~= actual.take(n - 1));
        assert(normal(actual[n - 1]) == ph);
        assert(e.subrange(4, 32) =~= chunk(bin, n - 1));
        let before = filled(bin, n - 1);
        let base = if before.len() == 0 {
            Seq::new(count as nat, |t: int| None::<Seq<u8>>)
        } else {
            before
        };
        assert(base.update(n - 1, Some(chunk(bin, n - 1))) =~= filled(bin, n));
    }
}

/// The chunks of all the frames of `bin`, one after the other, are `bin` followed by
/// zeros.
proof fn lemma_chunks_joined(bin: Seq<u8>, n: nat)
    requires
        n <= frame_count(bin.len()),
    ensures
        chunks_joined(filled(bin, frame_count(bin.len())), n) == zero_padded(bin, 28 * n),
    decreases n,
{
    if n > 0 {
        lemma_chunks_joined(bin, (n - 1) as nat);
    }
}

/// A packet's header says the same of its length when bytes follow the packet.
proof fn lemma_total_len_extends(bin: Seq<u8>, more: Seq<u8>)
    requires
        total_len_spec(bin) is Ok,
        more.len() >= bin.len(),
        forall|t: int| 0 <= t < bin.len() ==> more[t] == bin[t],
    ensures
        total_len_spec(more) == total_len_spec(bin),
{
    assert(more.subrange(0, 4) =~= bin.subrange(0, 4));
}

/// A text whose lower case was written for a packet spells that packet.
proof fn lemma_written_decodes(p: PacketView, s: Seq<char>)
    requires
        well_formed(p),
        written(p, lowered(s)),
        forall|t: int| 0 <= t < phrases(s).len() ==> reads_back(normal(#[trigger] phrases(s)[t])),
    ensures
        decode_packet_spec(s) == Ok::<PacketView, Failure>(p),
{
    let bin = encode_spec(p)->Ok_0;
    let count = frame_count(bin.len());
    let ps = phrases(s);
    lemma_written_prefix(p, s, ps.len() as int);
    assert(ps.take(ps.len() as int) =~= ps);
    lemma_chunks_joined(bin, count as nat);
    let combined = zero_padded(bin, (28 * count) as nat);
    lemma_binary_round_trip(p, bin);
    lemma_total_len_extends(bin, combined);
    assert(combined.take(bin.len() as int) =~= bin);
}

} // verus!
