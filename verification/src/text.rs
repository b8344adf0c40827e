//! Text as characters: words, lines, trimming and case.

use vstd::prelude::*;

verus! {

/// The characters of `s`.
pub(crate) fn chars_of(s: &str) -> (r: Vec<char>)
    ensures
        r@ == s@,
{
    broadcast use vstd::string::group_string_axioms;

    let mut r: Vec<char> = Vec::new();
    for c in it: s.chars()
        invariant
            it.seq() == s@,
            r@ == it.seq().take(it.index() as int),
    {
        r.push(c);
    }
    r
}

/// The string made of `chars`, by `String::from_iter`.
#[verifier::external_body]
pub(crate) fn string_of(chars: &[char]) -> (r: String)
    ensures
        r@ == chars@,
{
    String::from_iter(chars.iter())
}

/// Whether `c` is white space as Unicode defines it.
pub open spec fn is_space(c: char) -> bool {
    let v = c as u32;
    (0x09 <= v <= 0x0d) || v == 0x20 || v == 0x85 || v == 0xa0 || v == 0x1680 || (0x2000 <= v
        <= 0x200a) || v == 0x2028 || v == 0x2029 || v == 0x202f || v == 0x205f || v == 0x3000
}

/// Whether `c` is white space as Unicode defines it.
pub fn is_whitespace(c: char) -> (b: bool)
    ensures
        b == is_space(c),
{
    let v = c as u32;
    (0x09 <= v && v <= 0x0d) || v == 0x20 || v == 0x85 || v == 0xa0 || v == 0x1680 || (0x2000 <= v
        && v <= 0x200a) || v == 0x2028 || v == 0x2029 || v == 0x202f || v == 0x205f || v == 0x3000
}

/// Whether `c` is one of `A ..= Z`.
pub open spec fn is_upper(c: char) -> bool {
    'A' <= c <= 'Z'
}

/// `c` with `A ..= Z` turned into `a ..= z`.
pub open spec fn lower(c: char) -> char {
    if is_upper(c) {
        ((c as u32) + 32) as char
    } else {
        c
    }
}

/// `c` with `A ..= Z` turned into `a ..= z`.
pub fn to_lower(c: char) -> (r: char)
    ensures
        r == lower(c),
{
    if c >= 'A' && c <= 'Z' {
        ((c as u8) + 32) as char
    } else {
        c
    }
}

/// The character sequences behind a list of character vectors.
pub open spec fn rows(v: Seq<Vec<char>>) -> Seq<Seq<char>> {
    Seq::new(v.len(), |i: int| v[i]@)
}

/// `piece` as a list of one element if it is not empty, the empty list otherwise.
pub open spec fn unless_empty(piece: Seq<char>) -> Seq<Seq<char>> {
    if piece.len() > 0 {
        seq![piece]
    } else {
        Seq::empty()
    }
}

/// The words of `s` from position `i` on, where `cur` is the part already read of the
/// word that is being read.
pub open spec fn words_from(s: Seq<char>, i: int, cur: Seq<char>) -> Seq<Seq<char>>
    decreases s.len() - i,
{
    if i >= s.len() {
        unless_empty(cur)
    } else if is_space(s[i]) {
        unless_empty(cur) + words_from(s, i + 1, Seq::empty())
    } else {
        words_from(s, i + 1, cur.push(s[i]))
    }
}

/// The words of `s`: its longest runs of characters that are not white space.
pub open spec fn words(s: Seq<char>) -> Seq<Seq<char>> {
    words_from(s, 0, Seq::empty())
}

/// `s` without the white space at its start.
pub open spec fn trim_start(s: Seq<char>) -> Seq<char>
    decreases s.len(),
{
    if s.len() > 0 && is_space(s[0]) {
        trim_start(s.drop_first())
    } else {
        s
    }
}

/// `s` without the white space at its end.
pub open spec fn trim_end(s: Seq<char>) -> Seq<char>
    decreases s.len(),
{
    if s.len() > 0 && is_space(s.last()) {
        trim_end(s.drop_last())
    } else {
        s
    }
}

/// `s` without the white space at its start and at its end.
pub open spec fn trimmed(s: Seq<char>) -> Seq<char> {
    trim_end(trim_start(s))
}

/// The elements of `ws`, with `sep` between each two.
pub open spec fn joined(ws: Seq<Seq<char>>, sep: Seq<char>) -> Seq<char>
    decreases ws.len(),
{
    if ws.len() == 0 {
        Seq::empty()
    } else if ws.len() == 1 {
        ws[0]
    } else {
        joined(ws.drop_last(), sep) + sep + ws.last()
    }
}

/// `s` with `A ..= Z` turned into `a ..= z`.
pub open spec fn lowered(s: Seq<char>) -> Seq<char> {
    Seq::new(s.len(), |i: int| lower(s[i]))
}

/// Whether one of `A ..= Z` occurs in `s`.
pub open spec fn has_upper(s: Seq<char>) -> bool {
    exists|i: int| 0 <= i < s.len() && is_upper(#[trigger] s[i])
}

/// The elements of `ws` that are not empty.
pub open spec fn non_empty(ws: Seq<Seq<char>>) -> Seq<Seq<char>>
    decreases ws.len(),
{
    if ws.len() == 0 {
        Seq::empty()
    } else {
        non_empty(ws.drop_last()) + unless_empty(ws.last())
    }
}

/// A copy of the characters `s[from .. to]`.
pub fn slice_chars(s: &[char], from: usize, to: usize) -> (r: Vec<char>)
    requires
        from <= to <= s@.len(),
    ensures
        r@ == s@.subrange(from as int, to as int),
{
    let mut r: Vec<char> = Vec::new();
    let mut i: usize = from;
    while i < to
        invariant
            from <= i <= to <= s@.len(),
            r@ == s@.subrange(from as int, i as int),
        decreases to - i,
    {
        r.push(s[i]);
        i += 1;
    }
    r
}

/// Whether two texts are the same.
pub fn same_chars(a: &[char], b: &[char]) -> (r: bool)
    ensures
        r == (a@ == b@),
{
    if a.len() != b.len() {
        return false;
    }
    let mut i: usize = 0;
    while i < a.len()
        invariant
            i <= a@.len(),
            a@.len() == b@.len(),
            forall|t: int| 0 <= t < i ==> a@[t] == b@[t],
        decreases a@.len() - i,
    {
        if a[i] != b[i] {
            return false;
        }
        i += 1;
    }
    assert(a@ =~= b@);
    true
}

/// Whether two strings are the same.
pub fn same_text(a: &str, b: &str) -> (r: bool)
    ensures
        r == (a@ == b@),
{
    let x = chars_of(a);
    let y = chars_of(b);
    same_chars(x.as_slice(), y.as_slice())
}

/// Whether `c` occurs in `s`.
pub fn contains_char(s: &[char], c: char) -> (r: bool)
    ensures
        r == s@.contains(c),
{
    let mut i: usize = 0;
    while i < s.len()
        invariant
            i <= s@.len(),
            forall|t: int| 0 <= t < i ==> s@[t] != c,
        decreases s@.len() - i,
    {
        if s[i] == c {
            return true;
        }
        i += 1;
    }
    false
}

/// Whether one of `A ..= Z` occurs in `s`.
pub fn any_upper(s: &[char]) -> (r: bool)
    ensures
        r == has_upper(s@),
{
    let mut i: usize = 0;
    while i < s.len()
        invariant
            i <= s@.len(),
            forall|t: int| 0 <= t < i ==> !is_upper(#[trigger] s@[t]),
        decreases s@.len() - i,
    {
        if s[i] >= 'A' && s[i] <= 'Z' {
            return true;
        }
        i += 1;
    }
    false
}

/// `s` with `A ..= Z` turned into `a ..= z`.
pub fn lowercase(s: &[char]) -> (r: Vec<char>)
    ensures
        r@ == lowered(s@),
{
    let mut r: Vec<char> = Vec::new();
    let mut i: usize = 0;
    while i < s.len()
        invariant
            i <= s@.len(),
            r@.len() == i,
            forall|t: int| 0 <= t < i ==> r@[t] == lower(s@[t]),
        decreases s@.len() - i,
    {
        r.push(to_lower(s[i]));
        i += 1;
    }
    r
}

/// The words of `s`, as `str::split_whitespace` gives them.
pub fn split_whitespace(s: &[char]) -> (r: Vec<Vec<char>>)
    ensures
        rows(r@) == words(s@),
{
    let mut out: Vec<Vec<char>> = Vec::new();
    let mut cur: Vec<char> = Vec::new();
    let mut i: usize = 0;
    while i < s.len()
        invariant
            i <= s@.len(),
            words(s@) == rows(out@) + words_from(s@, i as int, cur@),
        decreases s@.len() - i,
    {
        let c = s[i];
        if is_whitespace(c) {
            if cur.len() > 0 {
                out.push(cur);
                cur = Vec::new();
            } else {
                assert(cur@ =~= Seq::<char>::empty());
            }
        } else {
            cur.push(c);
        }
        i += 1;
    }
    if cur.len() > 0 {
        out.push(cur);
    }
    out
}

/// `s` without the white space at its start and at its end, as `str::trim` gives it.
pub fn trim(s: &[char]) -> (r: Vec<char>)
    ensures
        r@ == trimmed(s@),
{
    let mut a: usize = 0;
    assert(s@.skip(0) =~= s@);
    while a < s.len() && is_whitespace(s[a])
        invariant
            a <= s@.len(),
            trim_start(s@) == trim_start(s@.skip(a as int)),
        decreases s@.len() - a,
    {
        assert(s@.skip(a as int).drop_first() =~= s@.skip(a + 1));
        a += 1;
    }
    let ghost t = s@.skip(a as int);
    let mut b: usize = s.len();
    assert(t.take(t.len() as int) =~= t);
    while b > a && is_whitespace(s[b - 1])
        invariant
            a <= b <= s@.len(),
            t == s@.skip(a as int),
            trim_end(t) == trim_end(t.take(b - a)),
        decreases b,
    {
        assert(t.take(b - a).drop_last() =~= t.take(b - a - 1));
        b -= 1;
    }
    slice_chars(s, a, b)
}

/// The elements of `ws`, with `sep` between each two, as `join` gives them.
pub fn join(ws: &Vec<Vec<char>>, sep: &[char]) -> (r: Vec<char>)
    ensures
        r@ == joined(rows(ws@), sep@),
{
    let mut out: Vec<char> = Vec::new();
    let mut i: usize = 0;
    while i < ws.len()
        invariant
            i <= ws@.len(),
            out@ == joined(rows(ws@).take(i as int), sep@),
        decreases ws@.len() - i,
    {
        if i > 0 {
            append_chars(&mut out, sep);
        }
        append_chars(&mut out, ws[i].as_slice());
        proof {
            let next = rows(ws@).take(i + 1);
            assert(next.drop_last() =~= rows(ws@).take(i as int));
        }
        i += 1;
    }
    assert(rows(ws@).take(ws@.len() as int) =~= rows(ws@));
    out
}

/// Appends the characters `src` to `out`.
pub fn append_chars(out: &mut Vec<char>, src: &[char])
    ensures
        final(out)@ == old(out)@ + src@,
{
    let mut i: usize = 0;
    while i < src.len()
        invariant
            i <= src@.len(),
            out@ == old(out)@ + src@.take(i as int),
        decreases src@.len() - i,
    {
        out.push(src[i]);
        i += 1;
    }
}

/// A text that is not empty and holds no white space.
pub open spec fn is_word(w: Seq<char>) -> bool {
    w.len() > 0 && forall|i: int| 0 <= i < w.len() ==> !is_space(#[trigger] w[i])
}

/// Reading on through characters that are not white space only lengthens the word that is
/// being read.
pub proof fn lemma_scan_word(s: Seq<char>, i: int, cur: Seq<char>, m: nat)
    requires
        0 <= i,
        i + m <= s.len(),
        forall|t: int| i <= t < i + m ==> !is_space(#[trigger] s[t]),
    ensures
        words_from(s, i, cur) == words_from(s, i + m, cur + s.subrange(i, i + m)),
    decreases m,
{
    if m > 0 {
        lemma_scan_word(s, i + 1, cur.push(s[i]), (m - 1) as nat);
        assert(cur.push(s[i]) + s.subrange(i + 1, i + m) =~= cur + s.subrange(i, i + m));
    }
}

/// A word after a space, at the end of a text, is one more word.
pub proof fn lemma_words_append(s: Seq<char>, w: Seq<char>, i: int, cur: Seq<char>)
    requires
        0 <= i <= s.len(),
        is_word(w),
    ensures
        words_from(s + seq![' '] + w, i, cur) == words_from(s, i, cur) + seq![w],
    decreases s.len() - i,
{
    let whole = s + seq![' '] + w;
    if i == s.len() {
        lemma_scan_word(whole, i + 1, Seq::empty(), w.len());
        assert(Seq::<char>::empty() + whole.subrange(i + 1, i + 1 + w.len()) =~= w);
    } else {
        if is_space(s[i]) {
            lemma_words_append(s, w, i + 1, Seq::empty());
        } else {
            lemma_words_append(s, w, i + 1, cur.push(s[i]));
        }
    }
}

/// The words of words joined by single spaces are those words.
pub proof fn lemma_words_of_joined(ws: Seq<Seq<char>>)
    requires
        forall|i: int| 0 <= i < ws.len() ==> is_word(#[trigger] ws[i]),
    ensures
        words(joined(ws, seq![' '])) == ws,
    decreases ws.len(),
{
    if ws.len() == 1 {
        let w = ws[0];
        lemma_scan_word(w, 0, Seq::empty(), w.len());
        assert(Seq::<char>::empty() + w.subrange(0, w.len() as int) =~= w);
    } else if ws.len() > 1 {
        let front = ws.drop_last();
        lemma_words_of_joined(front);
        lemma_words_append(joined(front, seq![' ']), ws.last(), 0, Seq::empty());
    }
}

/// Trimming the start of a text with one more character at its end.
pub proof fn lemma_trim_start_push(x: Seq<char>, c: char)
    ensures
        trim_start(x.push(c)) == (if trim_start(x).len() > 0 {
            trim_start(x).push(c)
        } else if is_space(c) {
            Seq::<char>::empty()
        } else {
            seq![c]
        }),
    decreases x.len(),
{
    if x.len() == 0 {
        let one = x.push(c);
        assert(trim_start(one.drop_first()) == one.drop_first());
    } else {
        if is_space(x[0]) {
            assert(x.push(c).drop_first() =~= x.drop_first().push(c));
            lemma_trim_start_push(x.drop_first(), c);
        }
    }
}

/// White space at the end of a text does not change what it is when trimmed.
pub proof fn lemma_trimmed_push_space(x: Seq<char>, c: char)
    requires
        is_space(c),
    ensures
        trimmed(x.push(c)) == trimmed(x),
{
    lemma_trim_start_push(x, c);
    if trim_start(x).len() > 0 {
        assert(trim_start(x).push(c).drop_last() =~= trim_start(x));
    }
}

/// A text that starts and ends with other than white space is itself when trimmed, also
/// after white space.
pub proof fn lemma_trimmed_solid(w: Seq<char>, c: char)
    requires
        w.len() > 0,
        !is_space(w[0]),
        !is_space(w.last()),
        is_space(c),
    ensures
        trimmed(w) == w,
        trimmed(seq![c] + w) == w,
{
    let cw = seq![c] + w;
    assert(cw.drop_first() =~= w);
}

/// The trimmed pieces of `s` from position `i` on, between the separators `sep`, the
/// empty ones left out, where `cur` is the part already read of the piece being read.
pub open spec fn solid_pieces_from(s: Seq<char>, sep: char, i: int, cur: Seq<char>) -> Seq<
    Seq<char>,
>
    decreases s.len() - i,
{
    if i >= s.len() {
        unless_empty(trimmed(cur))
    } else if s[i] == sep {
        unless_empty(trimmed(cur)) + solid_pieces_from(s, sep, i + 1, Seq::empty())
    } else {
        solid_pieces_from(s, sep, i + 1, cur.push(s[i]))
    }
}

/// The pieces of `s` between the separators `sep`, trimmed, the empty ones left out.
pub open spec fn solid_pieces(s: Seq<char>, sep: char) -> Seq<Seq<char>> {
    solid_pieces_from(s, sep, 0, Seq::empty())
}

/// `s` from position `i` on, with each carriage return that stands before a line feed
/// left out.
pub open spec fn unix_from(s: Seq<char>, i: int) -> Seq<char>
    decreases s.len() - i,
{
    if i >= s.len() {
        Seq::empty()
    } else if s[i] == '\r' && i + 1 < s.len() && s[i + 1] == '\n' {
        seq!['\n'] + unix_from(s, i + 2)
    } else {
        seq![s[i]] + unix_from(s, i + 1)
    }
}

/// `s` with each carriage return that stands before a line feed left out.
pub open spec fn unix_lines(s: Seq<char>) -> Seq<char> {
    unix_from(s, 0)
}

/// The paragraphs of `s` from position `i` on, where `cur` is the part already read of
/// the paragraph being read.
pub open spec fn paragraphs_from(s: Seq<char>, i: int, cur: Seq<char>) -> Seq<Seq<char>>
    decreases s.len() - i,
{
    if i >= s.len() {
        seq![cur]
    } else if s[i] == '\n' && i + 1 < s.len() && s[i + 1] == '\n' {
        seq![cur] + paragraphs_from(s, i + 2, Seq::empty())
    } else {
        paragraphs_from(s, i + 1, cur.push(s[i]))
    }
}

/// The pieces of `s` between pairs of line feeds.
pub open spec fn paragraphs(s: Seq<char>) -> Seq<Seq<char>> {
    paragraphs_from(s, 0, Seq::empty())
}

/// The pieces of `s` between the separators `sep`, trimmed, the empty ones left out.
pub fn split_trimmed(s: &[char], sep: char) -> (r: Vec<Vec<char>>)
    ensures
        rows(r@) == solid_pieces(s@, sep),
{
    let mut out: Vec<Vec<char>> = Vec::new();
    let mut cur: Vec<char> = Vec::new();
    let mut i: usize = 0;
    while i < s.len()
        invariant
            i <= s@.len(),
            solid_pieces(s@, sep) == rows(out@) + solid_pieces_from(s@, sep, i as int, cur@),
        decreases s@.len() - i,
    {
        let c = s[i];
        if c == sep {
            let piece = trim(cur.as_slice());
            if piece.len() > 0 {
                out.push(piece);
            }
            cur = Vec::new();
        } else {
            cur.push(c);
        }
        i += 1;
    }
    let piece = trim(cur.as_slice());
    if piece.len() > 0 {
        out.push(piece);
    }
    out
}

/// `s` with each carriage return that stands before a line feed left out.
pub fn to_unix_lines(s: &[char]) -> (r: Vec<char>)
    ensures
        r@ == unix_lines(s@),
{
    let mut out: Vec<char> = Vec::new();
    let mut i: usize = 0;
    while i < s.len()
        invariant
            i <= s@.len(),
            unix_lines(s@) == out@ + unix_from(s@, i as int),
        decreases s@.len() - i,
    {
        if s[i] == '\r' && i + 1 < s.len() && s[i + 1] == '\n' {
            out.push('\n');
            i += 2;
        } else {
            out.push(s[i]);
            i += 1;
        }
    }
    out
}

/// The pieces of `s` between pairs of line feeds.
pub fn split_paragraphs(s: &[char]) -> (r: Vec<Vec<char>>)
    ensures
        rows(r@) == paragraphs(s@),
{
    let mut out: Vec<Vec<char>> = Vec::new();
    let mut cur: Vec<char> = Vec::new();
    let mut i: usize = 0;
    while i < s.len()
        invariant
            i <= s@.len(),
            paragraphs(s@) == rows(out@) + paragraphs_from(s@, i as int, cur@),
        decreases s@.len() - i,
    {
        if s[i] == '\n' && i + 1 < s.len() && s[i + 1] == '\n' {
            out.push(cur);
            cur = Vec::new();
            i += 2;
        } else {
            cur.push(s[i]);
            i += 1;
        }
    }
    out.push(cur);
    out
}

/// Each element of `ws` in lower case.
pub open spec fn lowered_all(ws: Seq<Seq<char>>) -> Seq<Seq<char>> {
    Seq::new(ws.len(), |i: int| lowered(ws[i]))
}

/// A text without upper-case letters is its own lower case.
pub proof fn lemma_lowered_same(w: Seq<char>)
    requires
        !has_upper(w),
    ensures
        lowered(w) == w,
{
}

/// Texts that are their own lower case, joined by such a text, are their own lower case.
pub proof fn lemma_joined_lowered(ws: Seq<Seq<char>>, sep: Seq<char>)
    requires
        forall|i: int| 0 <= i < ws.len() ==> lowered(#[trigger] ws[i]) == ws[i],
        lowered(sep) == sep,
    ensures
        lowered(joined(ws, sep)) == joined(ws, sep),
    decreases ws.len(),
{
    if ws.len() > 1 {
        let front = ws.drop_last();
        lemma_joined_lowered(front, sep);
    }
}

/// The words of a text in lower case are the words of the text, in lower case.
pub proof fn lemma_lowered_words(s: Seq<char>, i: int, cur: Seq<char>)
    requires
        0 <= i <= s.len(),
    ensures
        words_from(lowered(s), i, lowered(cur)) == lowered_all(words_from(s, i, cur)),
    decreases s.len() - i,
{
    if i < s.len() && is_space(s[i]) {
        lemma_lowered_words(s, i + 1, Seq::empty());
        assert(lowered(Seq::<char>::empty()) =~= Seq::<char>::empty());
    } else if i < s.len() {
        lemma_lowered_words(s, i + 1, cur.push(s[i]));
        assert(lowered(cur).push(lowered(s)[i]) =~= lowered(cur.push(s[i])));
    }
}

/// Trimming a text in lower case gives the trimmed text, in lower case.
pub proof fn lemma_lowered_trimmed(x: Seq<char>)
    ensures
        trimmed(lowered(x)) == lowered(trimmed(x)),
{
    lemma_lowered_trim_start(x);
    lemma_lowered_trim_end(trim_start(x));
}

/// Trimming the start of a text in lower case gives the trimmed text, in lower case.
proof fn lemma_lowered_trim_start(x: Seq<char>)
    ensures
        trim_start(lowered(x)) == lowered(trim_start(x)),
    decreases x.len(),
{
    if x.len() > 0 && is_space(x[0]) {
        assert(lowered(x).drop_first() =~= lowered(x.drop_first()));
        lemma_lowered_trim_start(x.drop_first());
    }
}

/// Trimming the end of a text in lower case gives the trimmed text, in lower case.
proof fn lemma_lowered_trim_end(x: Seq<char>)
    ensures
        trim_end(lowered(x)) == lowered(trim_end(x)),
    decreases x.len(),
{
    if x.len() > 0 && is_space(x.last()) {
        assert(lowered(x).drop_last() =~= lowered(x.drop_last()));
        lemma_lowered_trim_end(x.drop_last());
    }
}

/// The trimmed pieces of a text in lower case are the trimmed pieces of the text, in
/// lower case, for a separator that lower case leaves alone.
pub proof fn lemma_lowered_pieces(s: Seq<char>, sep: char, i: int, cur: Seq<char>)
    requires
        0 <= i <= s.len(),
        !is_upper(sep),
        !('a' <= sep <= 'z'),
    ensures
        solid_pieces_from(lowered(s), sep, i, lowered(cur)) == lowered_all(
            solid_pieces_from(s, sep, i, cur),
        ),
    decreases s.len() - i,
{
    lemma_lowered_trimmed(cur);
    if i < s.len() && s[i] == sep {
        lemma_lowered_pieces(s, sep, i + 1, Seq::empty());
        assert(lowered(Seq::<char>::empty()) =~= Seq::<char>::empty());
    } else if i < s.len() {
        lemma_lowered_pieces(s, sep, i + 1, cur.push(s[i]));
        assert(lowered(cur).push(lowered(s)[i]) =~= lowered(cur.push(s[i])));
    }
}

} // verus!
