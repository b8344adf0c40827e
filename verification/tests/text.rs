use safeparts::error::number;
use safeparts::render::{decimal_digits, hex_digits};
use safeparts::text::{
    any_upper, append_chars, contains_char, is_whitespace, join, lowercase, same_chars,
    same_text, slice_chars, split_paragraphs, split_trimmed, split_whitespace,
    to_lower, to_unix_lines, trim,
};

fn cs(s: &str) -> Vec<char> {
    s.chars().collect()
}

fn rows_of(words: &[&str]) -> Vec<Vec<char>> {
    words.iter().map(|w| cs(w)).collect()
}

fn text_of(chars: &[char]) -> String {
    chars.iter().collect()
}

#[test]
fn strings_are_compared_character_by_character() {
    assert!(same_text("añ€😀", "añ€😀"));
    assert!(!same_text("añ€😀", "añ€😁"));
    assert!(!same_text("añ€", "an€"));
    assert!(!same_text("a", "añ"));
}

#[test]
fn white_space_is_what_the_standard_library_calls_so() {
    for v in 0u32..0x3100 {
        if let Some(c) = char::from_u32(v) {
            assert_eq!(is_whitespace(c), c.is_whitespace(), "at U+{:04X}", v);
        }
    }
    assert!(!is_whitespace('\u{feff}'));
    assert!(!is_whitespace('\u{10ffff}'));
}

#[test]
fn lower_case_is_the_ascii_lower_case() {
    for v in 0u32..0x250 {
        if let Some(c) = char::from_u32(v) {
            assert_eq!(to_lower(c), c.to_ascii_lowercase());
        }
    }
    assert_eq!(lowercase(&cs("AbC xyZ É")), cs("abc xyz É"));
    assert!(any_upper(&cs("abC")));
    assert!(!any_upper(&cs("abc é É 123")));
    assert!(!any_upper(&[]));
}

#[test]
fn words_are_runs_without_white_space() {
    for text in ["", " ", "a", " a", "a ", "  one two\tthree\n\nfour ", "x\u{a0}y\u{3000}z"] {
        let expected: Vec<Vec<char>> = text.split_whitespace().map(cs).collect();
        assert_eq!(split_whitespace(&cs(text)), expected, "for {:?}", text);
    }
}

#[test]
fn trimmed_pieces_are_what_stands_between_separators() {
    for text in ["", "/", "a/b", "/a//b/", "no separator", " a / b "] {
        let solid: Vec<Vec<char>> = text
            .split('/')
            .map(str::trim)
            .filter(|p| !p.is_empty())
            .map(cs)
            .collect();
        assert_eq!(split_trimmed(&cs(text), '/'), solid, "for {:?}", text);
    }
}

#[test]
fn trimmed_lines_are_the_lines_trimmed() {
    for text in ["", "\n", "a\nb", " a \r\n\r\n b\n", "one\r", "\r\n x \n\n"] {
        let expected: Vec<Vec<char>> = text
            .lines()
            .map(str::trim)
            .filter(|l| !l.is_empty())
            .map(cs)
            .collect();
        assert_eq!(split_trimmed(&cs(text), '\n'), expected, "for {:?}", text);
    }
}

#[test]
fn trimming_takes_white_space_off_both_ends() {
    for text in ["", "   ", "a", "  a b  ", "\t\nx\r\n", "\u{2003}wide\u{2003}", "in side"] {
        assert_eq!(trim(&cs(text)), cs(text.trim()), "for {:?}", text);
    }
}

#[test]
fn joining_puts_the_separator_between() {
    assert_eq!(join(&rows_of(&[]), &cs(", ")), cs(""));
    assert_eq!(join(&rows_of(&["a"]), &cs(", ")), cs("a"));
    assert_eq!(join(&rows_of(&["a", "b", "c"]), &cs(", ")), cs("a, b, c"));
    assert_eq!(join(&rows_of(&["a", "", "c"]), &cs("/")), cs("a//c"));
    assert_eq!(join(&rows_of(&["a", "b"]), &[]), cs("ab"));
}

#[test]
fn windows_line_ends_become_unix_line_ends() {
    for text in ["", "\r", "\n", "\r\n", "a\r\nb\r\n", "a\rb\n", "\r\r\n\n", "x\r"] {
        assert_eq!(
            to_unix_lines(&cs(text)),
            cs(&text.replace("\r\n", "\n")),
            "for {:?}",
            text
        );
    }
}

#[test]
fn paragraphs_are_parted_by_two_line_feeds() {
    for text in ["", "\n\n", "a\n\nb", "a\n\n\nb", "a\n\n\n\nb", "a\nb", "\n\na\n\n"] {
        let expected: Vec<Vec<char>> = text.split("\n\n").map(cs).collect();
        assert_eq!(split_paragraphs(&cs(text)), expected, "for {:?}", text);
    }
}

#[test]
fn texts_compare_and_copy() {
    assert!(same_text("abc", "abc"));
    assert!(!same_text("abc", "abd"));
    assert!(!same_text("abc", "ab"));
    assert!(same_text("", ""));
    assert!(same_chars(&cs("é"), &cs("é")));
    assert!(!same_chars(&cs("e"), &cs("é")));
    assert!(contains_char(&cs("a/b"), '/'));
    assert!(!contains_char(&cs("ab"), '/'));
    assert_eq!(slice_chars(&cs("hello"), 1, 3), cs("el"));
    assert_eq!(slice_chars(&cs("hello"), 5, 5), cs(""));
    let mut out = cs("ab");
    append_chars(&mut out, &cs("cd"));
    assert_eq!(out, cs("abcd"));
}

#[test]
fn numbers_are_written_in_decimal() {
    for n in [0u64, 1, 9, 10, 11, 99, 100, 255, 65535, 1234567890, u64::MAX] {
        assert_eq!(text_of(&decimal_digits(n)), n.to_string());
        assert_eq!(number(n), n.to_string());
    }
}

#[test]
fn bytes_are_written_in_hex() {
    assert_eq!(text_of(&hex_digits(&[])), "");
    assert_eq!(text_of(&hex_digits(&[0x00, 0x0f, 0xa0, 0xff, 0x9a])), "000fa0ff9a");
    for b in 0u8..=255 {
        assert_eq!(text_of(&hex_digits(&[b])), format!("{:02x}", b));
    }
}
