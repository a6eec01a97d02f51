use rfind::highlight::{replace_bytes, strip_markers, underline_prefix_bytes, style_reset_bytes};
use rfind::linesplit::split_lines;
use rfind::matchset::scan_lines;
use rfind::text::{contains_bytes, ends_with_bytes, lex_lt_bytes};

fn b(s: &str) -> Vec<u8> {
    s.as_bytes().to_vec()
}

fn lines(ls: &[&str]) -> Vec<Vec<u8>> {
    ls.iter().map(|l| b(l)).collect()
}

#[test]
fn contains_finds_substring() {
    assert!(contains_bytes(&b("hello world"), &b("lo wo")));
    assert!(contains_bytes(&b("hello"), &b("hello")));
    assert!(contains_bytes(&b("hello"), &b("")));
    assert!(!contains_bytes(&b("hello"), &b("world")));
    assert!(!contains_bytes(&b("ab"), &b("abc")));
}

#[test]
fn ends_with_checks_suffix() {
    assert!(ends_with_bytes(&b("main.txt"), &b("txt")));
    assert!(ends_with_bytes(&b("main.txt"), &b("")));
    assert!(!ends_with_bytes(&b("main.txt"), &b("py")));
    assert!(!ends_with_bytes(&b("py"), &b("main.py")));
}

#[test]
fn lex_order_on_paths() {
    assert!(lex_lt_bytes(&b("a.txt"), &b("b.py")));
    assert!(!lex_lt_bytes(&b("b.py"), &b("a.txt")));
    assert!(!lex_lt_bytes(&b("a"), &b("a")));
    assert!(lex_lt_bytes(&b("a"), &b("ab")));
}

#[test]
fn replace_wraps_every_occurrence() {
    let r = replace_bytes(&b("ab cd ab"), &b("ab"), &b("X"));
    assert_eq!(r, b("X cd X"));
}

#[test]
fn replace_is_leftmost_nonoverlapping() {
    let r = replace_bytes(&b("aaa"), &b("aa"), &b("X"));
    assert_eq!(r, b("Xa"));
}

#[test]
fn replace_empty_pattern_changes_nothing() {
    let r = replace_bytes(&b("abc"), &b(""), &b("X"));
    assert_eq!(r, b("abc"));
}

#[test]
fn highlight_round_trip() {
    // Stripping the highlight marker from a transformed line yields the
    // original line exactly.
    let line = b("foo hello bar hello baz");
    let pat = b("hello");
    let mut styled = underline_prefix_bytes();
    styled.extend_from_slice(&pat);
    styled.extend_from_slice(&style_reset_bytes());
    let transformed = replace_bytes(&line, &pat, &styled);
    assert_ne!(transformed, line);
    assert_eq!(strip_markers(&transformed), line);
}

#[test]
fn matchset_has_exactly_the_matching_line_numbers() {
    // Lines 2 and 5 match, no others.
    let ls = lines(&["nothing", "a hit", "nothing", "nothing", "another hit", "nothing"]);
    let ms = scan_lines(&ls, &b("hit"), &b("HIT"));
    assert_eq!(ms.len(), 2);
    assert_eq!(ms.line_no_at(0), 2);
    assert_eq!(ms.line_no_at(1), 5);
    assert_eq!(ms.text_at(0), &b("a HIT"));
    assert_eq!(ms.text_at(1), &b("another HIT"));
}

#[test]
fn empty_pattern_matches_nothing() {
    // An empty pattern yields an empty match set for every file.
    let ls = lines(&["anything", "", "more"]);
    let ms = scan_lines(&ls, &b(""), &b("X"));
    assert!(ms.is_empty());
    assert_eq!(ms.len(), 0);
}

#[test]
fn undecodable_line_is_never_matched() {
    // A line that is not valid text is skipped, whatever bytes it holds,
    // and later lines keep their physical 1-based numbers.
    let mut bad = vec![0xff_u8];
    bad.extend_from_slice(b"hit");
    let ls = vec![b("no"), bad, b("a hit")];
    let ms = scan_lines(&ls, &b("hit"), &b("HIT"));
    assert_eq!(ms.len(), 1);
    assert_eq!(ms.line_no_at(0), 3);
    assert_eq!(ms.text_at(0), &b("a HIT"));
}

#[test]
fn truncated_multibyte_sequence_is_undecodable() {
    // 0xc3 opens a two-byte sequence; alone at the end it is invalid.
    let mut bad = b("hit").to_vec();
    bad.push(0xc3);
    let ls = vec![bad, b("hit")];
    let ms = scan_lines(&ls, &b("hit"), &b("HIT"));
    assert_eq!(ms.len(), 1);
    assert_eq!(ms.line_no_at(0), 2);
}

#[test]
fn valid_multibyte_text_is_matched() {
    // Well-formed non-ASCII text is scanned like any other line.
    let ls = vec!["caf\u{e9} hit".as_bytes().to_vec()];
    let ms = scan_lines(&ls, &b("hit"), &b("HIT"));
    assert_eq!(ms.len(), 1);
    assert_eq!(ms.line_no_at(0), 1);
    assert_eq!(ms.text_at(0), &"caf\u{e9} HIT".as_bytes().to_vec());
}

#[test]
fn split_lines_on_newlines() {
    let ls = split_lines(&b("one\ntwo\nthree"));
    assert_eq!(ls, vec![b("one"), b("two"), b("three")]);
}

#[test]
fn split_lines_trailing_newline_yields_no_empty_line() {
    let ls = split_lines(&b("one\ntwo\n"));
    assert_eq!(ls, vec![b("one"), b("two")]);
}

#[test]
fn split_lines_strips_carriage_return_before_newline_only() {
    let ls = split_lines(&b("one\r\ntwo\r"));
    assert_eq!(ls, vec![b("one"), b("two\r")]);
}

#[test]
fn split_lines_empty_input_has_no_lines() {
    let ls = split_lines(&b(""));
    assert!(ls.is_empty());
    let ls = split_lines(&b("\n"));
    assert_eq!(ls, vec![b("")]);
}

#[test]
fn line_numbers_are_one_based_and_count_every_line() {
    let ls = lines(&["x", "", "x", "the needle", ""]);
    let ms = scan_lines(&ls, &b("needle"), &b("N"));
    assert_eq!(ms.len(), 1);
    assert_eq!(ms.line_no_at(0), 4);
}
