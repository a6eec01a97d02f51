use rfind::session::Rfind;

fn b(s: &str) -> Vec<u8> {
    s.as_bytes().to_vec()
}

fn lines(ls: &[&str]) -> Vec<Vec<u8>> {
    ls.iter().map(|l| b(l)).collect()
}

fn report_strings(session: &Rfind) -> Vec<Vec<u8>> {
    session.report()
}

#[test]
fn styled_pattern_is_the_underlined_form() {
    // The styling comes from ansi_term itself; it must wrap, not echo.
    let s = Rfind::new(b("hello"), b(""));
    assert_eq!(s.styled_pattern(), &b("\x1b[4mhello\x1b[0m"));
    let direct = ansi_term::Style::new().underline().paint("hello").to_string();
    assert_eq!(s.styled_pattern(), &direct.into_bytes());
}

#[test]
fn end_to_end_search_without_filter() {
    // a.txt has "hello world" and "foo"; b.py has "hello".
    let mut s = Rfind::new(b("hello"), b(""));
    s.process_file(&b("a.txt"), &b("a.txt"), &lines(&["hello world", "foo"]));
    s.process_file(&b("b.py"), &b("b.py"), &lines(&["hello"]));
    let out = report_strings(&s);
    let expected: Vec<Vec<u8>> = vec![
        b("a.txt"),
        b("  1: \x1b[4mhello\x1b[0m world"),
        b(""),
        b("b.py"),
        b("  1: \x1b[4mhello\x1b[0m"),
        b(""),
    ];
    assert_eq!(out, expected);
}

#[test]
fn end_to_end_search_with_txt_filter() {
    // With extension filter "txt" only a.txt is reported.
    let mut s = Rfind::new(b("hello"), b("txt"));
    s.process_file(&b("a.txt"), &b("a.txt"), &lines(&["hello world", "foo"]));
    s.process_file(&b("b.py"), &b("b.py"), &lines(&["hello"]));
    let out = report_strings(&s);
    let expected: Vec<Vec<u8>> = vec![
        b("a.txt"),
        b("  1: \x1b[4mhello\x1b[0m world"),
        b(""),
    ];
    assert_eq!(out, expected);
}

#[test]
fn extension_filter_excludes_by_name_not_content() {
    // A non-txt file is excluded however well its content matches.
    let mut s = Rfind::new(b("hello"), b("txt"));
    s.process_file(&b("hello.py"), &b("hello.py"), &lines(&["hello hello hello"]));
    assert_eq!(s.match_count(), 0);
    s.process_file(&b("quiet.txt"), &b("quiet.txt"), &lines(&["hello"]));
    assert_eq!(s.match_count(), 1);
}

#[test]
fn empty_pattern_never_reports_a_file() {
    // An empty pattern reports nothing, at the pipeline level.
    let mut s = Rfind::new(b(""), b(""));
    s.process_file(&b("a.txt"), &b("a.txt"), &lines(&["anything", "at all"]));
    assert_eq!(s.match_count(), 0);
    assert!(report_strings(&s).is_empty());
}

#[test]
fn arrival_order_does_not_change_the_report() {
    // The same tree handed over in two different discovery orders yields
    // the same aggregate and the same rendered report.
    let a = lines(&["hello world", "foo"]);
    let p = lines(&["hello", "hello again"]);
    let z = lines(&["no match here"]);

    let mut first = Rfind::new(b("hello"), b(""));
    first.process_file(&b("a.txt"), &b("a.txt"), &a);
    first.process_file(&b("p.txt"), &b("p.txt"), &p);
    first.process_file(&b("z.txt"), &b("z.txt"), &z);

    let mut second = Rfind::new(b("hello"), b(""));
    second.process_file(&b("z.txt"), &b("z.txt"), &z);
    second.process_file(&b("p.txt"), &b("p.txt"), &p);
    second.process_file(&b("a.txt"), &b("a.txt"), &a);

    assert_eq!(report_strings(&first), report_strings(&second));
    assert_eq!(first.match_count(), 2);
}

#[test]
fn open_failure_is_recorded_and_does_not_halt_the_run() {
    // A file that fails to open produces an error-stream entry and no
    // match entry, and later files are still processed.
    let mut s = Rfind::new(b("hello"), b(""));
    s.record_error(&b("PermissionDenied"), &b("./locked.txt"));
    assert_eq!(s.error_count(), 1);
    assert_eq!(s.error_at(0), &b("ERROR: PermissionDenied: ./locked.txt"));
    assert_eq!(s.match_count(), 0);
    s.process_file(&b("a.txt"), &b("a.txt"), &lines(&["hello"]));
    assert_eq!(s.match_count(), 1);
    assert_eq!(s.error_count(), 1);
}

#[test]
fn undecodable_line_is_skipped_counted_and_scanning_continues() {
    // A line that cannot be decoded as valid text is skipped, counted as a
    // recoverable decoding error on the error stream, and the rest of the
    // file is still scanned under physical line numbers.
    let mut bad = vec![0xff_u8];
    bad.extend_from_slice(b"hello");
    let ls = vec![bad, b("hello")];
    let mut s = Rfind::new(b("hello"), b(""));
    s.process_file(&b("a.txt"), &b("a.txt"), &ls);
    assert_eq!(s.error_count(), 1);
    assert_eq!(s.error_at(0), &b("ERROR: InvalidData: a.txt"));
    let out = report_strings(&s);
    let expected: Vec<Vec<u8>> = vec![
        b("a.txt"),
        b("  2: \x1b[4mhello\x1b[0m"),
        b(""),
    ];
    assert_eq!(out, expected);
}

#[test]
fn every_undecodable_line_is_counted() {
    let bad1 = vec![0xff_u8, 0x68];
    let bad2 = vec![0xc0_u8];
    let ls = vec![bad1, b("fine"), bad2];
    let mut s = Rfind::new(b("needle"), b(""));
    s.process_file(&b("m.txt"), &b("m.txt"), &ls);
    assert_eq!(s.error_count(), 2);
    assert_eq!(s.error_at(0), &b("ERROR: InvalidData: m.txt"));
    assert_eq!(s.error_at(1), &b("ERROR: InvalidData: m.txt"));
    assert_eq!(s.match_count(), 0);
}

#[test]
fn filtered_out_file_reports_no_decoding_errors() {
    // A file the extension filter excludes is never opened, so none of its
    // lines are decoded.
    let bad = vec![0xff_u8];
    let mut s = Rfind::new(b("hello"), b("txt"));
    s.process_file(&b("a.py"), &b("a.py"), &vec![bad]);
    assert_eq!(s.error_count(), 0);
    assert_eq!(s.match_count(), 0);
}

#[test]
fn non_ascii_pattern_is_styled_exactly() {
    // The wrapper's contract covers every valid-UTF-8 pattern.
    let pat = "caf\u{e9}".as_bytes().to_vec();
    let s = Rfind::new(pat, b(""));
    let direct = ansi_term::Style::new()
        .underline()
        .paint("caf\u{e9}")
        .to_string();
    assert_eq!(s.styled_pattern(), &direct.into_bytes());
}

#[test]
fn error_lines_keep_arrival_order() {
    let mut s = Rfind::new(b("x"), b(""));
    s.record_error(&b("NotFound"), &b("./gone"));
    s.record_error(&b("PermissionDenied"), &b("./locked"));
    assert_eq!(s.error_count(), 2);
    assert_eq!(s.error_at(0), &b("ERROR: NotFound: ./gone"));
    assert_eq!(s.error_at(1), &b("ERROR: PermissionDenied: ./locked"));
}

#[test]
fn report_renders_multi_digit_line_numbers() {
    let mut ls: Vec<Vec<u8>> = Vec::new();
    for _ in 0..11 {
        ls.push(b("quiet"));
    }
    ls.push(b("hello there"));
    let mut s = Rfind::new(b("hello"), b(""));
    s.process_file(&b("long.txt"), &b("long.txt"), &ls);
    let out = report_strings(&s);
    let expected: Vec<Vec<u8>> = vec![
        b("long.txt"),
        b("  12: \x1b[4mhello\x1b[0m there"),
        b(""),
    ];
    assert_eq!(out, expected);
}

#[test]
fn report_sorts_files_lexicographically() {
    let mut s = Rfind::new(b("m"), b(""));
    s.process_file(&b("b"), &b("b"), &lines(&["m"]));
    s.process_file(&b("a"), &b("a"), &lines(&["m"]));
    let out = report_strings(&s);
    assert_eq!(out[0], b("a"));
    assert_eq!(out[3], b("b"));
}
